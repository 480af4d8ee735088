use spryteo::sheet::cluster::{Bbox, Cluster};
use spryteo::sheet::lattice::{Band, Lattice};
use spryteo::sheet::reconcile::reconcile;

fn make_lattice(cols: &[(u32, u32)], rows: &[(u32, u32)]) -> Lattice {
    Lattice {
        cols: cols.iter().map(|&(s, e)| Band { start: s, end: e }).collect(),
        rows: rows.iter().map(|&(s, e)| Band { start: s, end: e }).collect(),
    }
}

fn make_cluster(x1: u32, y1: u32, x2: u32, y2: u32) -> Cluster {
    let bbox = Bbox { x1, y1, x2, y2 };
    let pixels = bbox.width() * bbox.height();
    Cluster { bbox, pixels }
}

#[test]
fn reconcile_perfect_grid_matches_every_cell() {
    let lat = make_lattice(&[(0, 10), (10, 20), (20, 30)], &[(0, 10), (10, 20)]);
    let clusters = vec![
        make_cluster(1, 1, 9, 9),
        make_cluster(11, 1, 19, 9),
        make_cluster(21, 1, 29, 9),
        make_cluster(1, 11, 9, 19),
        make_cluster(11, 11, 19, 19),
        make_cluster(21, 11, 29, 19),
    ];
    let rec = reconcile(&lat, &clusters);
    assert_eq!(rec.matched, 6);
    assert_eq!(rec.total_cells, 6);
    assert!(rec.empty_cells.is_empty());
    assert!(rec.straddling.is_empty());
    assert!(rec.orphans.is_empty());
    assert!(rec.multi_cluster_cells.is_empty());
}

#[test]
fn reconcile_flags_a_straddling_cluster() {
    let lat = make_lattice(&[(0, 10), (10, 20)], &[(0, 10)]);
    let clusters = vec![make_cluster(2, 1, 18, 9)];
    let rec = reconcile(&lat, &clusters);
    assert_eq!(rec.straddling.len(), 1);
    assert_eq!(rec.straddling[0], clusters[0].bbox);
    assert_eq!(rec.matched, 2);
}

#[test]
fn reconcile_flags_an_orphan() {
    let lat = make_lattice(&[(0, 10)], &[(0, 10)]);
    let orphan = make_cluster(50, 50, 60, 60);
    let expected_bbox = orphan.bbox;
    let rec = reconcile(&lat, &[orphan]);
    assert_eq!(rec.orphans.len(), 1);
    assert_eq!(rec.orphans[0], expected_bbox);
    assert_eq!(rec.matched, 0);
    assert_eq!(rec.empty_cells, vec![(0, 0)]);
}

#[test]
fn reconcile_lists_empty_cells() {
    let lat = make_lattice(&[(0, 10), (10, 20)], &[(0, 10), (10, 20)]);
    let clusters = vec![make_cluster(1, 1, 9, 9), make_cluster(11, 1, 19, 9), make_cluster(1, 11, 9, 19)];
    let rec = reconcile(&lat, &clusters);
    assert_eq!(rec.matched, 3);
    assert_eq!(rec.empty_cells, vec![(1, 1)]);
}

#[test]
fn reconcile_counts_multi_component_cells() {
    let lat = make_lattice(&[(0, 100)], &[(0, 100)]);
    let clusters = vec![make_cluster(5, 5, 15, 15), make_cluster(25, 25, 35, 35), make_cluster(45, 45, 55, 55)];
    let rec = reconcile(&lat, &clusters);
    assert_eq!(rec.matched, 0);
    assert!(rec.straddling.is_empty());
    assert!(rec.orphans.is_empty());
    assert_eq!(rec.multi_cluster_cells, vec![(0, 0, 3)]);
}

#[test]
fn reconcile_without_cells_is_empty() {
    let lat = Lattice { cols: vec![], rows: vec![] };
    let rec = reconcile(&lat, &[make_cluster(0, 0, 5, 5)]);
    assert_eq!(rec.matched, 0);
    assert_eq!(rec.total_cells, 0);
    assert!(rec.orphans.is_empty());
}

#[test]
fn reconcile_sorts_orphans_by_box() {
    let lat = make_lattice(&[(0, 10)], &[(0, 10)]);
    let clusters = vec![make_cluster(50, 60, 55, 65), make_cluster(70, 20, 75, 25), make_cluster(30, 20, 35, 25)];
    let rec = reconcile(&lat, &clusters);
    assert_eq!(
        rec.orphans,
        vec![Bbox { x1: 30, y1: 20, x2: 35, y2: 25 }, Bbox { x1: 70, y1: 20, x2: 75, y2: 25 }, Bbox { x1: 50, y1: 60, x2: 55, y2: 65 }]
    );
}

#[test]
fn a_quarter_of_the_box_is_enough_to_claim_a_cell() {
    // 4 of 16 pixels inside the cell: exactly a quarter.
    let lat = make_lattice(&[(0, 10)], &[(0, 10)]);
    let rec = reconcile(&lat, &[make_cluster(8, 8, 12, 12)]);
    assert_eq!(rec.matched, 1);
    // 3 of 16: not enough.
    let rec = reconcile(&lat, &[make_cluster(9, 7, 13, 11)]);
    assert_eq!(rec.orphans.len(), 1);
}

/// The agreement score the application derives from the counts.
fn agreement(rec: &spryteo::sheet::reconcile::Reconciliation) -> f32 {
    if rec.total_cells == 0 {
        0.0
    } else {
        let base = rec.matched as f32 / rec.total_cells as f32;
        let penalty = (rec.straddling.len() as f32 * 0.1) + (rec.orphans.len() as f32 * 0.1);
        (base - penalty).clamp(0.0, 1.0)
    }
}

fn check_reconcile_perfect_grid() {
    let lat = make_lattice(&[(0, 10), (10, 20), (20, 30)], &[(0, 10), (10, 20)]);
    let clusters = vec![
        make_cluster(1, 1, 9, 9),
        make_cluster(11, 1, 19, 9),
        make_cluster(21, 1, 29, 9),
        make_cluster(1, 11, 9, 19),
        make_cluster(11, 11, 19, 19),
        make_cluster(21, 11, 29, 19),
    ];
    let rec = reconcile(&lat, &clusters);
    assert_eq!(rec.matched, 6);
    assert!(rec.empty_cells.is_empty());
    assert!(rec.straddling.is_empty());
    assert!(rec.orphans.is_empty());
    assert!(rec.multi_cluster_cells.is_empty());
    assert_eq!(agreement(&rec), 1.0);
}

fn check_reconcile_detects_straddling_cluster() {
    let lat = make_lattice(&[(0, 10), (10, 20)], &[(0, 10)]);
    let clusters = vec![make_cluster(2, 1, 18, 9)];
    let rec = reconcile(&lat, &clusters);
    assert_eq!(rec.straddling.len(), 1);
    assert_eq!(rec.straddling[0], clusters[0].bbox);
    assert!(agreement(&rec) < 1.0);
}

fn check_reconcile_detects_orphan() {
    let lat = make_lattice(&[(0, 10)], &[(0, 10)]);
    let orphan = make_cluster(50, 50, 60, 60);
    let expected_bbox = orphan.bbox;
    let clusters = vec![orphan];
    let rec = reconcile(&lat, &clusters);
    assert_eq!(rec.orphans.len(), 1);
    assert_eq!(rec.orphans[0], expected_bbox);
    assert_eq!(rec.matched, 0);
    assert_eq!(rec.empty_cells, vec![(0, 0)]);
}

fn check_reconcile_detects_empty_cell() {
    let lat = make_lattice(&[(0, 10), (10, 20)], &[(0, 10), (10, 20)]);
    let clusters = vec![make_cluster(1, 1, 9, 9), make_cluster(11, 1, 19, 9), make_cluster(1, 11, 9, 19)];
    let rec = reconcile(&lat, &clusters);
    assert_eq!(rec.matched, 3);
    assert_eq!(rec.empty_cells, vec![(1, 1)]);
}

fn check_reconcile_multi_component_icon_is_not_an_error() {
    let lat = make_lattice(&[(0, 100)], &[(0, 100)]);
    let clusters = vec![make_cluster(5, 5, 15, 15), make_cluster(25, 25, 35, 35), make_cluster(45, 45, 55, 55)];
    let rec = reconcile(&lat, &clusters);
    assert_eq!(rec.matched, 0);
    assert!(rec.straddling.is_empty());
    assert!(rec.orphans.is_empty());
    assert_eq!(rec.multi_cluster_cells, vec![(0, 0, 3)]);
}

fn check_reconcile_empty_inputs() {
    let lat = Lattice { cols: vec![], rows: vec![] };
    let rec = reconcile(&lat, &[]);
    assert_eq!(rec.matched, 0);
    assert_eq!(agreement(&rec), 0.0);
}

#[test]
fn reconcile_test_reconcile_perfect_grid() {
    check_reconcile_perfect_grid();
}

#[test]
fn reconcile_tests_test_reconcile_perfect_grid() {
    check_reconcile_perfect_grid();
}

#[test]
fn reconcile_test_reconcile_detects_straddling_cluster() {
    check_reconcile_detects_straddling_cluster();
}

#[test]
fn reconcile_tests_test_reconcile_detects_straddling_cluster() {
    check_reconcile_detects_straddling_cluster();
}

#[test]
fn reconcile_test_reconcile_detects_orphan() {
    check_reconcile_detects_orphan();
}

#[test]
fn reconcile_tests_test_reconcile_detects_orphan() {
    check_reconcile_detects_orphan();
}

#[test]
fn reconcile_test_reconcile_detects_empty_cell() {
    check_reconcile_detects_empty_cell();
}

#[test]
fn reconcile_tests_test_reconcile_detects_empty_cell() {
    check_reconcile_detects_empty_cell();
}

#[test]
fn reconcile_test_reconcile_multi_component_icon_is_not_an_error() {
    check_reconcile_multi_component_icon_is_not_an_error();
}

#[test]
fn reconcile_tests_test_reconcile_multi_component_icon_is_not_an_error() {
    check_reconcile_multi_component_icon_is_not_an_error();
}

#[test]
fn reconcile_test_reconcile_empty_inputs() {
    check_reconcile_empty_inputs();
}

#[test]
fn reconcile_tests_test_reconcile_empty_inputs() {
    check_reconcile_empty_inputs();
}
