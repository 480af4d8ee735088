use spryteo::sheet::chroma::Mask;
use spryteo::sheet::grid::{lattice_candidate, median_lengths, occupancy_counts, sort_ascending, width_spread};
use spryteo::sheet::lattice::{Band, Lattice};

fn squares(cols: u32, rows: u32, size: u32, pitch: u32, margin: u32) -> Mask {
    let w = margin * 2 + pitch * cols;
    let h = margin * 2 + pitch * rows;
    let mut bits = vec![false; (w * h) as usize];
    for r in 0..rows {
        for c in 0..cols {
            let x0 = margin + c * pitch;
            let y0 = margin + r * pitch;
            for y in y0..y0 + size {
                for x in x0..x0 + size {
                    bits[(y * w + x) as usize] = true;
                }
            }
        }
    }
    Mask { width: w, height: h, bits }
}

fn bands(lengths: &[u32]) -> Vec<Band> {
    let mut out = Vec::new();
    let mut start = 0;
    for &n in lengths {
        out.push(Band { start, end: start + n });
        start += n + 5;
    }
    out
}

#[test]
fn sort_ascending_orders_values() {
    assert_eq!(sort_ascending(&vec![5, 1, 4, 1, 3]), vec![1, 1, 3, 4, 5]);
    assert!(sort_ascending(&vec![]).is_empty());
}

#[test]
fn median_lengths_takes_the_upper_median() {
    assert_eq!(median_lengths(&bands(&[10, 3, 7])), 7);
    assert_eq!(median_lengths(&bands(&[4, 1, 9, 2])), 4);
    assert_eq!(median_lengths(&[]), 0);
}

#[test]
fn lattice_candidate_finds_a_synthetic_grid() {
    let mut bits = vec![false; (70 * 50) as usize];
    for cy in 0..3u32 {
        for cx in 0..4u32 {
            for dy in 0..10u32 {
                for dx in 0..10u32 {
                    let x = cx * 20 + dx;
                    let y = cy * 20 + dy;
                    bits[(y * 70 + x) as usize] = true;
                }
            }
        }
    }
    let mask = Mask { width: 70, height: 50, bits };
    let lat = lattice_candidate(&mask, 2, 10, 4).expect("grid");
    assert_eq!(lat.cols.len(), 4);
    assert_eq!(lat.rows.len(), 3);
    assert_eq!(lat.cell_rect(1, 1), Some((20, 20, 10, 10)));
}

#[test]
fn lattice_candidate_is_none_on_an_empty_mask() {
    let mask = Mask { width: 10, height: 10, bits: vec![false; 100] };
    assert!(lattice_candidate(&mask, 2, 10, 4).is_none());
}

#[test]
fn refinement_drops_fragments_shorter_than_a_quarter_median() {
    // Two wide columns and a narrow sliver between them: with min_run 2 the
    // sliver is a band at first, then the refined run (40 / 4 = 10) drops it.
    let w = 110u32;
    let h = 30u32;
    let mut bits = vec![false; (w * h) as usize];
    for y in 0..30u32 {
        for x in (0..40u32).chain(50..53).chain(63..103) {
            bits[(y * w + x) as usize] = true;
        }
    }
    let mask = Mask { width: w, height: h, bits };
    let lat = lattice_candidate(&mask, 2, 2, 4).expect("lattice");
    assert_eq!(lat.cols.len(), 2);
    assert_eq!(lat.cols[0], Band { start: 0, end: 40 });
    assert_eq!(lat.cols[1], Band { start: 63, end: 103 });
}

#[test]
fn occupancy_counts_filled_cells() {
    let mask = squares(5, 4, 20, 40, 20);
    let lat = lattice_candidate(&mask, 2, 10, 4).expect("grid");
    assert_eq!(occupancy_counts(&mask, &lat), (20, 20));

    let mut holed = squares(5, 4, 20, 40, 20);
    let w = holed.width;
    for y in 60..80u32 {
        for x in 60..80u32 {
            holed.bits[(y * w + x) as usize] = false;
        }
    }
    let lat2 = Lattice { cols: lat.cols.clone(), rows: lat.rows.clone() };
    assert_eq!(occupancy_counts(&holed, &lat2), (19, 20));
}

#[test]
fn occupancy_counts_of_an_empty_lattice() {
    let mask = Mask { width: 4, height: 4, bits: vec![true; 16] };
    let lat = Lattice { cols: vec![], rows: vec![] };
    assert_eq!(occupancy_counts(&mask, &lat), (0, 0));
}

#[test]
fn width_spread_uses_range_then_interquartile_range() {
    assert_eq!(width_spread(&bands(&[10, 12, 10])), (2, 10));
    assert_eq!(width_spread(&bands(&[20, 5, 10, 10])), (10, 10));
    assert_eq!(width_spread(&bands(&[10, 10])), (0, 10));
}
