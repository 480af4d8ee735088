use spryteo::stroke::components::ink_components;

fn mask(w: u32, h: u32, ink: &[(u32, u32)]) -> Vec<bool> {
    let mut m = vec![false; (w * h) as usize];
    for &(x, y) in ink {
        m[(y * w + x) as usize] = true;
    }
    m
}

fn sorted(mut v: Vec<(i32, i32)>) -> Vec<(i32, i32)> {
    v.sort();
    v
}

#[test]
fn diagonal_pixels_join_one_component() {
    let m = mask(4, 4, &[(0, 0), (1, 1), (2, 2), (3, 3)]);
    let comps = ink_components(&m, 4, 4);
    assert_eq!(comps.len(), 1);
    assert_eq!(comps[0][0], (0, 0));
    assert_eq!(sorted(comps[0].clone()), vec![(0, 0), (1, 1), (2, 2), (3, 3)]);
}

#[test]
fn components_come_in_scan_order_of_their_first_pixel() {
    // A vertical bar on the right starts on row 0; a dot on the left sits on row 2.
    let m = mask(5, 4, &[(4, 0), (4, 1), (4, 2), (0, 2), (2, 3)]);
    let comps = ink_components(&m, 5, 4);
    assert_eq!(comps.len(), 3);
    assert_eq!(comps[0][0], (4, 0));
    assert_eq!(sorted(comps[0].clone()), vec![(4, 0), (4, 1), (4, 2)]);
    assert_eq!(comps[1], vec![(0, 2)]);
    assert_eq!(comps[2], vec![(2, 3)]);
}

#[test]
fn u_shape_is_one_component_seeded_at_its_top_left() {
    let m = mask(3, 3, &[(0, 0), (2, 0), (0, 1), (2, 1), (0, 2), (1, 2), (2, 2)]);
    let comps = ink_components(&m, 3, 3);
    assert_eq!(comps.len(), 1);
    assert_eq!(comps[0][0], (0, 0));
    assert_eq!(comps[0].len(), 7);
}

#[test]
fn empty_masks_have_no_components() {
    assert!(ink_components(&vec![false; 6], 3, 2).is_empty());
    assert!(ink_components(&Vec::new(), 0, 5).is_empty());
}
