use spryteo::stroke::prune::{prune_spurs, trace_spur};

fn grid(w: u32, h: u32, pixels: &[(u32, u32)]) -> Vec<bool> {
    let mut s = vec![false; (w * h) as usize];
    for &(x, y) in pixels {
        s[(y * w + x) as usize] = true;
    }
    s
}

fn line_with_spur(spur_top: u32) -> Vec<bool> {
    let mut px: Vec<(u32, u32)> = (5..=25).map(|x| (x, 10)).collect();
    for y in spur_top..10 {
        px.push((15, y));
    }
    grid(32, 32, &px)
}

#[test]
fn short_spur_off_a_line_is_cut() {
    let mut s = line_with_spur(8);
    let limits = vec![3usize; 32 * 32];
    prune_spurs(&mut s, &limits, 32, 32);
    let line: Vec<(u32, u32)> = (5..=25).map(|x| (x, 10)).collect();
    assert_eq!(s, grid(32, 32, &line));
}

#[test]
fn long_spur_off_a_line_survives() {
    let original = line_with_spur(5);
    let mut s = original.clone();
    let limits = vec![3usize; 32 * 32];
    prune_spurs(&mut s, &limits, 32, 32);
    assert_eq!(s, original);
}

#[test]
fn spur_at_the_limit_survives_and_below_it_is_cut() {
    // The spur (15,8),(15,9) has length 2 at its junction base (15,10).
    let mut at_limit = line_with_spur(8);
    prune_spurs(&mut at_limit, &vec![2usize; 32 * 32], 32, 32);
    assert_eq!(at_limit, line_with_spur(8));
}

#[test]
fn short_isolated_segment_is_removed_whole() {
    let mut s = grid(8, 8, &[(3, 3), (4, 3)]);
    prune_spurs(&mut s, &vec![5usize; 64], 8, 8);
    assert_eq!(s, vec![false; 64]);
}

#[test]
fn loop_without_endpoints_is_untouched() {
    let ring = [(1, 1), (2, 1), (3, 1), (1, 2), (3, 2), (1, 3), (2, 3), (3, 3)];
    let original = grid(5, 5, &ring);
    let mut s = original.clone();
    prune_spurs(&mut s, &vec![100usize; 25], 5, 5);
    assert_eq!(s, original);
}

#[test]
fn pruning_again_changes_nothing() {
    let mut s = line_with_spur(8);
    let limits = vec![3usize; 32 * 32];
    prune_spurs(&mut s, &limits, 32, 32);
    let once = s.clone();
    prune_spurs(&mut s, &limits, 32, 32);
    assert_eq!(s, once);
}

#[test]
fn spur_trace_stops_at_the_junction() {
    let s = line_with_spur(8);
    let (path, base) = trace_spur(&s, 32, 32, (15, 8));
    assert_eq!(path, vec![(15, 8), (15, 9), (15, 10)]);
    assert_eq!(base, (15, 10));
}

#[test]
fn empty_grid_is_left_alone() {
    let mut s: Vec<bool> = Vec::new();
    prune_spurs(&mut s, &[], 0, 7);
    assert!(s.is_empty());
}
