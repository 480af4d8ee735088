use spryteo::semantic::grouping::{
    children_lists, layer_coverage, mask_roots, regroup_parents, shape_layers, shape_masks, top_level_groups,
    TopGroup,
};

#[test]
fn layer_ranges_follow_the_cursor() {
    // Layer 0 emits three shapes, layer 1 one.
    assert_eq!(shape_layers(&[3, 1], 4), vec![0, 0, 0, 1]);
}

#[test]
fn shapes_past_every_range_fall_back_to_layer_zero() {
    assert_eq!(shape_layers(&[1, 0, 2], 5), vec![0, 2, 2, 0, 0]);
    assert_eq!(shape_layers(&[], 2), vec![0, 0]);
    assert_eq!(shape_layers(&[4], 2), vec![0, 0]);
}

#[test]
fn shape_masks_follow_their_layers() {
    let layer_masks = [Some(1), None];
    assert_eq!(shape_masks(&[0, 1, 0, 7], &layer_masks), vec![Some(1), None, Some(1), None]);
}

#[test]
fn layer_coverage_sums_minimum_and_layer() {
    let layer = [255u8, 128, 0, 40];
    let mask = [100u8, 255, 255];
    // Common length 3: min sums 100 + 128 + 0, layer sums 255 + 128 + 0.
    assert_eq!(layer_coverage(&layer, &mask), (228, 383));
    assert_eq!(layer_coverage(&[], &mask), (0, 0));
}

#[test]
fn regroup_cuts_only_links_across_masks() {
    // 0 <- 1 <- 2, 0 <- 3; shapes 1 and 2 are claimed by mask 0, shape 3 by mask 1.
    let parents = [None, Some(0), Some(1), Some(0)];
    let assigned = [None, Some(0), Some(0), Some(1)];
    assert_eq!(regroup_parents(&parents, &assigned), vec![None, None, Some(1), None]);
    // Unclaimed shapes keep their parents.
    let unclaimed = [None, None, None, None];
    assert_eq!(regroup_parents(&parents, &unclaimed), parents.to_vec());
}

#[test]
fn children_lists_are_in_paint_order() {
    let parents = [None, Some(0), Some(3), None, Some(0), Some(3)];
    let children = children_lists(&parents);
    assert_eq!(children, vec![vec![1, 4], vec![], vec![], vec![2, 5], vec![], vec![]]);
}

#[test]
fn mask_group_stands_at_its_first_member() {
    let assigned = [None, Some(1), None, Some(0), Some(1)];
    let parents = [None, None, Some(0), None, None];
    let top = top_level_groups(&assigned, &parents, 2);
    assert_eq!(top, vec![TopGroup::Shape(0), TopGroup::Mask(1), TopGroup::Mask(0)]);
    assert_eq!(mask_roots(&assigned, &parents, 1), vec![1, 4]);
    assert_eq!(mask_roots(&assigned, &parents, 0), vec![3]);
}

#[test]
fn shapes_with_parents_are_not_top_level() {
    let assigned = [None, None, None];
    let parents = [Some(2), None, None];
    assert_eq!(top_level_groups(&assigned, &parents, 0), vec![TopGroup::Shape(1), TopGroup::Shape(2)]);
}
