use spryteo::sheet::cells::{extract_cells, ink_bbox_in, CellConfig};
use spryteo::sheet::chroma::{chroma_mask, saturation, ChromaConfig, Mask};
use spryteo::sheet::cluster::{dilate, find_clusters, Bbox, ClusterConfig};
use spryteo::sheet::lattice::{find_bands, project, Axis, Band, Lattice};
use spryteo::sheet::textband::{label_band_below, strip_text_rows, TextBands};
use spryteo::RasterImage;

fn make_mask(width: u32, height: u32, ink: &[(u32, u32)]) -> Mask {
    let mut bits = vec![false; (width * height) as usize];
    for &(x, y) in ink {
        let idx = (y * width + x) as usize;
        bits[idx] = true;
    }
    Mask { width, height, bits }
}

fn make_image(width: u32, height: u32, pixels: Vec<u8>) -> RasterImage {
    RasterImage { width, height, pixels }
}

#[test]
fn test_saturation_basics() {
    assert_eq!(saturation(128, 128, 128), 0);
    assert_eq!(saturation(255, 0, 0), 255);
    assert_eq!(saturation(255, 255, 255), 0);
    assert_eq!(saturation(0, 0, 0), 0);
}

#[test]
fn test_chroma_mask_separates_colored_ink_from_grey_text() {
    let w: [u8; 4] = [255, 255, 255, 255];
    let c: [u8; 4] = [200, 24, 200, 255];
    let g: [u8; 4] = [90, 70, 46, 255];
    let mut pixels = Vec::new();
    let rows: &[&[[u8; 4]]] = &[&[w, w, w, w], &[w, c, c, w], &[w, g, g, w], &[w, w, w, w]];
    for row in rows {
        for pixel in *row {
            pixels.extend_from_slice(pixel);
        }
    }
    let img = make_image(4, 4, pixels);
    let mask = chroma_mask(&img, &ChromaConfig::default());
    assert_eq!(mask.count(), 2);
    assert!(mask.get(1, 1));
    assert!(mask.get(2, 1));
    assert!(!mask.get(1, 2));
    assert!(!mask.get(2, 2));
    assert!(!mask.get(0, 0));
    assert!(!mask.get(3, 3));
}

#[test]
fn test_chroma_mask_rejects_transparent_and_near_white() {
    let transparent = [200, 24, 200, 0];
    let bright = [252, 252, 250, 255];
    let ink = [200, 24, 200, 255];
    let mut pixels = Vec::new();
    pixels.extend_from_slice(&transparent);
    pixels.extend_from_slice(&bright);
    pixels.extend_from_slice(&ink);
    let img = make_image(3, 1, pixels);
    let mask = chroma_mask(&img, &ChromaConfig::default());
    assert!(!mask.get(0, 0), "transparent pixel must not be ink");
    assert!(!mask.get(1, 0), "near-white pixel must not be ink");
    assert!(mask.get(2, 0), "saturated ink pixel must be ink");
}

#[test]
fn chroma_mask_of_empty_image_is_empty() {
    let img = make_image(0, 0, vec![]);
    let mask = chroma_mask(&img, &ChromaConfig::default());
    assert_eq!(mask.count(), 0);
}

#[test]
fn bbox_geometry_without_centre() {
    let b1 = Bbox { x1: 10, y1: 10, x2: 20, y2: 20 };
    let b2 = Bbox { x1: 15, y1: 15, x2: 25, y2: 25 };
    let b_touch = Bbox { x1: 20, y1: 10, x2: 30, y2: 20 };
    let b_disjoint = Bbox { x1: 30, y1: 30, x2: 40, y2: 40 };
    assert_eq!(b1.width(), 10);
    assert_eq!(b1.height(), 10);
    assert_eq!(b1.area(), 100);
    assert!(b1.intersects(&b2));
    assert!(b2.intersects(&b1));
    assert!(!b1.intersects(&b_touch));
    assert!(!b1.intersects(&b_disjoint));
    assert_eq!(b1.intersection_area(&b2), 25);
    assert_eq!(b1.intersection_area(&b_touch), 0);
    assert_eq!(b1.intersection_area(&b_disjoint), 0);
    assert_eq!(b1.union(&b2), Bbox { x1: 10, y1: 10, x2: 25, y2: 25 });
    assert!(b1.contains_point(10, 10));
    assert!(b1.contains_point(19, 19));
    assert!(!b1.contains_point(20, 20));
    assert!(!b1.contains_point(9, 10));
}

#[test]
fn inverted_bbox_has_zero_size() {
    let b = Bbox { x1: 5, y1: 5, x2: 3, y2: 9 };
    assert_eq!(b.width(), 0);
    assert_eq!(b.height(), 4);
    assert_eq!(b.area(), 0);
}

#[test]
fn test_dilate_radius_zero_is_identity() {
    let mask = make_mask(5, 5, &[(2, 2)]);
    let d = dilate(&mask, 0);
    assert_eq!(d.bits, mask.bits);
}

#[test]
fn test_dilate_expands_single_pixel() {
    let mask_center = make_mask(5, 5, &[(2, 2)]);
    let d_center = dilate(&mask_center, 1);
    assert_eq!(d_center.count(), 9);
    let mask_corner = make_mask(5, 5, &[(0, 0)]);
    let d_corner = dilate(&mask_corner, 1);
    assert_eq!(d_corner.count(), 4);
    assert!(d_corner.get(0, 0));
    assert!(d_corner.get(1, 0));
    assert!(d_corner.get(0, 1));
    assert!(d_corner.get(1, 1));
}

#[test]
fn dilate_by_two_reaches_the_chebyshev_square() {
    let mask = make_mask(7, 7, &[(3, 3)]);
    let d = dilate(&mask, 2);
    assert_eq!(d.count(), 25);
    assert!(d.get(1, 1));
    assert!(d.get(5, 5));
    assert!(!d.get(0, 3));
    assert!(!d.get(6, 6));
}

#[test]
fn test_project_counts_ink_per_axis() {
    let mask = make_mask(4, 3, &[(0, 0), (1, 0), (2, 0), (3, 0), (0, 1), (1, 1)]);
    let x_proj = project(&mask, Axis::X);
    assert_eq!(x_proj, vec![2, 2, 1, 1]);
    let y_proj = project(&mask, Axis::Y);
    assert_eq!(y_proj, vec![4, 2, 0]);
}

#[test]
fn test_find_bands_simple() {
    let profile = [0, 0, 3, 3, 3, 0, 0, 0, 0, 0, 0, 4, 4, 4, 0];
    let bands = find_bands(&profile, 2, 4, 2);
    assert_eq!(bands.len(), 2);
    assert_eq!(bands[0], Band { start: 2, end: 5 });
    assert_eq!(bands[1], Band { start: 11, end: 14 });
}

#[test]
fn test_find_bands_single_stray_pixel_does_not_bridge() {
    let profile = [3, 3, 0, 1, 0, 3, 3];
    let bands_high = find_bands(&profile, 1, 3, 2);
    assert_eq!(bands_high.len(), 2, "min_profile=2 must yield two bands");
    let bands_low = find_bands(&profile, 1, 3, 1);
    assert_eq!(bands_low.len(), 1, "min_profile=1 must collapse to one band");
}

#[test]
fn test_find_bands_small_interior_gap_does_not_split() {
    let profile = [3, 3, 3, 0, 0, 3, 3, 3];
    let big_gap = find_bands(&profile, 1, 4, 2);
    assert_eq!(big_gap.len(), 1, "min_gap=4 must absorb the 2-wide hole");
    assert_eq!(big_gap[0], Band { start: 0, end: 8 });
    let small_gap = find_bands(&profile, 1, 2, 2);
    assert_eq!(small_gap.len(), 2, "min_gap=2 must split on the hole");
    assert_eq!(small_gap[0], Band { start: 0, end: 3 });
    assert_eq!(small_gap[1], Band { start: 5, end: 8 });
}

#[test]
fn test_find_bands_discards_short_runs() {
    let profile = [0, 5, 5, 5, 0];
    let bands = find_bands(&profile, 10, 1, 2);
    assert!(bands.is_empty());
}

#[test]
fn test_find_bands_flushes_trailing_band() {
    let profile = [0, 0, 5, 5, 5];
    let bands = find_bands(&profile, 2, 2, 2);
    assert_eq!(bands.len(), 1);
    assert_eq!(bands[0], Band { start: 2, end: 5 });
}

#[test]
fn empty_mask_projects_to_nothing() {
    let mask = Mask { width: 0, height: 0, bits: vec![] };
    assert!(project(&mask, Axis::X).is_empty());
    assert!(project(&mask, Axis::Y).is_empty());
    assert!(find_bands(&[], 2, 4, 2).is_empty());
}

#[test]
fn band_length_and_emptiness() {
    let b = Band { start: 3, end: 7 };
    assert_eq!(b.len(), 4);
    assert!(!b.is_empty());
    assert!(Band { start: 5, end: 5 }.is_empty());
    assert_eq!(Band { start: 9, end: 2 }.len(), 0);
}

#[test]
fn test_cell_rect_out_of_range_is_none() {
    let lattice = Lattice { cols: vec![Band { start: 0, end: 10 }], rows: vec![Band { start: 0, end: 10 }] };
    assert_eq!(lattice.cell_rect(0, 0), Some((0, 0, 10, 10)));
    assert_eq!(lattice.cell_rect(1, 0), None);
    assert_eq!(lattice.cell_rect(0, 1), None);
    assert_eq!(lattice.cell_rect(1, 1), None);
    assert_eq!(lattice.cell_count(), 1);
}

#[test]
fn test_label_band_below() {
    let icon1 = Band { start: 10, end: 50 };
    let text1 = Band { start: 55, end: 67 };
    let text2 = Band { start: 120, end: 132 };
    let tb = TextBands { icon: vec![icon1], text: vec![text1, text2], kept_short: vec![] };
    let found = label_band_below(&tb, &icon1);
    assert_eq!(found, Some(text1));
    let icon2 = Band { start: 200, end: 240 };
    let not_found = label_band_below(&tb, &icon2);
    assert_eq!(not_found, None);
}

#[test]
fn label_band_below_prefers_the_nearest_caption() {
    let icon = Band { start: 0, end: 20 };
    let far = Band { start: 25, end: 30 };
    let near = Band { start: 21, end: 24 };
    let tb = TextBands { icon: vec![icon], text: vec![far, near], kept_short: vec![] };
    assert_eq!(label_band_below(&tb, &icon), Some(near));
}

#[test]
fn strip_text_rows_clears_only_text_rows() {
    let mask = make_mask(3, 4, &[(0, 0), (1, 1), (2, 2), (0, 3)]);
    let tb = TextBands { icon: vec![], text: vec![Band { start: 1, end: 3 }], kept_short: vec![] };
    let out = strip_text_rows(&mask, &tb);
    assert!(out.get(0, 0));
    assert!(!out.get(1, 1));
    assert!(!out.get(2, 2));
    assert!(out.get(0, 3));
    assert_eq!(out.count(), 2);
    let again = strip_text_rows(&out, &tb);
    assert_eq!(again.bits, out.bits);
}

#[test]
fn ink_bbox_is_tight_inside_the_rect() {
    let mask = make_mask(8, 8, &[(2, 3), (5, 4), (7, 7)]);
    let rect = Bbox { x1: 0, y1: 0, x2: 6, y2: 6 };
    assert_eq!(ink_bbox_in(&mask, &rect), Some(Bbox { x1: 2, y1: 3, x2: 6, y2: 5 }));
    let empty = Bbox { x1: 0, y1: 5, x2: 2, y2: 7 };
    assert_eq!(ink_bbox_in(&mask, &empty), None);
}

#[test]
fn extract_cells_finds_the_inked_cells() {
    let mask = make_mask(20, 10, &[(2, 2), (3, 3), (15, 5), (16, 6)]);
    let lattice = Lattice {
        cols: vec![Band { start: 0, end: 10 }, Band { start: 10, end: 20 }],
        rows: vec![Band { start: 0, end: 10 }],
    };
    let cfg = CellConfig { pad: 1, min_ink: 2 };
    let cells = extract_cells(&mask, &lattice, &cfg);
    assert_eq!(cells.len(), 2);
    assert_eq!((cells[0].col, cells[0].row), (0, 0));
    assert_eq!(cells[0].crop, Bbox { x1: 1, y1: 1, x2: 5, y2: 5 });
    assert_eq!(cells[0].ink_pixels, 2);
    assert_eq!((cells[1].col, cells[1].row), (1, 0));
    assert_eq!(cells[1].cell_rect, Bbox { x1: 10, y1: 0, x2: 20, y2: 10 });
}

#[test]
fn test_find_clusters_separates_disjoint_blobs() {
    let mut ink = Vec::new();
    for y in 0..4 {
        for x in 0..4 {
            ink.push((x, y));
            ink.push((x + 20, y + 20));
        }
    }
    let mask = make_mask(30, 30, &ink);
    let cfg = ClusterConfig { dilate: 1, min_pixels: 10 };
    let clusters = find_clusters(&mask, &cfg);
    assert_eq!(clusters.len(), 2);
    assert_eq!(clusters[0].bbox, Bbox { x1: 0, y1: 0, x2: 4, y2: 4 });
    assert_eq!(clusters[0].pixels, 16);
    assert_eq!(clusters[1].bbox, Bbox { x1: 20, y1: 20, x2: 24, y2: 24 });
    assert_eq!(clusters[1].pixels, 16);
}

#[test]
fn test_find_clusters_merges_nearby_strokes_via_dilation() {
    let mut ink = Vec::new();
    for y in 0..2 {
        for x in 0..2 {
            ink.push((x, y));
            ink.push((x + 4, y));
        }
    }
    let mask = make_mask(10, 10, &ink);
    let cfg_no_dilate = ClusterConfig { dilate: 0, min_pixels: 1 };
    let clusters_no_dilate = find_clusters(&mask, &cfg_no_dilate);
    assert_eq!(clusters_no_dilate.len(), 2);
    let cfg_dilate = ClusterConfig { dilate: 3, min_pixels: 1 };
    let clusters_dilate = find_clusters(&mask, &cfg_dilate);
    assert_eq!(clusters_dilate.len(), 1);
    assert_eq!(clusters_dilate[0].bbox, Bbox { x1: 0, y1: 0, x2: 6, y2: 2 });
    assert_eq!(clusters_dilate[0].pixels, 8);
}

#[test]
fn test_find_clusters_drops_noise() {
    let mut ink = vec![(0, 0)];
    for y in 10..14 {
        for x in 10..14 {
            ink.push((x, y));
        }
    }
    let mask = make_mask(20, 20, &ink);
    let cfg = ClusterConfig { dilate: 1, min_pixels: 12 };
    let clusters = find_clusters(&mask, &cfg);
    assert_eq!(clusters.len(), 1);
    assert_eq!(clusters[0].bbox, Bbox { x1: 10, y1: 10, x2: 14, y2: 14 });
    assert_eq!(clusters[0].pixels, 16);
}

#[test]
fn test_find_clusters_is_deterministic() {
    let mut ink = Vec::new();
    for y in (0..30).step_by(5) {
        for x in (0..30).step_by(5) {
            ink.push((x, y));
        }
    }
    let mask = make_mask(35, 35, &ink);
    let cfg = ClusterConfig { dilate: 1, min_pixels: 1 };
    let run1 = find_clusters(&mask, &cfg);
    let run2 = find_clusters(&mask, &cfg);
    assert_eq!(run1.len(), run2.len());
    for (c1, c2) in run1.iter().zip(run2.iter()) {
        assert_eq!(c1.bbox, c2.bbox);
        assert_eq!(c1.pixels, c2.pixels);
    }
}

#[test]
fn test_cluster_large_region_does_not_stack_overflow() {
    let mut ink = Vec::new();
    for y in 0..400 {
        for x in 0..400 {
            ink.push((x, y));
        }
    }
    let mask = make_mask(400, 400, &ink);
    let cfg = ClusterConfig { dilate: 0, min_pixels: 1 };
    let clusters = find_clusters(&mask, &cfg);
    assert_eq!(clusters.len(), 1);
    assert_eq!(clusters[0].pixels, 160000);
}

#[test]
fn cluster_tests_test_zero_size_mask_does_not_panic() {
    let mask = Mask { width: 0, height: 0, bits: vec![] };
    let cfg = ClusterConfig::default();
    let dilated = dilate(&mask, 2);
    assert_eq!(dilated.width, 0);
    let clusters = find_clusters(&mask, &cfg);
    assert!(clusters.is_empty());
}

#[test]
fn clusters_come_in_row_major_order_of_their_boxes() {
    let mask = make_mask(12, 6, &[(9, 0), (10, 0), (1, 4), (2, 4), (5, 0)]);
    let cfg = ClusterConfig { dilate: 0, min_pixels: 1 };
    let clusters = find_clusters(&mask, &cfg);
    let boxes: Vec<Bbox> = clusters.iter().map(|c| c.bbox).collect();
    assert_eq!(
        boxes,
        vec![
            Bbox { x1: 5, y1: 0, x2: 6, y2: 1 },
            Bbox { x1: 9, y1: 0, x2: 11, y2: 1 },
            Bbox { x1: 1, y1: 4, x2: 3, y2: 5 },
        ]
    );
}

#[test]
fn diagonal_neighbours_join_one_cluster() {
    let mask = make_mask(5, 5, &[(0, 0), (1, 1), (2, 2), (4, 0)]);
    let cfg = ClusterConfig { dilate: 0, min_pixels: 2 };
    let clusters = find_clusters(&mask, &cfg);
    assert_eq!(clusters.len(), 1);
    assert_eq!(clusters[0].bbox, Bbox { x1: 0, y1: 0, x2: 3, y2: 3 });
    assert_eq!(clusters[0].pixels, 3);
}

#[test]
fn keep_band_rows_clears_rows_outside_the_bands() {
    let m = make_mask(3, 4, &[(0, 0), (1, 1), (2, 2), (0, 3)]);
    let bands = [Band { start: 1, end: 3 }];
    let kept = spryteo::sheet::textband::keep_band_rows(&m, &bands);
    assert_eq!(kept.bits, make_mask(3, 4, &[(1, 1), (2, 2)]).bits);
    assert_eq!((kept.width, kept.height), (3, 4));
}

#[test]
fn band_ink_counts_all_and_outside_column_bands() {
    // Rows 0..2: ink at x = 0, 2, 4 on row 0 and x = 4 on row 1; columns 0..3 are banded.
    let m = make_mask(5, 3, &[(0, 0), (2, 0), (4, 0), (4, 1), (1, 2)]);
    let cols = [Band { start: 0, end: 3 }];
    let band = Band { start: 0, end: 2 };
    assert_eq!(spryteo::sheet::textband::band_ink(&m, &band, &cols), (4, 2));
    assert_eq!(spryteo::sheet::textband::band_ink(&m, &Band { start: 2, end: 9 }, &cols), (1, 0));
}

#[test]
fn both_profiles_add_up_to_the_ink_count() {
    let mask = make_mask(4, 3, &[(0, 0), (1, 0), (2, 0), (3, 0), (0, 1), (1, 1)]);
    let x_sum: u32 = project(&mask, Axis::X).iter().sum();
    let y_sum: u32 = project(&mask, Axis::Y).iter().sum();
    assert_eq!(x_sum as usize, mask.count());
    assert_eq!(y_sum as usize, mask.count());
    assert_eq!(mask.count(), 6);
}

#[test]
fn overlap_area_counts_the_shared_pixels() {
    let boxes = [
        Bbox { x1: 10, y1: 10, x2: 20, y2: 20 },
        Bbox { x1: 15, y1: 15, x2: 25, y2: 25 },
        Bbox { x1: 20, y1: 10, x2: 30, y2: 20 },
        Bbox { x1: 12, y1: 0, x2: 14, y2: 40 },
    ];
    for a in &boxes {
        for b in &boxes {
            let mut shared = 0u64;
            for y in 0..40 {
                for x in 0..40 {
                    if a.contains_point(x, y) && b.contains_point(x, y) {
                        shared += 1;
                    }
                }
            }
            assert_eq!(a.intersection_area(b), shared);
            assert_eq!(b.intersection_area(a), shared);
            assert!(shared <= a.area() && shared <= b.area());
            assert_eq!(shared == 0, !a.intersects(b));
        }
    }
    assert_eq!(boxes[0].intersection_area(&boxes[1]), 25);
    assert_eq!(boxes[0].intersection_area(&boxes[2]), 0);
}
