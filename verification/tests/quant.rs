use spryteo::quant::neighbours::neighbour_colours;
use spryteo::quant::{
    apply_stacked_layering, count_unique_rgb, has_any_alpha, has_flat_alpha_fills, remove_background_layer,
    unique_rgb_up_to, Background, Layer, LayerStack, SeededRng,
};
use spryteo::quant::layers::{exact_masks, stack_by_first_appearance};
use spryteo::quant::count_rgb_at_least;
use spryteo::{RasterImage, Rgb};

fn row(pixels: Vec<u8>) -> RasterImage {
    RasterImage { width: (pixels.len() / 4) as u32, height: 1, pixels }
}

#[test]
fn seeded_rng_is_xorshift_star() {
    let mut a = SeededRng::new(0);
    let mut b = SeededRng::new(1);
    assert_eq!(a.state, 33554433);
    assert_eq!(a.next_u64(), b.next_u64());
    let mut c = SeededRng::new(42);
    let first = c.next_u64();
    let mut d = SeededRng::new(42);
    assert_eq!(d.next_u64(), first);
}

#[test]
fn alpha_detection() {
    assert!(!has_any_alpha(&row(vec![1, 2, 3, 255, 4, 5, 6, 255])));
    assert!(has_any_alpha(&row(vec![1, 2, 3, 255, 4, 5, 6, 0])));
}

#[test]
fn unique_colours_are_counted() {
    let img = row(vec![1, 2, 3, 255, 1, 2, 3, 0, 9, 9, 9, 255, 1, 2, 4, 255]);
    assert_eq!(count_unique_rgb(&img), 3);
}

#[test]
fn flat_alpha_fills_allow_two_partial_levels() {
    assert!(has_flat_alpha_fills(&row(vec![0, 0, 0, 0, 0, 0, 0, 128, 0, 0, 0, 64, 0, 0, 0, 255])));
    assert!(!has_flat_alpha_fills(&row(vec![0, 0, 0, 1, 0, 0, 0, 2, 0, 0, 0, 3])));
    assert!(!has_flat_alpha_fills(&row(vec![0, 0, 0, 255])));
}

#[test]
fn unique_rgb_up_to_stops_past_the_cap() {
    let red = Rgb { r: 255, g: 0, b: 0 };
    let blue = Rgb { r: 0, g: 0, b: 255 };
    let green = Rgb { r: 0, g: 255, b: 0 };
    let data = vec![red, blue, red, green];
    assert_eq!(unique_rgb_up_to(&data, 3), Some(vec![red, blue, green]));
    assert_eq!(unique_rgb_up_to(&data, 2), None);
    assert_eq!(unique_rgb_up_to(&[], 0), Some(vec![]));
}

#[test]
fn stacked_layering_unions_the_layers_above() {
    let c = Rgb { r: 1, g: 1, b: 1 };
    let mut stack = LayerStack {
        layers: vec![
            Layer { mask: vec![255, 0, 0], color: c, z_order: 0 },
            Layer { mask: vec![0, 255, 0], color: c, z_order: 1 },
            Layer { mask: vec![0, 0, 128], color: c, z_order: 2 },
        ],
    };
    apply_stacked_layering(&mut stack);
    assert_eq!(stack.layers[0].mask, vec![255, 255, 128]);
    assert_eq!(stack.layers[1].mask, vec![0, 255, 128]);
    assert_eq!(stack.layers[2].mask, vec![0, 0, 128]);
    assert_eq!(stack.layers[1].z_order, 1);
}

#[test]
fn exact_masks_mark_visible_pixels_of_each_colour() {
    let red = Rgb { r: 255, g: 0, b: 0 };
    let blue = Rgb { r: 0, g: 0, b: 255 };
    let px = vec![255, 0, 0, 255, 0, 0, 255, 255, 255, 0, 0, 0, 9, 9, 9, 255];
    let masks = exact_masks(&px, 4, &[red, blue]);
    assert_eq!(masks, vec![vec![255, 0, 0, 0], vec![0, 255, 0, 0]]);
}

#[test]
fn exact_masks_give_a_repeated_colour_to_its_first_entry() {
    let red = Rgb { r: 255, g: 0, b: 0 };
    let masks = exact_masks(&[255, 0, 0, 10], 1, &[red, red]);
    assert_eq!(masks, vec![vec![255], vec![0]]);
}

#[test]
fn layers_stack_in_order_of_first_appearance() {
    let a = Rgb { r: 1, g: 1, b: 1 };
    let b = Rgb { r: 2, g: 2, b: 2 };
    let c = Rgb { r: 3, g: 3, b: 3 };
    let masks = vec![vec![0, 0, 255], vec![255, 0, 0], vec![0, 0, 0], vec![0, 0, 255]];
    let colors = vec![a, b, c, a];
    let stack = stack_by_first_appearance(&masks, &colors);
    let order: Vec<(Vec<u8>, Rgb, usize)> =
        stack.layers.iter().map(|l| (l.mask.clone(), l.color, l.z_order)).collect();
    assert_eq!(
        order,
        vec![
            (vec![255, 0, 0], b, 0),
            (vec![0, 0, 255], a, 1),
            (vec![0, 0, 255], a, 2),
            (vec![0, 0, 0], c, 3),
        ]
    );
}

#[test]
fn frequent_colours_are_counted_once() {
    let img = row(vec![1, 1, 1, 255, 1, 1, 1, 255, 2, 2, 2, 255, 1, 1, 1, 0, 3, 3, 3, 255]);
    assert_eq!(count_rgb_at_least(&img, 0), 3);
    assert_eq!(count_rgb_at_least(&img, 1), 3);
    assert_eq!(count_rgb_at_least(&img, 2), 1);
    assert_eq!(count_rgb_at_least(&img, 4), 0);
}

#[test]
fn neighbour_colours_are_distinct_and_skip_the_centre() {
    // 3x3 image: centre red, a blue row on top, red and green around.
    let red = [255u8, 0, 0, 255];
    let blue = [0u8, 0, 255, 255];
    let green = [0u8, 255, 0, 255];
    let rows = [[blue, blue, blue], [red, red, green], [green, red, blue]];
    let mut pixels = Vec::new();
    for row in rows.iter() {
        for px in row.iter() {
            pixels.extend_from_slice(px);
        }
    }
    let image = spryteo::RasterImage { width: 3, height: 3, pixels };
    let cs = neighbour_colours(&image, 1, 1);
    assert_eq!(
        cs,
        vec![
            spryteo::Rgb { r: 0, g: 0, b: 255 },
            spryteo::Rgb { r: 0, g: 255, b: 0 },
        ]
    );
    // A corner pixel sees only its three in-image neighbours.
    let corner = neighbour_colours(&image, 0, 0);
    assert_eq!(corner, vec![spryteo::Rgb { r: 255, g: 0, b: 0 }]);
}

fn three_layers() -> LayerStack {
    let colours = [Rgb { r: 255, g: 255, b: 255 }, Rgb { r: 200, g: 0, b: 0 }, Rgb { r: 0, g: 0, b: 0 }];
    LayerStack {
        layers: colours
            .iter()
            .enumerate()
            .map(|(i, c)| Layer { mask: vec![i as u8], color: *c, z_order: i })
            .collect(),
    }
}

#[test]
fn background_rect_removes_the_layer_and_reports_the_colour() {
    let white = Rgb { r: 255, g: 255, b: 255 };
    let mut stack = three_layers();
    assert_eq!(remove_background_layer(&mut stack, Some(white), Some(0), Background::Rect), Some(white));
    let orders: Vec<usize> = stack.layers.iter().map(|l| l.z_order).collect();
    assert_eq!(orders, vec![1, 2]);
}

#[test]
fn background_drop_removes_the_layer_silently() {
    let white = Rgb { r: 255, g: 255, b: 255 };
    let mut stack = three_layers();
    assert_eq!(remove_background_layer(&mut stack, Some(white), Some(1), Background::Drop), None);
    let orders: Vec<usize> = stack.layers.iter().map(|l| l.z_order).collect();
    assert_eq!(orders, vec![0, 2]);
}

#[test]
fn background_keep_or_no_match_changes_nothing() {
    let white = Rgb { r: 255, g: 255, b: 255 };
    let mut stack = three_layers();
    assert_eq!(remove_background_layer(&mut stack, Some(white), Some(0), Background::Keep), None);
    assert_eq!(remove_background_layer(&mut stack, None, Some(0), Background::Rect), None);
    assert_eq!(remove_background_layer(&mut stack, Some(white), None, Background::Rect), None);
    assert_eq!(stack.layers.len(), 3);
}
