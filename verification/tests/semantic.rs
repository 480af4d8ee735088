use spryteo::semantic::{mask_overlap, Mask, SamError};

#[test]
fn overlap_counts_foreground_in_both_and_either() {
    let a = [255u8, 0, 200, 10];
    let b = [255u8, 255, 0, 0];
    assert_eq!(mask_overlap(&a, &b), (1, 3));
    assert_eq!(mask_overlap(&a, &a), (2, 2));
    assert_eq!(mask_overlap(&[], &b), (0, 0));
}

#[test]
fn overlap_uses_the_common_length() {
    assert_eq!(mask_overlap(&[200, 200, 200], &[200]), (1, 1));
    assert_eq!(mask_overlap(&[127], &[128]), (0, 1));
}

#[test]
fn masks_and_errors_are_plain_values() {
    let m = Mask { id: String::from("m0"), width: 2, height: 1, pixels: vec![0, 255] };
    assert_eq!(m.clone().pixels, vec![0, 255]);
    assert_eq!(SamError::Shape(String::from("x")), SamError::Shape(String::from("x")));
    assert_ne!(SamError::Inference(String::from("x")), SamError::ModelLoad(String::from("x")));
}
