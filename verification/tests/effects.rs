use image_processor::effects::{brightness, contrast, invert, sepia};

#[test]
fn invert_round_trip() {
    let original: Vec<u8> = vec![10, 20, 30, 40, 200, 100, 50, 255];
    let mut data = original.clone();
    invert(&mut data);
    assert_eq!(data, vec![245, 235, 225, 40, 55, 155, 205, 255]);
    invert(&mut data);
    assert_eq!(data, original);
}

#[test]
fn brightness_full_negative_forces_black() {
    let mut data: Vec<u8> = vec![255, 128, 1, 77, 13, 200, 255, 255];
    brightness(&mut data, -100);
    assert_eq!(data, vec![0, 0, 0, 77, 0, 0, 0, 255]);
}

#[test]
fn brightness_exact_values() {
    // +10 percent adds 25.5 before truncation; -10 percent subtracts it.
    let mut up: Vec<u8> = vec![100, 0, 250, 9];
    brightness(&mut up, 10);
    assert_eq!(up, vec![125, 25, 255, 9]);
    let mut down: Vec<u8> = vec![100, 25, 0, 9];
    brightness(&mut down, -10);
    assert_eq!(down, vec![74, 0, 0, 9]);
}

#[test]
fn contrast_zero_is_identity() {
    let original: Vec<u8> = vec![0, 1, 254, 255, 13, 128, 200, 5];
    let mut data = original.clone();
    contrast(&mut data, 0);
    assert_eq!(data, original);
}

#[test]
fn contrast_full_negative_flattens_to_gray() {
    let mut data: Vec<u8> = vec![0, 255, 13, 90, 200, 1, 128, 255];
    contrast(&mut data, -100);
    assert_eq!(data, vec![128, 128, 128, 90, 128, 128, 128, 255]);
}

#[test]
fn contrast_full_positive_stretches() {
    let mut data: Vec<u8> = vec![64, 128, 192, 255];
    contrast(&mut data, 100);
    assert_eq!(data, vec![0, 128, 255, 255]);
}

#[test]
fn sepia_exact_values() {
    let mut data: Vec<u8> = vec![100, 50, 25, 11];
    sepia(&mut data);
    assert_eq!(data, vec![82, 73, 57, 11]);
}

#[test]
fn sepia_clamps_saturated_white() {
    let mut data: Vec<u8> = vec![255, 255, 255, 255];
    sepia(&mut data);
    assert_eq!(data, vec![255, 255, 238, 255]);
}
