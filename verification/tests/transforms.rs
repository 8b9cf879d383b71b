use image_processor::transforms::{flip_horizontal, flip_vertical, resize, rotate};

fn px(v: u8) -> [u8; 4] {
    [v, v + 1, v + 2, v + 3]
}

fn image(vals: &[u8]) -> Vec<u8> {
    let mut data = Vec::new();
    for &v in vals {
        data.extend_from_slice(&px(v));
    }
    data
}

#[test]
fn flip_horizontal_round_trip_odd_width() {
    let original = image(&[10, 20, 30, 40, 50, 60]);
    let mut data = original.clone();
    flip_horizontal(&mut data, 3, 2);
    assert_eq!(data, image(&[30, 20, 10, 60, 50, 40]));
    flip_horizontal(&mut data, 3, 2);
    assert_eq!(data, original);
}

#[test]
fn flip_vertical_round_trip_odd_height() {
    let original = image(&[10, 20, 30, 40, 50, 60]);
    let mut data = original.clone();
    flip_vertical(&mut data, 2, 3);
    assert_eq!(data, image(&[50, 60, 30, 40, 10, 20]));
    flip_vertical(&mut data, 2, 3);
    assert_eq!(data, original);
}

#[test]
fn rotate_exact_mapping() {
    // 2x3 source: rows AB / CD / EF become rows ECA / FDB when the first
    // column, read bottom-up, turns into the first row.
    let data = image(&[10, 20, 30, 40, 50, 60]);
    let rotated = rotate(&data, 2, 3);
    assert_eq!(rotated, image(&[50, 30, 10, 60, 40, 20]));
}

#[test]
fn rotate_four_times_restores() {
    let original = image(&[10, 20, 30, 40, 50, 60]);
    let r1 = rotate(&original, 2, 3);
    let r2 = rotate(&r1, 3, 2);
    let r3 = rotate(&r2, 2, 3);
    let r4 = rotate(&r3, 3, 2);
    assert_eq!(r4, original);
}

#[test]
fn resize_same_dimensions_is_identity() {
    let original = image(&[10, 20, 30, 40, 50, 60]);
    let out = resize(&original, 3, 2, 3, 2);
    assert_eq!(out, original);
}

#[test]
fn resize_checkerboard_picks_top_left() {
    // 4x4 checkerboard of A and B: halving picks the top-left sample of
    // every 2x2 block, which is always A.
    let mut vals = Vec::new();
    for y in 0..4u8 {
        for x in 0..4u8 {
            vals.push(if (x + y) % 2 == 0 { 100 } else { 200 });
        }
    }
    let data = image(&vals);
    let out = resize(&data, 4, 4, 2, 2);
    assert_eq!(out, image(&[100, 100, 100, 100]));
}

#[test]
fn resize_upsample_repeats_nearest() {
    let data = image(&[10]);
    let out = resize(&data, 1, 1, 2, 2);
    assert_eq!(out, image(&[10, 10, 10, 10]));
}
