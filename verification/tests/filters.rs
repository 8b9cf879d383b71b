use image_processor::filters::{blur, edge_detect, grayscale, sharpen};

#[test]
fn grayscale_two_by_two() {
    let mut data: Vec<u8> = vec![
        255, 0, 0, 255, // pure red
        0, 255, 0, 255, // pure green
        0, 0, 255, 255, // pure blue
        255, 255, 255, 255, // white
    ];
    grayscale(&mut data);
    assert_eq!(
        data,
        vec![76, 76, 76, 255, 149, 149, 149, 255, 29, 29, 29, 255, 255, 255, 255, 255]
    );
}

#[test]
fn blur_half_pixel_radius_is_identity() {
    // A radius of 0.50 pixels gives a single-tap kernel.
    let original: Vec<u8> = vec![10, 20, 30, 40, 200, 100, 50, 255];
    let mut data = original.clone();
    blur(&mut data, 2, 1, 50);
    assert_eq!(data, original);
}

#[test]
fn blur_uniform_exact_values() {
    // 3x3 uniform gray at radius 1.00: the kernel is [11113, 1000000, 11113]
    // over 1022226, so the interior pixel is exactly unchanged while edge
    // pixels lose the weight of their skipped taps.
    let mut data: Vec<u8> = vec![200; 36];
    for p in 0..9 {
        data[4 * p + 3] = 7;
    }
    blur(&mut data, 3, 3, 100);
    let expect_rgb = [194, 197, 194, 197, 200, 197, 194, 197, 194];
    for p in 0..9 {
        for c in 0..3 {
            assert_eq!(data[4 * p + c], expect_rgb[p]);
        }
        assert_eq!(data[4 * p + 3], 7);
    }
}

#[test]
fn sharpen_one_pixel_exact() {
    // Blurring a lone pixel at radius 1.00 keeps only the center tap:
    // 100 -> 97 -> 94, so unsharp masking at strength 1.00 yields
    // 100 + (100 - 94) * 1 = 106.
    let mut data: Vec<u8> = vec![100, 100, 100, 255];
    sharpen(&mut data, 1, 1, 100);
    assert_eq!(data, vec![106, 106, 106, 255]);
}

#[test]
fn sharpen_zero_amount_is_identity() {
    let original: Vec<u8> = vec![10, 20, 30, 40, 200, 100, 50, 255];
    let mut data = original.clone();
    sharpen(&mut data, 2, 1, 0);
    assert_eq!(data, original);
}

#[test]
fn edge_detect_vertical_step() {
    // Two black columns and one white column: the center sees a pure
    // horizontal gradient of magnitude 4 * 255 * 1000 / 8000 = 127.5.
    let mut data: Vec<u8> = vec![0; 36];
    for p in 0..9 {
        data[4 * p + 3] = 255;
        if p % 3 == 2 {
            data[4 * p] = 255;
            data[4 * p + 1] = 255;
            data[4 * p + 2] = 255;
        }
    }
    edge_detect(&mut data, 3, 3);
    for p in 0..9 {
        if p == 4 {
            assert_eq!(&data[16..20], &[127, 127, 127, 255]);
        } else {
            assert_eq!(&data[4 * p..4 * p + 4], &[0, 0, 0, 0]);
        }
    }
}

#[test]
fn edge_detect_uniform_is_flat() {
    let mut data: Vec<u8> = vec![255; 36];
    edge_detect(&mut data, 3, 3);
    assert_eq!(&data[16..20], &[0, 0, 0, 255]);
}
