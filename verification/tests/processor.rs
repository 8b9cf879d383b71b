use image_processor::{ImageError, ImageProcessor};

#[test]
fn construction_rejects_size_mismatch() {
    let data: Vec<u8> = vec![0; 15];
    let r = ImageProcessor::new(data, 2, 2);
    assert_eq!(r.err(), Some(ImageError::SizeMismatch));
}

#[test]
fn construction_and_getters() {
    let data: Vec<u8> = vec![1, 2, 3, 4, 5, 6, 7, 8];
    let p = ImageProcessor::new(data.clone(), 2, 1).unwrap();
    assert_eq!(p.width(), 2);
    assert_eq!(p.height(), 1);
    assert_eq!(p.get_data(), data);
}

#[test]
fn blur_radius_out_of_range() {
    let data: Vec<u8> = vec![9; 16];
    let mut p = ImageProcessor::new(data.clone(), 2, 2).unwrap();
    assert_eq!(p.blur(0).err(), Some(ImageError::ParameterOutOfRange));
    assert_eq!(p.blur(5001).err(), Some(ImageError::ParameterOutOfRange));
    assert_eq!(p.get_data(), data);
    assert!(p.blur(5000).is_ok());
}

#[test]
fn sharpen_amount_out_of_range() {
    let data: Vec<u8> = vec![9; 16];
    let mut p = ImageProcessor::new(data.clone(), 2, 2).unwrap();
    assert_eq!(p.sharpen(501).err(), Some(ImageError::ParameterOutOfRange));
    assert_eq!(p.get_data(), data);
    assert!(p.sharpen(500).is_ok());
}

#[test]
fn brightness_amount_out_of_range() {
    let data: Vec<u8> = vec![9; 16];
    let mut p = ImageProcessor::new(data.clone(), 2, 2).unwrap();
    assert_eq!(p.brightness(101).err(), Some(ImageError::ParameterOutOfRange));
    assert_eq!(p.brightness(-101).err(), Some(ImageError::ParameterOutOfRange));
    assert_eq!(p.get_data(), data);
    assert!(p.brightness(100).is_ok());
}

#[test]
fn contrast_amount_out_of_range() {
    let data: Vec<u8> = vec![9; 16];
    let mut p = ImageProcessor::new(data.clone(), 2, 2).unwrap();
    assert_eq!(p.contrast(101).err(), Some(ImageError::ParameterOutOfRange));
    assert_eq!(p.contrast(-101).err(), Some(ImageError::ParameterOutOfRange));
    assert_eq!(p.get_data(), data);
}

#[test]
fn resize_rejects_zero_dimension() {
    let data: Vec<u8> = vec![9; 16];
    let mut p = ImageProcessor::new(data.clone(), 2, 2).unwrap();
    assert_eq!(p.resize(0, 1).err(), Some(ImageError::ParameterOutOfRange));
    assert_eq!(p.resize(1, 0).err(), Some(ImageError::ParameterOutOfRange));
    assert_eq!(p.width(), 2);
    assert_eq!(p.height(), 2);
    assert_eq!(p.get_data(), data);
}

#[test]
fn resize_and_rotate_update_geometry() {
    let data: Vec<u8> = vec![9; 24];
    let mut p = ImageProcessor::new(data, 2, 3).unwrap();
    p.rotate_90().unwrap();
    assert_eq!(p.width(), 3);
    assert_eq!(p.height(), 2);
    p.resize(4, 5).unwrap();
    assert_eq!(p.width(), 4);
    assert_eq!(p.height(), 5);
    assert_eq!(p.get_data().len(), 80);
}

#[test]
fn alpha_preserved_by_color_and_filter_operators() {
    let base: Vec<u8> = vec![
        255, 0, 0, 10, 0, 255, 0, 20, 0, 0, 255, 30, 77, 88, 99, 40,
    ];
    let alphas = |d: &Vec<u8>| -> Vec<u8> { d.iter().skip(3).step_by(4).cloned().collect() };
    let expected = vec![10, 20, 30, 40];

    let mut p = ImageProcessor::new(base.clone(), 2, 2).unwrap();
    p.grayscale().unwrap();
    assert_eq!(alphas(&p.get_data()), expected);
    p.sepia().unwrap();
    assert_eq!(alphas(&p.get_data()), expected);
    p.invert().unwrap();
    assert_eq!(alphas(&p.get_data()), expected);
    p.brightness(30).unwrap();
    assert_eq!(alphas(&p.get_data()), expected);
    p.contrast(-30).unwrap();
    assert_eq!(alphas(&p.get_data()), expected);
    p.blur(250).unwrap();
    assert_eq!(alphas(&p.get_data()), expected);
    p.sharpen(300).unwrap();
    assert_eq!(alphas(&p.get_data()), expected);
}

#[test]
fn edge_detect_preserves_interior_alpha() {
    let mut data: Vec<u8> = vec![50; 36];
    for p in 0..9 {
        data[4 * p + 3] = 100 + p as u8;
    }
    let mut proc9 = ImageProcessor::new(data, 3, 3).unwrap();
    proc9.edge_detect().unwrap();
    let out = proc9.get_data();
    // the lone interior pixel keeps its alpha; borders are left all-zero
    assert_eq!(out[4 * 4 + 3], 104);
    assert_eq!(out[3], 0);
}

#[test]
fn flip_operators_round_trip_through_facade() {
    let base: Vec<u8> = (0u8..24).collect();
    let mut p = ImageProcessor::new(base.clone(), 3, 2).unwrap();
    p.flip_horizontal().unwrap();
    p.flip_horizontal().unwrap();
    p.flip_vertical().unwrap();
    p.flip_vertical().unwrap();
    assert_eq!(p.get_data(), base);
}
