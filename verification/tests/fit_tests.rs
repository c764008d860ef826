use gd_image_to_text::buffer::PixelBuffer;
use gd_image_to_text::fit::{fit, initial_resolution, FitError};

fn white_buf(width: usize, height: usize) -> PixelBuffer {
    PixelBuffer::from_raw(width, height, vec![255u8; 3 * width * height]).unwrap()
}

#[test]
fn initial_resolution_default_halves_height() {
    assert_eq!(initial_resolution(10, 9, None), (10, 4));
    assert_eq!(initial_resolution(3, 1, None), (3, 0));
}

#[test]
fn initial_resolution_override_is_kept() {
    assert_eq!(initial_resolution(10, 9, Some((3, 5))), (3, 5));
}

#[test]
fn fit_accepts_when_under_capacity() {
    let src = white_buf(2, 2);
    let out = fit(&src, 2, 2, true, 1000).unwrap();
    assert_eq!((out.width, out.height), (2, 2));
    assert_eq!(out.layers.len(), 1);
    assert_eq!(out.layers[0], "OO\nOO");
}

#[test]
fn fit_colour_produces_three_layers() {
    let src = white_buf(2, 2);
    let out = fit(&src, 2, 2, false, 1000).unwrap();
    assert_eq!(out.layers.len(), 3);
    for layer in &out.layers {
        assert_eq!(layer, "OO\nOO");
    }
}

#[test]
fn fit_shrinks_until_it_fits() {
    // at 4x4 the layer is 4 rows of "OOOO" plus 3 breaks: 19 characters,
    // over the capacity of 5; the shrink factor sqrt(5/19) cuts both
    // dimensions to floor(sqrt(16 * 5 / 19)) = 2, and "OO\nOO" (5
    // characters) is accepted
    let src = white_buf(4, 4);
    let out = fit(&src, 4, 4, true, 5).unwrap();
    assert_eq!((out.width, out.height), (2, 2));
    assert_eq!(out.layers[0], "OO\nOO");
}

#[test]
fn fit_rejects_zero_initial_dimension() {
    let src = white_buf(2, 2);
    assert_eq!(fit(&src, 0, 2, true, 1000).unwrap_err(), FitError::Unfittable);
}

#[test]
fn fit_fails_when_nothing_can_fit() {
    // even a single glyph is over a capacity of zero, so the resolution
    // collapses to zero and the image is reported unfittable
    let src = white_buf(1, 1);
    assert_eq!(fit(&src, 1, 1, true, 0).unwrap_err(), FitError::Unfittable);
}

#[test]
fn buffer_from_raw_checks_length() {
    assert!(PixelBuffer::from_raw(2, 2, vec![0u8; 12]).is_some());
    assert!(PixelBuffer::from_raw(2, 2, vec![0u8; 11]).is_none());
}
