use gd_image_to_text::buffer::PixelBuffer;
use gd_image_to_text::dither::dither;

fn gray_buf(width: usize, height: usize, values: &[u8]) -> PixelBuffer {
    assert_eq!(values.len(), width * height);
    let mut data = Vec::new();
    for &v in values {
        data.push(v);
        data.push(v);
        data.push(v);
    }
    PixelBuffer::from_raw(width, height, data).unwrap()
}

fn gray_values(buf: &PixelBuffer) -> Vec<u8> {
    let mut out = Vec::new();
    let mut i = 0;
    while i < buf.data.len() {
        assert_eq!(buf.data[i], buf.data[i + 1]);
        assert_eq!(buf.data[i], buf.data[i + 2]);
        out.push(buf.data[i]);
        i += 3;
    }
    out
}

#[test]
fn dither_leaves_palette_levels_alone() {
    let mut buf = gray_buf(2, 2, &[255, 255, 255, 255]);
    dither(&mut buf);
    assert_eq!(gray_values(&buf), vec![255, 255, 255, 255]);
}

#[test]
fn dither_quantizes_single_pixel() {
    // no neighbours: the error is entirely lost
    let mut buf = gray_buf(1, 1, &[100]);
    dither(&mut buf);
    assert_eq!(gray_values(&buf), vec![63]);
}

#[test]
fn dither_diffuses_error_to_the_right() {
    // 240 snaps to 255 with error -15; the right neighbour 58 becomes
    // floor((16 * 58 - 15 * 7) / 16) = 51, which snaps to 48 instead of
    // the 63 it would reach undithered
    let mut buf = gray_buf(2, 1, &[240, 58]);
    dither(&mut buf);
    assert_eq!(gray_values(&buf), vec![255, 48]);
}

#[test]
fn dither_weights_and_boundary_skips() {
    // one bright pixel in the top-left corner of a black 2x2 image: the
    // below-left share is skipped at x == 0, the three remaining
    // neighbours receive floor(err * weight / 16) and all of it then
    // quantizes back to black
    let mut buf = gray_buf(2, 2, &[100, 0, 0, 0]);
    dither(&mut buf);
    assert_eq!(gray_values(&buf), vec![63, 0, 0, 0]);
}

#[test]
fn dither_output_is_always_on_palette() {
    let values: Vec<u8> = (0..64u16).map(|i| (i * 4) as u8).collect();
    let mut buf = gray_buf(8, 8, &values);
    dither(&mut buf);
    for v in gray_values(&buf) {
        assert!([255u8, 209, 63, 48, 0].contains(&v));
    }
}
