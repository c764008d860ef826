use gd_image_to_text::buffer::PixelBuffer;
use gd_image_to_text::encode::encode;

fn rgb_buf(width: usize, height: usize, pixels: &[(u8, u8, u8)]) -> PixelBuffer {
    assert_eq!(pixels.len(), width * height);
    let mut data = Vec::new();
    for &(r, g, b) in pixels {
        data.push(r);
        data.push(g);
        data.push(b);
    }
    PixelBuffer::from_raw(width, height, data).unwrap()
}

#[test]
fn encode_all_white_2x2_grayscale() {
    // every average is 255, the top palette level, glyph "O"; "O" is
    // full-width, so no padding is needed
    let buf = rgb_buf(2, 2, &[(255, 255, 255); 4]);
    let layers = encode(&buf, true);
    assert_eq!(layers.len(), 1);
    assert_eq!(layers[0], "OO\nOO");
}

#[test]
fn encode_black_1x1_colour() {
    // all three channels are the blank level: each layer's single row trims
    // to the blank placeholder (half a cell), and the first row is then
    // padded with one more blank up to the image width of one cell
    let buf = rgb_buf(1, 1, &[(0, 0, 0)]);
    let layers = encode(&buf, false);
    assert_eq!(layers.len(), 3);
    for layer in &layers {
        assert_eq!(layer, "  ");
    }
}

#[test]
fn encode_row_count_kept_for_blank_rows() {
    // three all-blank rows: each keeps its placeholder, so the layer still
    // has exactly three line-break-separated rows
    let buf = rgb_buf(1, 3, &[(0, 0, 0); 3]);
    let layers = encode(&buf, true);
    assert_eq!(layers.len(), 1);
    assert_eq!(layers[0], "  \n \n ");
    assert_eq!(layers[0].split('\n').count(), 3);
}

#[test]
fn encode_trims_and_pads_first_row() {
    // a white then a black pixel: the row trims to "O" (one cell), which is
    // narrower than the image width of two, so the first row is padded at
    // its start with two half-width blanks
    let buf = rgb_buf(2, 1, &[(255, 255, 255), (0, 0, 0)]);
    let layers = encode(&buf, false);
    assert_eq!(layers.len(), 3);
    for layer in &layers {
        assert_eq!(layer, "  O");
    }
}

#[test]
fn encode_no_padding_when_some_row_is_full() {
    // the first row reaches the full width, so nothing is padded even
    // though the second row trims to its placeholder
    let buf = rgb_buf(1, 2, &[(255, 255, 255), (0, 0, 0)]);
    let layers = encode(&buf, false);
    for layer in &layers {
        assert_eq!(layer, "O\n ");
    }
}

#[test]
fn encode_colour_layers_differ_per_channel() {
    // a pure-red pixel: the red layer shows the bright glyph, green and
    // blue trim to the padded blank
    let buf = rgb_buf(1, 1, &[(255, 0, 0)]);
    let layers = encode(&buf, false);
    assert_eq!(layers[0], "O");
    assert_eq!(layers[1], "  ");
    assert_eq!(layers[2], "  ");
}

#[test]
fn encode_half_width_glyphs() {
    // level 48 renders as ".."; two of them span two cells, the full image
    // width, so no padding is added
    let buf = rgb_buf(2, 1, &[(48, 48, 48), (48, 48, 48)]);
    let layers = encode(&buf, false);
    for layer in &layers {
        assert_eq!(layer, "....");
    }
}

#[test]
fn encode_grayscale_averages_channels() {
    // (255, 209, 63) averages to 175, whose nearest level is 209, glyph "o"
    let buf = rgb_buf(1, 1, &[(255, 209, 63)]);
    let layers = encode(&buf, true);
    assert_eq!(layers.len(), 1);
    assert_eq!(layers[0], "o");
}
