use gd_image_to_text::palette::nearest_level;

const LEVELS: [u8; 5] = [255, 209, 63, 48, 0];

#[test]
fn palette_total_all_values() {
    for v in 0..=255u16 {
        let r = nearest_level(v as u8);
        assert!(LEVELS.contains(&r), "value {} mapped outside the palette", v);
        assert_eq!(r, nearest_level(v as u8));
    }
}

#[test]
fn palette_nearest_concrete() {
    assert_eq!(nearest_level(255), 255);
    assert_eq!(nearest_level(0), 0);
    assert_eq!(nearest_level(209), 209);
    assert_eq!(nearest_level(63), 63);
    assert_eq!(nearest_level(48), 48);
    assert_eq!(nearest_level(100), 63);
    assert_eq!(nearest_level(150), 209);
    assert_eq!(nearest_level(56), 63);
    assert_eq!(nearest_level(55), 48);
}

#[test]
fn palette_ties_go_to_earlier_entry() {
    // midpoints: equidistant values take the brighter entry, which the
    // palette lists first
    assert_eq!(nearest_level(232), 255);
    assert_eq!(nearest_level(136), 209);
    assert_eq!(nearest_level(24), 48);
}
