use ttwm::render::{fit_text, generate_default_icon, glyph_channel, lighten_color, screenshot_rgba, CachedIcon, TextFit};

#[test]
fn test_lighten_color() {
    // Test basic lightening
    assert_eq!(lighten_color(0x000000, 0x20), 0x202020);
    // Test clamping at 255
    assert_eq!(lighten_color(0xFFFFFF, 0x20), 0xFFFFFF);
    assert_eq!(lighten_color(0xF0F0F0, 0x20), 0xFFFFFF);
}

#[test]
fn lighten_color_per_channel_and_drops_high_byte() {
    assert_eq!(lighten_color(0x10E0F8, 0x10), 0x20F0FF);
    assert_eq!(lighten_color(0xAB123456, 0), 0x123456);
    assert_eq!(lighten_color(0x5294e2, 0), 0x5294e2);
}

#[test]
fn default_icon_layout() {
    let px = generate_default_icon();
    assert_eq!(px.len(), 20 * 20 * 4);
    let at = |x: usize, y: usize| {
        let i = (y * 20 + x) * 4;
        [px[i], px[i + 1], px[i + 2], px[i + 3]]
    };
    assert_eq!(at(0, 0), [0, 0, 0, 0]);
    assert_eq!(at(19, 10), [0, 0, 0, 0]);
    assert_eq!(at(2, 10), [0x88, 0x88, 0x88, 0xFF]);
    assert_eq!(at(10, 17), [0x88, 0x88, 0x88, 0xFF]);
    assert_eq!(at(10, 4), [0xAA, 0xAA, 0xAA, 0xFF]);
    assert_eq!(at(10, 10), [0x3A, 0x3A, 0x3A, 0xFF]);
    let icon = CachedIcon::default_icon();
    assert_eq!(icon.pixels, px);
}

#[test]
fn glyph_coverage_mixes_colours() {
    assert_eq!(glyph_channel(200, 100, 255), 200);
    assert_eq!(glyph_channel(200, 100, 0), 100);
    assert_eq!(glyph_channel(255, 0, 128), 128);
    assert_eq!(glyph_channel(0, 255, 51), 204);
}

#[test]
fn titles_are_cut_to_fit() {
    let widths = [10, 10, 10, 10];
    assert_eq!(fit_text(&widths, 40, 9, 40), TextFit::Whole);
    assert_eq!(fit_text(&widths, 40, 9, 30), TextFit::Prefix(2));
    assert_eq!(fit_text(&widths, 40, 9, 29), TextFit::Prefix(2));
    assert_eq!(fit_text(&widths, 40, 9, 28), TextFit::Prefix(1));
    assert_eq!(fit_text(&widths, 40, 30, 30), TextFit::Nothing);
    assert_eq!(fit_text(&[], 0, 9, 30), TextFit::Nothing);
    assert_eq!(fit_text(&widths, 40, 9, 0), TextFit::Nothing);
}

#[test]
fn screenshots_convert_bgr_to_rgba() {
    let data = [1, 2, 3, 4, 5, 6, 7, 8];
    assert_eq!(screenshot_rgba(&data, 2, 1, 32), Some(vec![3, 2, 1, 4, 7, 6, 5, 8]));
    assert_eq!(screenshot_rgba(&data, 2, 1, 24), Some(vec![3, 2, 1, 255, 6, 5, 4, 255]));
    assert_eq!(screenshot_rgba(&data[..5], 2, 1, 32), Some(vec![3, 2, 1, 4, 0, 0, 0, 0]));
    assert_eq!(screenshot_rgba(&data, 2, 1, 16), None);
}
