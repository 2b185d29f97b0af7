use argon40::oled::{
    Align, DrawMode, Framebuffer, OledError, BUFFER_SIZE, FONT_CHARACTERS, HEIGHT, WIDTH,
};

#[test]
fn pixels_use_legacy_page_layout() {
    let mut fb = Framebuffer::new();
    fb.set_pixel(3, 9, true, DrawMode::Replace);
    assert_eq!(fb.bytes()[WIDTH + 3], 0b0000_0010);
    assert_eq!(fb.pixel(3, 9), Some(true));
    fb.set_pixel(3, 9, false, DrawMode::Replace);
    assert_eq!(fb.pixel(3, 9), Some(false));
    assert_eq!(fb.pixel(WIDTH, 0), None);
}

#[test]
fn rectangle_clips_to_screen() {
    let mut fb = Framebuffer::new();
    fb.filled_rectangle(126, 62, 8, 8, DrawMode::Replace);
    assert_eq!(
        fb.bytes().iter().map(|value| value.count_ones()).sum::<u32>(),
        4
    );
}

#[test]
fn text_and_alignment_use_binary_font_layout() {
    let mut font = vec![0_u8; FONT_CHARACTERS * 6];
    font[b'A' as usize * 6] = 0x80;
    let mut fb = Framebuffer::new();
    fb.write_text_aligned("A", 0, 0, 10, Align::Right, 6, &font, DrawMode::Replace)
        .unwrap();
    assert_eq!(fb.pixel(4, 0), Some(true));
}

#[test]
fn background_is_truncated_or_zero_padded() {
    let mut fb = Framebuffer::new();
    fb.clear(true);
    fb.load_background(&[1, 2, 3]);
    assert_eq!(&fb.bytes()[..4], &[1, 2, 3, 0]);
    fb.load_background(&[9; 2000]);
    assert_eq!(fb.bytes(), &[9; BUFFER_SIZE]);
}

#[test]
fn other_pixels_stay_as_they_are() {
    let mut fb = Framebuffer::new();
    fb.set_pixel(10, 20, true, DrawMode::Replace);
    fb.set_pixel(11, 20, true, DrawMode::Replace);
    fb.set_pixel(10, 20, false, DrawMode::Replace);
    for x in 0..WIDTH {
        for y in 0..HEIGHT {
            assert_eq!(fb.pixel(x, y), Some((x, y) == (11, 20)));
        }
    }
    let before = fb.bytes().to_vec();
    fb.set_pixel(128, 0, true, DrawMode::Replace);
    fb.set_pixel(0, 64, true, DrawMode::Replace);
    assert_eq!(fb.bytes().to_vec(), before);
}

#[test]
fn exclusive_ink_vanishes_the_second_time() {
    let mut fb = Framebuffer::new();
    fb.filled_rectangle(0, 0, 20, 20, DrawMode::Replace);
    let before = fb.bytes().to_vec();
    fb.filled_rectangle(10, 10, 50, 30, DrawMode::Xor);
    assert_ne!(fb.bytes().to_vec(), before);
    assert_eq!(fb.pixel(15, 15), Some(false));
    assert_eq!(fb.pixel(40, 30), Some(true));
    fb.filled_rectangle(10, 10, 50, 30, DrawMode::Xor);
    assert_eq!(fb.bytes().to_vec(), before);
}

#[test]
fn drawing_again_changes_nothing() {
    let mut fb = Framebuffer::new();
    for mode in [DrawMode::Replace, DrawMode::Or] {
        fb.filled_rectangle(3, 5, 70, 9, mode);
        let before = fb.bytes().to_vec();
        fb.filled_rectangle(3, 5, 70, 9, mode);
        assert_eq!(fb.bytes().to_vec(), before);
    }
}

#[test]
fn byte_rows_take_the_whole_band() {
    let mut fb = Framebuffer::new();
    fb.write_byte_row(5, 13, 0b1010_0101, DrawMode::Replace);
    assert_eq!(fb.bytes()[WIDTH + 5], 0b1010_0101);
    fb.write_byte_row(5, 8, 0b0000_1111, DrawMode::Xor);
    assert_eq!(fb.bytes()[WIDTH + 5], 0b1010_1010);
    fb.write_byte_row(5, 15, 0b0000_0001, DrawMode::Or);
    assert_eq!(fb.bytes()[WIDTH + 5], 0b1010_1011);
    fb.write_byte_row(5, 64, 0xff, DrawMode::Replace);
    assert_eq!(fb.bytes().iter().filter(|byte| **byte != 0).count(), 1);
}

#[test]
fn short_fonts_are_refused() {
    let mut fb = Framebuffer::new();
    fb.clear(true);
    let error = fb.write_text("x", 0, 0, 8, &[0; 4095], DrawMode::Replace).unwrap_err();
    assert_eq!(error, OledError::ShortFont { length: 4095, expected: 4096 });
    assert_eq!(fb.bytes(), &[0xff; BUFFER_SIZE]);
    fb.write_text("x", 0, 0, 8, &[0; 4096], DrawMode::Replace).unwrap();
    assert_eq!(fb.pixel(0, 0), Some(false));
    assert_eq!(fb.pixel(7, 15), Some(false));
    assert_eq!(fb.pixel(8, 0), Some(true));
    assert_eq!(fb.pixel(0, 16), Some(true));
}

#[test]
fn text_is_cut_off_at_the_edges() {
    let font = vec![0xff_u8; FONT_CHARACTERS * 6];
    let mut fb = Framebuffer::new();
    fb.write_text("ab", -8, 60, 6, &font, DrawMode::Replace).unwrap();
    assert_eq!(fb.bytes().iter().map(|b| b.count_ones()).sum::<u32>(), 4 * 4);
    assert_eq!(fb.pixel(3, 60), Some(true));
    assert_eq!(fb.pixel(4, 60), Some(false));
}

#[test]
fn centered_text_has_half_the_room_on_its_left() {
    let font = vec![0xff_u8; FONT_CHARACTERS * 6];
    let mut fb = Framebuffer::new();
    fb.write_text_aligned("abc", 10, 0, 30, Align::Center, 6, &font, DrawMode::Or).unwrap();
    let lit: Vec<usize> = (0..WIDTH).filter(|x| fb.pixel(*x, 0) == Some(true)).collect();
    assert_eq!(lit, (16..34).collect::<Vec<_>>());
}

#[test]
fn a_new_display_is_dark() {
    assert_eq!(Framebuffer::new(), Framebuffer::default());
    assert_eq!(Framebuffer::new().bytes(), &[0; BUFFER_SIZE]);
}
