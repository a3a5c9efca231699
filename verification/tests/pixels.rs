use demo_studio::pixels::{draw_cursor_at, draw_shortcut_card, frame_fits_exec, pixelate, put_pixel};

fn frame(width: u32, height: u32) -> Vec<u8> {
    let mut buffer = Vec::new();
    for y in 0..height {
        for x in 0..width {
            buffer.extend_from_slice(&[x as u8, y as u8, (x + y) as u8, 7]);
        }
    }
    buffer
}

fn pixel(buffer: &[u8], width: u32, x: u32, y: u32) -> [u8; 4] {
    let i = ((y * width + x) * 4) as usize;
    [buffer[i], buffer[i + 1], buffer[i + 2], buffer[i + 3]]
}

#[test]
fn pixels_outside_the_frame_are_ignored() {
    let mut buffer = frame(4, 3);
    let before = buffer.clone();
    put_pixel(&mut buffer, 4, 3, -1, 0, [1, 2, 3, 4]);
    put_pixel(&mut buffer, 4, 3, 4, 0, [1, 2, 3, 4]);
    put_pixel(&mut buffer, 4, 3, 0, 3, [1, 2, 3, 4]);
    assert_eq!(buffer, before);
    put_pixel(&mut buffer, 4, 3, 3, 2, [1, 2, 3, 4]);
    assert_eq!(pixel(&buffer, 4, 3, 2), [1, 2, 3, 4]);
    assert_eq!(pixel(&buffer, 4, 2, 2), pixel(&before, 4, 2, 2));
}

#[test]
fn pixelation_takes_each_block_colour_from_its_first_pixel() {
    let mut buffer = frame(8, 6);
    let before = buffer.clone();
    pixelate(&mut buffer, 8, 6, (1, 1, 6, 5), 4);
    for y in 0..6 {
        for x in 0..8 {
            let got = pixel(&buffer, 8, x, y);
            if (1..6).contains(&x) && (1..5).contains(&y) {
                let ox = if x < 5 { 1 } else { 5 };
                let source = pixel(&before, 8, ox, 1);
                assert_eq!(got, [source[0], source[1], source[2], 255], "pixel {x},{y}");
            } else {
                assert_eq!(got, pixel(&before, 8, x, y), "pixel {x},{y}");
            }
        }
    }
}

#[test]
fn pixelation_bounds_are_clamped_to_the_frame() {
    let mut buffer = frame(4, 4);
    let before = buffer.clone();
    pixelate(&mut buffer, 4, 4, (-10, -10, 100, 100), 4);
    let source = pixel(&before, 4, 0, 0);
    for y in 0..4 {
        for x in 0..4 {
            assert_eq!(pixel(&buffer, 4, x, y), [source[0], source[1], source[2], 255]);
        }
    }
    let mut untouched = frame(4, 4);
    pixelate(&mut untouched, 4, 4, (3, 3, 1, 1), 4);
    assert_eq!(untouched, before);
}

#[test]
fn shortcut_card_sits_centred_above_the_bottom_edge() {
    let (width, height) = (200_u32, 100_u32);
    let mut buffer = vec![0_u8; (width * height * 4) as usize];
    let keys = vec!["Ctrl".to_string(), "C".to_string()];
    draw_shortcut_card(&mut buffer, width, height, &keys);
    // 5 bytes of labels, 2 keys: 5 * 7 + 2 * 16 = 67 pixels wide, 30 high.
    let (left, top, card_width) = (66_u32, 52_u32, 67_u32);
    let border = [80, 88, 98, 255];
    let body = [15, 18, 23, 230];
    let chip = [225, 230, 236, 255];
    assert_eq!(pixel(&buffer, width, left, top), border);
    assert_eq!(pixel(&buffer, width, left + card_width - 1, top + 29), border);
    assert_eq!(pixel(&buffer, width, left + 5, top + 5), body);
    assert_eq!(pixel(&buffer, width, left - 1, top + 5), [0, 0, 0, 0]);
    assert_eq!(pixel(&buffer, width, left + card_width, top + 5), [0, 0, 0, 0]);
    // "Ctrl" chip: 4 * 6 + 8 = 32 wide from left + 10; "C" chip: 14 wide from there + 38.
    assert_eq!(pixel(&buffer, width, left + 10, top + 9), chip);
    assert_eq!(pixel(&buffer, width, left + 41, top + 20), chip);
    assert_eq!(pixel(&buffer, width, left + 42, top + 15), body);
    assert_eq!(pixel(&buffer, width, left + 48, top + 15), chip);
    assert_eq!(pixel(&buffer, width, left + 61, top + 15), chip);
    assert_eq!(pixel(&buffer, width, left + 62, top + 15), body);
    assert_eq!(pixel(&buffer, width, left + 10, top + 21), body);
}

#[test]
fn shortcut_card_is_clipped_to_small_frames() {
    let (width, height) = (40_u32, 10_u32);
    let mut buffer = vec![0_u8; (width * height * 4) as usize];
    let keys = vec!["Enter".to_string()];
    draw_shortcut_card(&mut buffer, width, height, &keys);
    // The card is 54 wide (its minimum) and starts at the left edge.
    assert_eq!(pixel(&buffer, width, 0, 0), [80, 88, 98, 255]);
    assert_eq!(pixel(&buffer, width, 39, 0), [80, 88, 98, 255]);
    assert_eq!(pixel(&buffer, width, 5, 5), [15, 18, 23, 230]);
    assert_eq!(pixel(&buffer, width, 10, 9), [225, 230, 236, 255]);
}

#[test]
fn cursor_arrow_has_an_outlined_body() {
    let (width, height) = (32_u32, 32_u32);
    let mut buffer = vec![0_u8; (width * height * 4) as usize];
    draw_cursor_at(&mut buffer, width, height, 5, 2);
    let fill = [245, 247, 250, 255];
    let outline = [12, 16, 22, 255];
    // Row 0: outline left of the tip, the tip itself filled.
    assert_eq!(pixel(&buffer, width, 4, 2), outline);
    assert_eq!(pixel(&buffer, width, 5, 2), fill);
    assert_eq!(pixel(&buffer, width, 6, 2), [0, 0, 0, 0]);
    // Row 6 (last column 3): outline at -1 and 2, body at 0, 1 and 3.
    assert_eq!(pixel(&buffer, width, 4, 8), outline);
    assert_eq!(pixel(&buffer, width, 5, 8), fill);
    assert_eq!(pixel(&buffer, width, 6, 8), fill);
    assert_eq!(pixel(&buffer, width, 7, 8), outline);
    assert_eq!(pixel(&buffer, width, 8, 8), fill);
    assert_eq!(pixel(&buffer, width, 9, 8), [0, 0, 0, 0]);
    // Row 21 (last column 10), and nothing below the arrow.
    assert_eq!(pixel(&buffer, width, 14, 23), outline);
    assert_eq!(pixel(&buffer, width, 15, 23), fill);
    assert_eq!(pixel(&buffer, width, 5, 24), [0, 0, 0, 0]);
}

#[test]
fn cursor_arrow_is_clipped_at_the_frame_edge() {
    let (width, height) = (4_u32, 4_u32);
    let mut buffer = vec![0_u8; (width * height * 4) as usize];
    draw_cursor_at(&mut buffer, width, height, 0, -20);
    // Only rows 20 and 21 of the arrow reach the frame, on rows 0 and 1.
    assert_eq!(pixel(&buffer, width, 0, 0), [245, 247, 250, 255]);
    assert_eq!(pixel(&buffer, width, 0, 1), [245, 247, 250, 255]);
    assert_eq!(pixel(&buffer, width, 0, 2), [0, 0, 0, 0]);
}

#[test]
fn frames_must_fit_their_buffers() {

    assert!(frame_fits_exec(4 * 6 * 4, 4, 6));
    assert!(!frame_fits_exec(4 * 6 * 4 - 1, 4, 6));
    assert!(!frame_fits_exec(usize::MAX, 1 << 16, 1 << 15));
    assert!(frame_fits_exec(0, 0, 7));
}
