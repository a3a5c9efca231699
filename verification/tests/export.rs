use demo_studio::export::{estimated_gif_bytes, frame_timestamp_ms, parse_dimensions, ExportError, GifPreset};

#[test]
fn estimate_scales_with_duration() {
    let short = estimated_gif_bytes(960, 540, 2_000, 15);
    assert_eq!(estimated_gif_bytes(960, 540, 4_000, 15), short * 2);
}

#[test]
fn github_preset_discourages_huge_gifs() {
    let preset = GifPreset::github();
    assert!(preset.width <= 960);
    assert!(preset.fps <= 15);
    assert!(preset.colors <= 128);
}

#[test]
fn media_dimensions_use_the_encoded_stream_size() {
    assert_eq!(parse_dimensions("1349x610").unwrap(), (1349, 610));
    assert!(parse_dimensions("1363,617").is_err());
    assert!(parse_dimensions("0x610").is_err());
}

#[test]
fn estimate_is_a_tenth_of_a_byte_per_pixel_frame() {
    // 960 x 540 pixels, 30 frames, 0.105 bytes each.
    assert_eq!(estimated_gif_bytes(960, 540, 2_000, 15), 1_632_960);
    assert_eq!(estimated_gif_bytes(960, 540, 0, 15), 0);
    assert_eq!(estimated_gif_bytes(0, 540, 2_000, 15), 0);
    assert_eq!(estimated_gif_bytes(10, 10, 1_000, 1), 10);
}

#[test]
fn estimate_rounds_like_binary64_arithmetic() {
    // Exactly, 2644 * 1740 * 75.6 * 25 * 0.105 is 912 981 132; the binary64
    // steps round to just below it, which truncates to one byte less.
    assert_eq!(estimated_gif_bytes(2_644, 1_740, 75_600, 25), 912_981_131);
    assert_eq!(estimated_gif_bytes(321, 181, 999, 15), 91_417);
    assert_eq!(estimated_gif_bytes(1, 1, 1, 1), 0);
    assert_eq!(estimated_gif_bytes(960, 540, 4_000, 15), 3_265_920);
}

#[test]
fn estimate_saturates_for_absurd_inputs() {
    assert_eq!(estimated_gif_bytes(u32::MAX, u32::MAX, u64::MAX, u32::MAX), u64::MAX);
}

#[test]
fn estimate_never_shrinks_as_the_frame_or_rate_grows() {
    let mut previous = 0;
    for (width, height, fps) in [(1_u32, 1_u32, 1_u32), (320, 180, 10), (321, 181, 15), (2_644, 1_740, 25), (3_840, 2_160, 60)] {
        let estimate = estimated_gif_bytes(width, height, 75_600, fps);
        assert!(estimate >= previous);
        previous = estimate;
    }
}

#[test]
fn estimate_never_shrinks_with_duration() {
    let mut previous = 0;
    for duration in [0_u64, 1, 999, 1_000, 1_001, 65_000, 3_600_000] {
        let estimate = estimated_gif_bytes(321, 181, duration, 15);
        assert!(estimate >= previous);
        previous = estimate;
    }
}

#[test]
fn dimensions_parser_follows_unsigned_number_syntax() {
    assert_eq!(parse_dimensions("+5x7").unwrap(), (5, 7));
    assert_eq!(parse_dimensions("4294967295x1").unwrap(), (4_294_967_295, 1));
    assert!(matches!(parse_dimensions("4294967296x1"), Err(ExportError::InvalidDimensions)));
    assert!(matches!(parse_dimensions("5x"), Err(ExportError::InvalidDimensions)));
    assert!(matches!(parse_dimensions("x5"), Err(ExportError::InvalidDimensions)));
    assert!(matches!(parse_dimensions("12x34x5"), Err(ExportError::InvalidDimensions)));
    assert!(matches!(parse_dimensions("-1x2"), Err(ExportError::InvalidDimensions)));
    assert!(matches!(parse_dimensions(" 1x2"), Err(ExportError::InvalidDimensions)));
    assert!(matches!(parse_dimensions("+x2"), Err(ExportError::InvalidDimensions)));
    assert!(matches!(parse_dimensions(""), Err(ExportError::InvalidDimensions)));
    assert!(matches!(parse_dimensions("12x0"), Err(ExportError::InvalidDimensions)));
}

#[test]
fn frames_are_stamped_from_the_trim_start() {
    assert_eq!(frame_timestamp_ms(500, 0, 30), 500);
    assert_eq!(frame_timestamp_ms(500, 3, 30), 600);
    assert_eq!(frame_timestamp_ms(0, 15, 15), 1_000);
}
