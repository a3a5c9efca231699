use demo_studio::project::{Easing, F64Bits, InputEvent, MouseButton, Point, ZoomEvent};
use demo_studio::renderer::{active_zoom, click_age_ms, cursor_bracket, shortcut_at, zoom_progress};
use uuid::Uuid;

fn bits(value: f64) -> F64Bits {
    F64Bits(value.to_bits())
}

fn zoom(start_ms: u64, end_ms: u64) -> ZoomEvent {
    ZoomEvent {
        id: Uuid::nil(),
        start_ms,
        end_ms,
        focus: Point { x: bits(0.2), y: bits(0.3) },
        scale: bits(2.0),
        easing: Easing::EaseInOut,
        generated: true,
    }
}

fn cursor(timestamp_ms: u64) -> InputEvent {
    InputEvent::Cursor { timestamp_ms, position: Point { x: bits(0.5), y: bits(0.5) } }
}

fn shortcut(timestamp_ms: u64, keys: &[&str]) -> InputEvent {
    InputEvent::Shortcut { timestamp_ms, keys: keys.iter().map(|key| key.to_string()).collect() }
}

fn scale_at(zooms: &Vec<ZoomEvent>, timestamp_ms: u64) -> f64 {
    match active_zoom(zooms, timestamp_ms) {
        None => 1.0,
        Some(index) => {
            let progress = zoom_progress(&zooms[index], timestamp_ms);
            let value = progress.numerator as f64 / progress.denominator as f64;
            let eased = value * value * (3.0 - 2.0 * value);
            1.0 + (f64::from_bits(zooms[index].scale.0) - 1.0) * eased
        }
    }
}

#[test]
fn zoom_eases_in_and_out() {
    let zooms = vec![zoom(100, 900)];
    assert_eq!(scale_at(&zooms, 99), 1.0);
    assert_eq!(scale_at(&zooms, 500), 2.0);
    assert!(scale_at(&zooms, 850) < 2.0);
}

#[test]
fn zoom_progress_ramps_over_a_quarter_of_the_zoom() {
    let z = zoom(100, 900);
    let at = |t: u64| {
        let p = zoom_progress(&z, t);
        (p.numerator, p.denominator)
    };
    assert_eq!(at(100), (0, 200));
    assert_eq!(at(200), (100, 200));
    assert_eq!(at(300), (1, 1));
    assert_eq!(at(700), (1, 1));
    assert_eq!(at(800), (100, 200));
    assert_eq!(at(900), (0, 200));
    let short = zoom(0, 100);
    let p = zoom_progress(&short, 50);
    assert_eq!((p.numerator, p.denominator), (50, 80));
    let long = zoom(0, 10_000);
    let p = zoom_progress(&long, 160);
    assert_eq!((p.numerator, p.denominator), (160, 320));
}

#[test]
fn the_first_covering_zoom_is_active() {
    let zooms = vec![zoom(0, 100), zoom(50, 300), zoom(400, 500)];
    assert_eq!(active_zoom(&zooms, 75), Some(0));
    assert_eq!(active_zoom(&zooms, 100), Some(0));
    assert_eq!(active_zoom(&zooms, 101), Some(1));
    assert_eq!(active_zoom(&zooms, 350), None);
    assert_eq!(active_zoom(&zooms, 500), Some(2));
}

#[test]
fn cursor_samples_bracket_the_moment() {
    let events = vec![cursor(100), shortcut(150, &["Ctrl", "C"]), cursor(200), cursor(300)];
    assert_eq!(cursor_bracket(&events, 50), None);
    assert_eq!(cursor_bracket(&events, 100), Some((0, Some(2))));
    assert_eq!(cursor_bracket(&events, 250), Some((2, Some(3))));
    assert_eq!(cursor_bracket(&events, 300), Some((3, None)));
    assert_eq!(cursor_bracket(&events, 1_000), Some((3, None)));
    let unordered = vec![cursor(500), cursor(100)];
    assert_eq!(cursor_bracket(&unordered, 200), None);
}

#[test]
fn click_rings_fade_after_420_ms() {
    assert_eq!(click_age_ms(400, 399), None);
    assert_eq!(click_age_ms(400, 400), Some(0));
    assert_eq!(click_age_ms(400, 820), Some(420));
    assert_eq!(click_age_ms(400, 821), None);
}

#[test]
fn the_latest_visible_shortcut_is_shown() {
    let events = vec![
        shortcut(1_000, &["Ctrl", "C"]),
        InputEvent::Click { timestamp_ms: 1_100, position: Point { x: bits(0.1), y: bits(0.1) }, button: MouseButton::Left, count: 1 },
        shortcut(1_500, &["Ctrl", "Shift", "P"]),
        shortcut(9_000, &["Esc"]),
    ];
    assert_eq!(shortcut_at(&events, 999), None);
    assert_eq!(shortcut_at(&events, 1_200).unwrap().join(" + "), "Ctrl + C");
    assert_eq!(shortcut_at(&events, 2_000).unwrap().join(" + "), "Ctrl + Shift + P");
    assert_eq!(shortcut_at(&events, 2_700).unwrap().join(" + "), "Ctrl + Shift + P");
    assert_eq!(shortcut_at(&events, 2_701), None);
    assert_eq!(shortcut_at(&events, 9_000).unwrap(), ["Esc".to_string()]);
}
