use demo_studio::capture::{session_time_ms, CaptureSummary, InputSampler};
use demo_studio::project::{F64Bits, InputEvent, MouseButton, Point};

fn keys_of(events: &[InputEvent]) -> Vec<Vec<String>> {
    events
        .iter()
        .map(|event| match event {
            InputEvent::Shortcut { keys, .. } => keys.clone(),
            _ => panic!("not a shortcut"),
        })
        .collect()
}

fn triggers(down: &[usize]) -> Vec<bool> {
    (0..12).map(|i| down.contains(&i)).collect()
}

#[test]
fn summary_duration_follows_the_frames_written() {
    let summary = CaptureSummary::from_frames(56, 30);
    assert_eq!(summary.duration_ms, 1_866);
    assert_eq!(summary.frames_written, 56);
    assert_eq!(summary.dropped_frames, 0);
    assert_eq!(CaptureSummary::from_frames(10, 0).duration_ms, 10_000);
    assert_eq!(session_time_ms(0, 30), 0);
    assert_eq!(session_time_ms(45, 15), 3_000);
}

#[test]
fn text_keys_are_logged_only_with_a_modifier() {
    let mut sampler = InputSampler::new();
    let none = vec![false; 4];
    // "C" alone is typing: nothing is logged, but the key is remembered as down.
    assert!(sampler.sample_shortcuts(&none, &triggers(&[0]), 10).is_empty());
    // Enter alone is a control key and is logged.
    let events = sampler.sample_shortcuts(&none, &triggers(&[8]), 20);
    assert_eq!(keys_of(&events), vec![vec!["Enter".to_string()]]);
    // Held keys are not logged again.
    assert!(sampler.sample_shortcuts(&none, &triggers(&[8]), 30).is_empty());
    // Ctrl + Shift + P.
    let ctrl_shift = vec![true, true, false, false];
    let events = sampler.sample_shortcuts(&ctrl_shift, &triggers(&[3]), 40);
    assert_eq!(keys_of(&events), vec![vec!["Ctrl".to_string(), "Shift".to_string(), "P".to_string()]]);
    assert!(matches!(events[0], InputEvent::Shortcut { timestamp_ms: 40, .. }));
}

#[test]
fn space_alone_is_typing_and_is_not_logged() {
    let mut sampler = InputSampler::new();
    let none = vec![false; 4];
    assert!(sampler.sample_shortcuts(&none, &triggers(&[11]), 10).is_empty());
    // Tab and Esc alone are control keys.
    let events = sampler.sample_shortcuts(&none, &triggers(&[9, 10]), 20);
    assert_eq!(keys_of(&events), vec![vec!["Esc".to_string()], vec!["Tab".to_string()]]);
    // Ctrl + Space is a chord.
    let ctrl = vec![true, false, false, false];
    let events = sampler.sample_shortcuts(&ctrl, &triggers(&[11]), 30);
    assert_eq!(keys_of(&events), vec![vec!["Ctrl".to_string(), "Space".to_string()]]);
}

#[test]
fn several_chords_in_one_sample_are_logged_in_key_order() {
    let mut sampler = InputSampler::new();
    let win = vec![false, false, false, true];
    let events = sampler.sample_shortcuts(&win, &triggers(&[11, 1]), 5);
    assert_eq!(keys_of(&events), vec![vec!["Win".to_string(), "F".to_string()], vec!["Win".to_string(), "Space".to_string()]]);
}

#[test]
fn button_presses_become_clicks() {
    let mut sampler = InputSampler::new();
    let position = Point { x: F64Bits(0.5_f64.to_bits()), y: F64Bits(0.25_f64.to_bits()) };
    let events = sampler.sample_buttons(&vec![true, false, true], &vec![false, false, true], 100, position);
    assert_eq!(events.len(), 2);
    assert!(matches!(events[0], InputEvent::Click { timestamp_ms: 100, button: MouseButton::Left, count: 1, .. }));
    assert!(matches!(events[1], InputEvent::Click { timestamp_ms: 100, button: MouseButton::Middle, count: 2, .. }));
    // Still held: no new click.
    assert!(sampler.sample_buttons(&vec![true, false, true], &vec![false; 3], 110, position).is_empty());
    // Released then pressed again.
    assert!(sampler.sample_buttons(&vec![false, false, false], &vec![false; 3], 120, position).is_empty());
    let events = sampler.sample_buttons(&vec![false, true, false], &vec![false; 3], 130, position);
    assert!(matches!(events[0], InputEvent::Click { button: MouseButton::Right, .. }));
}

#[test]
fn events_logged_during_capture_stay_within_the_media() {
    let summary = CaptureSummary::from_frames(56, 30);
    for frames in 0..=56 {
        assert!(session_time_ms(frames, 30) <= summary.duration_ms);
    }
}
