use demo_studio::analysis::{apply_generated_zooms, clicks_until, generated_zoom, group_clicks, plan_zoom_windows};
use demo_studio::project::{Easing, F64Bits, InputEvent, MouseButton, Point, Rect, Scene, ZoomEvent};
use uuid::Uuid;

const GROUP_WINDOW_MS: u64 = 850;
const LEAD_IN_MS: u64 = 220;
const HOLD_MS: u64 = 1_200;
const MAX_SCALE: f64 = 1.85;

fn bits(value: f64) -> F64Bits {
    F64Bits(value.to_bits())
}

fn click(timestamp_ms: u64, x: f64, y: f64) -> InputEvent {
    InputEvent::Click { timestamp_ms, position: Point { x: bits(x), y: bits(y) }, button: MouseButton::Left, count: 1 }
}

fn position(event: &InputEvent) -> (f64, f64) {
    match event {
        InputEvent::Click { position, .. } => (f64::from_bits(position.x.0), f64::from_bits(position.y.0)),
        _ => unreachable!(),
    }
}

/// Plans the zoom windows of the clicks, as the analysis does.
fn windows_for(events: &Vec<InputEvent>, until_ms: u64) -> Vec<(u64, u64)> {
    let indices = clicks_until(events, until_ms);
    let times: Vec<u64> = indices.iter().map(|&i| events[i].timestamp_ms()).collect();
    let close: Vec<bool> = (0..indices.len())
        .map(|k| {
            k > 0 && {
                let (ax, ay) = position(&events[indices[k - 1]]);
                let (bx, by) = position(&events[indices[k]]);
                ((ax - bx).powi(2) + (ay - by).powi(2)).sqrt() <= 0.22
            }
        })
        .collect();
    let groups = group_clicks(&times, &close, GROUP_WINDOW_MS);
    plan_zoom_windows(&groups, LEAD_IN_MS, HOLD_MS)
}

fn zoom(start_ms: u64, end_ms: u64, generated: bool) -> ZoomEvent {
    ZoomEvent {
        id: Uuid::nil(),
        start_ms,
        end_ms,
        focus: Point { x: bits(0.2), y: bits(0.2) },
        scale: bits(1.3),
        easing: Easing::Linear,
        generated,
    }
}

fn scene(trim_end_ms: u64, zooms: Vec<ZoomEvent>) -> Scene {
    Scene {
        schema_version: 1,
        trim_start_ms: 0,
        trim_end_ms,
        crop: Rect { x: bits(0.0), y: bits(0.0), width: bits(1.0), height: bits(1.0) },
        zooms,
        blur_masks: vec![],
        cursor_smoothing: bits(0.0),
        click_emphasis: true,
    }
}

#[test]
fn nearby_clicks_form_one_bounded_zoom() {
    let events = vec![click(1_000, 0.4, 0.5), click(1_400, 0.43, 0.52)];
    let windows = windows_for(&events, u64::MAX);
    assert_eq!(windows.len(), 1);
    // Two clicks in the group: the scale the analysis picks, capped.
    let scale = (1.45_f64 + (2.0 - 1.0) * 0.08).min(MAX_SCALE);
    let focus = Point { x: bits(0.415), y: bits(0.51) };
    let zoom = generated_zoom(windows[0], focus, bits(scale), Uuid::nil());
    assert!(f64::from_bits(zoom.scale.0) <= MAX_SCALE);
    assert_eq!(zoom.start_ms, 780);
    assert_eq!(zoom.end_ms, 2_600);
    assert!(zoom.generated);
    assert!(matches!(zoom.easing, Easing::Spring));
}

#[test]
fn distant_clicks_do_not_make_overlapping_zooms() {
    let events = vec![click(1_000, 0.1, 0.1), click(1_500, 0.9, 0.9)];
    let windows = windows_for(&events, u64::MAX);
    assert_eq!(windows.len(), 2);
    assert!(windows[0].1 <= windows[1].0);
    // The overlap [1_280, 2_200) is split at its midpoint.
    assert_eq!(windows, vec![(780, 1_740), (1_740, 2_700)]);
}

#[test]
fn make_beautiful_replaces_only_generated_scene_data() {
    let mut scene = scene(2_000, vec![zoom(100, 300, false), zoom(400, 900, true)]);
    let events = vec![click(500, 0.5, 0.5), click(2_500, 0.8, 0.8)];
    let generated: Vec<ZoomEvent> = windows_for(&events, scene.trim_end_ms)
        .into_iter()
        .map(|(start_ms, end_ms)| zoom(start_ms, end_ms, true))
        .collect();
    apply_generated_zooms(&mut scene, &generated, bits(0.72));
    assert_eq!(scene.zooms.len(), 2);
    assert!(scene.zooms.iter().any(|zoom| !zoom.generated));
    assert!(scene.zooms.iter().all(|zoom| zoom.end_ms <= 2_000));
    assert_eq!(scene.trim_end_ms, 2_000);
    assert_eq!(f64::from_bits(scene.cursor_smoothing.0), 0.72);
}

#[test]
fn generated_zooms_are_cut_at_the_trim_end_and_sorted() {
    let mut scene = scene(1_000, vec![zoom(600, 700, false), zoom(0, 50, false), zoom(10, 20, true)]);
    let generated = vec![zoom(900, 1_500, true), zoom(1_200, 1_300, true), zoom(100, 400, true), zoom(600, 650, true)];
    apply_generated_zooms(&mut scene, &generated, bits(0.5));
    let spans: Vec<(u64, u64, bool)> = scene.zooms.iter().map(|z| (z.start_ms, z.end_ms, z.generated)).collect();
    assert_eq!(
        spans,
        vec![(0, 50, false), (100, 400, true), (600, 700, false), (600, 650, true), (900, 1_000, true)]
    );
}

#[test]
fn clicks_after_the_trim_end_are_not_analysed() {
    let events = vec![
        click(100, 0.1, 0.1),
        InputEvent::Cursor { timestamp_ms: 150, position: Point { x: bits(0.1), y: bits(0.1) } },
        click(2_000, 0.1, 0.1),
        click(2_001, 0.1, 0.1),
    ];
    assert_eq!(clicks_until(&events, 2_000), vec![0, 2]);
    assert_eq!(clicks_until(&events, 99), Vec::<usize>::new());
}

#[test]
fn planned_windows_start_before_they_end_even_when_nested() {
    // A long group followed by a short one that overlaps it.
    let times = vec![0, 400, 800, 1_000];
    let close = vec![false, true, true, false];
    let groups = group_clicks(&times, &close, 850);
    let windows = plan_zoom_windows(&groups, LEAD_IN_MS, HOLD_MS);
    assert_eq!(windows, vec![(0, 1_390), (1_390, 2_200)]);
    for (start, end) in &windows {
        assert!(start <= end);
    }
}

#[test]
fn click_groups_need_both_nearness_and_timing() {
    let times = vec![0, 500, 2_000, 2_100, 2_200];
    let close = vec![false, true, true, false, true];
    let groups = group_clicks(&times, &close, 850);
    let summary: Vec<(u64, u64, usize, usize)> =
        groups.iter().map(|g| (g.first_ms, g.last_ms, g.first_click, g.click_count)).collect();
    assert_eq!(summary, vec![(0, 500, 0, 2), (2_000, 2_000, 2, 1), (2_100, 2_200, 3, 2)]);
}

#[test]
fn grouped_clicks_cover_every_click_once_in_order() {
    let times = vec![0, 10, 5_000, 5_010, 5_020, 9_000];
    let close = vec![false, true, true, true, true, false];
    let groups = group_clicks(&times, &close, 850);
    let mut next = 0;
    for group in &groups {
        assert_eq!(group.first_click, next);
        assert_eq!(group.first_ms, times[group.first_click]);
        assert_eq!(group.last_ms, times[group.first_click + group.click_count - 1]);
        next += group.click_count;
    }
    assert_eq!(next, times.len());
}
