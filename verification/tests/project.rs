use std::path::PathBuf;

use demo_studio::project::{
    ensure_schema, DisplaySource, F64Bits, InputEvent, Point, Project, ProjectError, Recording, RecordingState,
    Rect, Timestamp, DEFAULT_SMOOTHING_BITS, ONE_BITS, SCHEMA_VERSION,
};
use uuid::Uuid;

fn bits(value: f64) -> F64Bits {
    F64Bits(value.to_bits())
}

fn recording() -> Recording {
    Recording {
        source: DisplaySource {
            id: "display-1".into(),
            name: "Primary display".into(),
            bounds: Rect { x: bits(0.0), y: bits(0.0), width: bits(1920.0), height: bits(1080.0) },
            scale_factor: bits(1.0),
            primary: true,
        },
        region: Rect { x: bits(100.0), y: bits(100.0), width: bits(800.0), height: bits(500.0) },
        media_path: PathBuf::from("recording/source.mkv"),
        duration_ms: 0,
        frame_rate: 30,
    }
}

fn cursor(timestamp_ms: u64) -> InputEvent {
    InputEvent::Cursor { timestamp_ms, position: Point { x: bits(0.5), y: bits(0.4) } }
}

fn at(seconds: i64) -> Timestamp {
    Timestamp { seconds, nanoseconds: 0 }
}

fn new_project() -> Project {
    Project::initial_at(PathBuf::from("demo.ddp"), "Demo".into(), recording(), Uuid::nil(), at(1_000))
}

#[test]
fn project_round_trip_and_recovery_are_non_destructive() {
    let mut project = new_project();
    let events = vec![cursor(425)];
    assert!(project.mark_recovered_at(&events, None, at(2_000)));
    assert_eq!(project.manifest.recording.duration_ms, 425);
    assert_eq!(project.manifest.state, RecordingState::Recovered);
    assert_eq!(project.scene.trim_end_ms, 425);
    assert_eq!(project.manifest.revision, 0);
    assert_eq!(project.manifest.title, "Demo");
    assert_eq!(events.len(), 1);
}

#[test]
fn revisioned_scene_save_rejects_stale_writes_and_recovers_corruption() {
    let mut project = new_project();
    let mut scene = project.scene.clone();
    scene.cursor_smoothing = bits(0.4);
    assert_eq!(project.replace_scene_at(scene.clone(), 0, at(2_000)).unwrap(), 1);
    assert!(matches!(
        project.replace_scene_at(scene, 0, at(3_000)),
        Err(ProjectError::RevisionConflict { expected: 0, current: 1 })
    ));
    assert_eq!(project.manifest.revision, 1);
    assert_eq!(f64::from_bits(project.scene.cursor_smoothing.0), 0.4);
    assert_eq!(project.manifest.updated_at.seconds, 2_000);
}

#[test]
fn new_project_starts_recording_with_a_full_frame_crop() {
    let project = new_project();
    assert_eq!(project.manifest.schema_version, SCHEMA_VERSION);
    assert_eq!(project.manifest.state, RecordingState::Recording);
    assert_eq!(project.manifest.revision, 0);
    assert_eq!(project.manifest.created_at.seconds, 1_000);
    assert_eq!(project.scene.crop.width.0, ONE_BITS);
    assert_eq!(f64::from_bits(project.scene.crop.height.0), 1.0);
    assert_eq!(f64::from_bits(project.scene.crop.x.0), 0.0);
    assert_eq!(project.scene.cursor_smoothing.0, DEFAULT_SMOOTHING_BITS);
    assert_eq!(f64::from_bits(DEFAULT_SMOOTHING_BITS), 0.72);
    assert!(project.scene.zooms.is_empty());
    assert!(project.scene.click_emphasis);
}

#[test]
fn fresh_projects_get_distinct_identifiers() {
    let first = Project::initial(PathBuf::from("a.ddp"), "A".into(), recording());
    let second = Project::initial(PathBuf::from("b.ddp"), "B".into(), recording());
    assert_ne!(first.manifest.id, second.manifest.id);
    assert_eq!(first.manifest.state, RecordingState::Recording);
}

#[test]
fn schema_versions_newer_than_supported_are_refused() {
    assert!(ensure_schema(0).is_ok());
    assert!(ensure_schema(SCHEMA_VERSION).is_ok());
    assert!(matches!(
        ensure_schema(SCHEMA_VERSION + 1),
        Err(ProjectError::UnsupportedSchema { found: 2, supported: 1 })
    ));
}

#[test]
fn finalizing_sets_the_duration_and_trim() {
    let mut project = new_project();
    project.mark_finalized_at(2_000, at(5_000));
    assert_eq!(project.manifest.recording.duration_ms, 2_000);
    assert_eq!(project.scene.trim_end_ms, 2_000);
    assert_eq!(project.manifest.state, RecordingState::Ready);
    assert_eq!(project.manifest.updated_at.seconds, 5_000);
}

#[test]
fn recovery_is_bounded_by_the_media_and_happens_once() {
    let mut project = new_project();
    assert!(project.mark_recovered_at(&vec![cursor(100), cursor(900)], Some(700), at(2_000)));
    assert_eq!(project.manifest.recording.duration_ms, 700);
    assert_eq!(project.manifest.state, RecordingState::Recovered);
    assert!(!project.mark_recovered_at(&vec![cursor(5_000)], None, at(3_000)));
    assert_eq!(project.manifest.recording.duration_ms, 700);
    assert_eq!(project.manifest.updated_at.seconds, 2_000);
}

#[test]
fn recovery_without_events_uses_the_media_or_fails() {
    let mut with_media = new_project();
    assert!(with_media.mark_recovered_at(&vec![], Some(1_234), at(2_000)));
    assert_eq!(with_media.manifest.recording.duration_ms, 1_234);
    assert_eq!(with_media.manifest.state, RecordingState::Recovered);

    let mut without = new_project();
    assert!(without.mark_recovered(&vec![], None));
    assert_eq!(without.manifest.recording.duration_ms, 0);
    assert_eq!(without.manifest.state, RecordingState::Failed);
}

#[test]
fn finalized_projects_are_not_recovered() {
    let mut project = new_project();
    project.mark_finalized(1_500);
    assert!(!project.mark_recovered(&vec![cursor(100)], Some(50)));
    assert_eq!(project.manifest.recording.duration_ms, 1_500);
    assert_eq!(project.manifest.state, RecordingState::Ready);
}

#[test]
fn event_timestamps_read_every_kind() {
    let events = vec![
        cursor(1),
        InputEvent::Click { timestamp_ms: 2, position: Point { x: bits(0.0), y: bits(0.0) }, button: demo_studio::project::MouseButton::Left, count: 1 },
        InputEvent::Shortcut { timestamp_ms: 3, keys: vec!["Ctrl".into(), "C".into()] },
        InputEvent::Paused { timestamp_ms: 4 },
        InputEvent::Resumed { timestamp_ms: 5 },
    ];
    let times: Vec<u64> = events.iter().map(InputEvent::timestamp_ms).collect();
    assert_eq!(times, vec![1, 2, 3, 4, 5]);
}
