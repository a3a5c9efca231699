//! The portable project model: recordings, input events, scenes, manifests,
//! and the state changes of a project (scene revisions, finalisation and
//! crash recovery). File and database I/O stand outside the library.
use vstd::prelude::*;

use std::path::PathBuf;
use uuid::Uuid;

verus! {

/// The newest project schema this library reads and writes.
pub const SCHEMA_VERSION: u32 = 1;

/// The bit pattern of an `f64` coordinate or factor, carried unchanged.
/// Arithmetic on such values stands outside the library.
#[derive(Debug, Clone, Copy)]
pub struct F64Bits(pub u64);

/// Bit pattern of `0.0`.
pub const ZERO_BITS: u64 = 0;

/// Bit pattern of `1.0`.
pub const ONE_BITS: u64 = 0x3ff0_0000_0000_0000;

/// Bit pattern of `0.72`, the default cursor smoothing.
pub const DEFAULT_SMOOTHING_BITS: u64 = 0x3fe7_0a3d_70a3_d70a;

/// A point in normalised or screen coordinates.
#[derive(Debug, Clone, Copy)]
pub struct Point {
    pub x: F64Bits,
    pub y: F64Bits,
}

/// An axis-aligned rectangle.
#[derive(Debug, Clone, Copy)]
pub struct Rect {
    pub x: F64Bits,
    pub y: F64Bits,
    pub width: F64Bits,
    pub height: F64Bits,
}

/// A display or window that can be recorded.
#[derive(Debug, Clone)]
pub struct DisplaySource {
    pub id: String,
    pub name: String,
    pub bounds: Rect,
    pub scale_factor: F64Bits,
    pub primary: bool,
}

/// Where a project stands in its life cycle.
#[derive(Debug, Clone, Copy, PartialEq, Eq, Structural)]
pub enum RecordingState {
    Recording,
    Ready,
    Recovered,
    Failed,
}

/// The recorded source media of a project.
#[derive(Debug, Clone)]
pub struct Recording {
    pub source: DisplaySource,
    pub region: Rect,
    pub media_path: PathBuf,
    pub duration_ms: u64,
    pub frame_rate: u32,
}

/// A mouse button.
#[derive(Debug, Clone, Copy, PartialEq, Eq, Structural)]
pub enum MouseButton {
    Left,
    Right,
    Middle,
}

/// One entry of a project's input event log.
#[derive(Debug, Clone)]
pub enum InputEvent {
    Cursor { timestamp_ms: u64, position: Point },
    Click { timestamp_ms: u64, position: Point, button: MouseButton, count: u8 },
    Shortcut { timestamp_ms: u64, keys: Vec<String> },
    Paused { timestamp_ms: u64 },
    Resumed { timestamp_ms: u64 },
}

impl InputEvent {
    /// The time of the event, whatever its kind.
    pub open spec fn time(self) -> u64 {
        match self {
            InputEvent::Cursor { timestamp_ms, .. } => timestamp_ms,
            InputEvent::Click { timestamp_ms, .. } => timestamp_ms,
            InputEvent::Shortcut { timestamp_ms, .. } => timestamp_ms,
            InputEvent::Paused { timestamp_ms } => timestamp_ms,
            InputEvent::Resumed { timestamp_ms } => timestamp_ms,
        }
    }

    /// Returns the time of the event, whatever its kind.
    pub fn timestamp_ms(&self) -> (t: u64)
        ensures
            t == self.time(),
    {
        match self {
            InputEvent::Cursor { timestamp_ms, .. } => *timestamp_ms,
            InputEvent::Click { timestamp_ms, .. } => *timestamp_ms,
            InputEvent::Shortcut { timestamp_ms, .. } => *timestamp_ms,
            InputEvent::Paused { timestamp_ms } => *timestamp_ms,
            InputEvent::Resumed { timestamp_ms } => *timestamp_ms,
        }
    }
}

/// The easing curve of a zoom.
#[derive(Debug, Clone, Copy, PartialEq, Eq, Structural)]
pub enum Easing {
    EaseInOut,
    Spring,
    Linear,
}

/// A zoom onto a focus point during a time span.
#[derive(Debug, Clone, Copy)]
pub struct ZoomEvent {
    pub id: Uuid,
    pub start_ms: u64,
    pub end_ms: u64,
    pub focus: Point,
    pub scale: F64Bits,
    pub easing: Easing,
    pub generated: bool,
}

/// A pixelated region during a time span.
#[derive(Debug, Clone, Copy)]
pub struct BlurMask {
    pub id: Uuid,
    pub start_ms: u64,
    pub end_ms: u64,
    pub region: Rect,
    pub intensity: u8,
}

/// The editable, non-destructive effects applied over a recording.
#[derive(Debug, Clone)]
pub struct Scene {
    pub schema_version: u32,
    pub trim_start_ms: u64,
    pub trim_end_ms: u64,
    pub crop: Rect,
    pub zooms: Vec<ZoomEvent>,
    pub blur_masks: Vec<BlurMask>,
    pub cursor_smoothing: F64Bits,
    pub click_emphasis: bool,
}

/// A UTC instant: whole seconds since the Unix epoch and the nanoseconds
/// past that second.
#[derive(Debug, Clone, Copy)]
pub struct Timestamp {
    pub seconds: i64,
    pub nanoseconds: u32,
}

/// The identity and life-cycle record of a project.
#[derive(Debug, Clone)]
pub struct ProjectManifest {
    pub schema_version: u32,
    pub id: Uuid,
    pub title: String,
    pub created_at: Timestamp,
    pub updated_at: Timestamp,
    pub revision: u64,
    pub state: RecordingState,
    pub recording: Recording,
}

/// An open project: its directory, manifest and scene.
#[derive(Debug, Clone)]
pub struct Project {
    pub root: PathBuf,
    pub manifest: ProjectManifest,
    pub scene: Scene,
}

/// Why a project operation failed.
#[derive(Debug)]
pub enum ProjectError {
    Io(std::io::Error),
    Json(serde_json::Error),
    UnsupportedSchema { found: u32, supported: u32 },
    Database(rusqlite::Error),
    RevisionConflict { expected: u64, current: u64 },
    MissingParent,
}

/// Accepts a schema version this library can read.
pub fn ensure_schema(found: u32) -> (r: Result<(), ProjectError>)
    ensures
        found <= SCHEMA_VERSION <==> r is Ok,
        found > SCHEMA_VERSION ==> (r matches Err(ProjectError::UnsupportedSchema { found: f, supported: s })
            && f == found && s == SCHEMA_VERSION),
{
    if found > SCHEMA_VERSION {
        return Err(ProjectError::UnsupportedSchema { found, supported: SCHEMA_VERSION });
    }
    Ok(())
}

/// Calls `uuid::Uuid::new_v4` for a fresh random identifier; nothing is
/// claimed of the identifier drawn.
#[verifier::external_body]
fn new_identifier() -> (id: Uuid) {
    Uuid::new_v4()
}

/// Calls `chrono::Utc::now` and splits the instant into whole seconds since
/// the Unix epoch (`timestamp`) and the nanoseconds past them
/// (`timestamp_subsec_nanos`); nothing is claimed of the time read.
#[verifier::external_body]
fn current_time() -> (now: Timestamp) {
    let now = chrono::Utc::now();
    Timestamp { seconds: now.timestamp(), nanoseconds: now.timestamp_subsec_nanos() }
}

/// The scene of a new project: no trim, the full frame as crop, no effects,
/// default smoothing and click emphasis.
pub open spec fn initial_scene_spec(scene: Scene) -> bool {
    &&& scene.schema_version == SCHEMA_VERSION
    &&& scene.trim_start_ms == 0
    &&& scene.trim_end_ms == 0
    &&& scene.crop.x.0 == ZERO_BITS
    &&& scene.crop.y.0 == ZERO_BITS
    &&& scene.crop.width.0 == ONE_BITS
    &&& scene.crop.height.0 == ONE_BITS
    &&& scene.zooms@.len() == 0
    &&& scene.blur_masks@.len() == 0
    &&& scene.cursor_smoothing.0 == DEFAULT_SMOOTHING_BITS
    &&& scene.click_emphasis
}

/// The outcome of a scene update: the new revision, or the conflict.
pub open spec fn scene_update_outcome(project: Project, expected_revision: u64) -> Result<u64, (u64, u64)> {
    if expected_revision == project.manifest.revision {
        Ok((project.manifest.revision + 1) as u64)
    } else {
        Err((expected_revision, project.manifest.revision))
    }
}

/// The project after a scene update at time `now`.
pub open spec fn scene_updated(project: Project, scene: Scene, expected_revision: u64, now: Timestamp) -> Project {
    if expected_revision == project.manifest.revision {
        Project {
            scene: scene,
            manifest: ProjectManifest {
                revision: (project.manifest.revision + 1) as u64,
                updated_at: now,
                ..project.manifest
            },
            ..project
        }
    } else {
        project
    }
}

/// The project after the recording was finalised with its duration at `now`.
pub open spec fn finalized(project: Project, duration_ms: u64, now: Timestamp) -> Project {
    Project {
        scene: Scene { trim_end_ms: duration_ms, ..project.scene },
        manifest: ProjectManifest {
            recording: Recording { duration_ms: duration_ms, ..project.manifest.recording },
            state: RecordingState::Ready,
            updated_at: now,
            ..project.manifest
        },
        ..project
    }
}

/// The time of the last logged event, or zero for an empty log.
pub open spec fn last_event_time(events: Seq<InputEvent>) -> u64 {
    if events.len() == 0 { 0 } else { events.last().time() }
}

/// The duration that recovery settles on: the last event time, bounded by
/// the media duration when one was probed; the media duration alone when
/// no event was logged.
pub open spec fn recovery_duration(event_duration: u64, media_duration_ms: Option<u64>) -> u64 {
    match media_duration_ms {
        Some(media) => if event_duration == 0 { media } else if event_duration <= media { event_duration } else { media },
        None => event_duration,
    }
}

/// The project after recovery at `now`, when it was still recording.
pub open spec fn recovered(project: Project, events: Seq<InputEvent>, media_duration_ms: Option<u64>, now: Timestamp) -> Project {
    if project.manifest.state == RecordingState::Recording {
        let duration = recovery_duration(last_event_time(events), media_duration_ms);
        Project {
            scene: Scene { trim_end_ms: duration, ..project.scene },
            manifest: ProjectManifest {
                recording: Recording { duration_ms: duration, ..project.manifest.recording },
                state: if duration == 0 { RecordingState::Failed } else { RecordingState::Recovered },
                updated_at: now,
                ..project.manifest
            },
            ..project
        }
    } else {
        project
    }
}

/// A stale write is rejected: once an update with revision `r` went
/// through, a second update that still expects `r` fails with a conflict
/// naming `r` and `r + 1`, and leaves the project as it was.
pub proof fn lemma_stale_update_rejected(project: Project, first: Scene, second: Scene, t1: Timestamp, t2: Timestamp)
    requires
        project.manifest.revision < u64::MAX,
    ensures
        ({
            let r = project.manifest.revision;
            let updated = scene_updated(project, first, r, t1);
            &&& scene_update_outcome(project, r) == Ok::<u64, (u64, u64)>((r + 1) as u64)
            &&& updated.scene == first
            &&& scene_update_outcome(updated, r) == Err::<u64, (u64, u64)>((r, (r + 1) as u64))
            &&& scene_updated(updated, second, r, t2) == updated
        }),
{
}

/// Recovery happens once: a recovered project is no longer recording, so
/// recovering it again changes nothing.
pub proof fn lemma_recovery_is_idempotent(project: Project, events: Seq<InputEvent>, media: Option<u64>, t1: Timestamp, t2: Timestamp)
    ensures
        ({
            let once = recovered(project, events, media, t1);
            &&& once.manifest.state != RecordingState::Recording
            &&& recovered(once, events, media, t2) == once
        }),
{
}

/// A finalised recording is never recovered: recovery leaves a finalised
/// project exactly as it was.
pub proof fn lemma_finalized_not_recovered(project: Project, duration_ms: u64, t1: Timestamp,
    events: Seq<InputEvent>, media: Option<u64>, t2: Timestamp)
    ensures
        ({
            let done = finalized(project, duration_ms, t1);
            &&& done.manifest.state == RecordingState::Ready
            &&& recovered(done, events, media, t2) == done
        }),
{
}

/// Recovery never settles on a duration past the probed media, and without
/// a probe it settles on the last logged event.
pub proof fn lemma_recovery_duration_bounds(event_duration: u64, media: Option<u64>)
    ensures
        media matches Some(m) ==> recovery_duration(event_duration, media) <= m,
        media matches Some(m) && event_duration != 0 ==> recovery_duration(event_duration, media) <= event_duration,
        media is None ==> recovery_duration(event_duration, media) == event_duration,
{
}

/// Recovery is non-destructive: it keeps every scene effect, the crop and
/// the trim start, and the project's identity, title, revision and source;
/// only the duration, the trim end, the state and the update time change.
pub proof fn lemma_recovery_is_non_destructive(project: Project, events: Seq<InputEvent>, media: Option<u64>, now: Timestamp)
    ensures
        ({
            let after = recovered(project, events, media, now);
            &&& after.root == project.root
            &&& after.scene.zooms == project.scene.zooms
            &&& after.scene.blur_masks == project.scene.blur_masks
            &&& after.scene.crop == project.scene.crop
            &&& after.scene.trim_start_ms == project.scene.trim_start_ms
            &&& after.scene.cursor_smoothing == project.scene.cursor_smoothing
            &&& after.scene.click_emphasis == project.scene.click_emphasis
            &&& after.manifest.id == project.manifest.id
            &&& after.manifest.title == project.manifest.title
            &&& after.manifest.revision == project.manifest.revision
            &&& after.manifest.created_at == project.manifest.created_at
            &&& after.manifest.recording.source == project.manifest.recording.source
            &&& after.manifest.recording.region == project.manifest.recording.region
            &&& after.manifest.recording.media_path == project.manifest.recording.media_path
            &&& after.manifest.recording.frame_rate == project.manifest.recording.frame_rate
            &&& project.manifest.state == RecordingState::Recording ==> after.scene.trim_end_ms == after.manifest.recording.duration_ms
        }),
{
}

impl Project {
    /// The project that a new recording starts, with the given identifier
    /// and creation time.
    pub fn initial_at(root: PathBuf, title: String, recording: Recording, id: Uuid, now: Timestamp) -> (project: Project)
        ensures
            project.root == root,
            project.manifest.schema_version == SCHEMA_VERSION,
            project.manifest.id == id,
            project.manifest.title == title,
            project.manifest.created_at == now,
            project.manifest.updated_at == now,
            project.manifest.revision == 0,
            project.manifest.state == RecordingState::Recording,
            project.manifest.recording == recording,
            initial_scene_spec(project.scene),
    {
        let manifest = ProjectManifest {
            schema_version: SCHEMA_VERSION,
            id,
            title,
            created_at: now,
            updated_at: now,
            revision: 0,
            state: RecordingState::Recording,
            recording,
        };
        let scene = Scene {
            schema_version: SCHEMA_VERSION,
            trim_start_ms: 0,
            trim_end_ms: 0,
            crop: Rect {
                x: F64Bits(ZERO_BITS),
                y: F64Bits(ZERO_BITS),
                width: F64Bits(ONE_BITS),
                height: F64Bits(ONE_BITS),
            },
            zooms: Vec::new(),
            blur_masks: Vec::new(),
            cursor_smoothing: F64Bits(DEFAULT_SMOOTHING_BITS),
            click_emphasis: true,
        };
        Project { root, manifest, scene }
    }

    /// The project that a new recording starts, with a fresh random
    /// identifier, created now.
    pub fn initial(root: PathBuf, title: String, recording: Recording) -> (project: Project)
        ensures
            project.root == root,
            project.manifest.schema_version == SCHEMA_VERSION,
            project.manifest.title == title,
            project.manifest.created_at == project.manifest.updated_at,
            project.manifest.revision == 0,
            project.manifest.state == RecordingState::Recording,
            project.manifest.recording == recording,
            initial_scene_spec(project.scene),
    {
        let id = new_identifier();
        let now = current_time();
        Project::initial_at(root, title, recording, id, now)
    }

    /// Replaces the scene when `expected_revision` is the current revision,
    /// bumping the revision; otherwise reports the conflict and changes nothing.
    pub fn replace_scene_at(&mut self, scene: Scene, expected_revision: u64, now: Timestamp) -> (r: Result<u64, ProjectError>)
        requires
            expected_revision == old(self).manifest.revision ==> old(self).manifest.revision < u64::MAX,
        ensures
            *final(self) == scene_updated(*old(self), scene, expected_revision, now),
            match scene_update_outcome(*old(self), expected_revision) {
                Ok(revision) => r == Ok::<u64, ProjectError>(revision),
                Err((e, c)) => r matches Err(ProjectError::RevisionConflict { expected, current })
                    && expected == e && current == c,
            },
    {
        if expected_revision != self.manifest.revision {
            return Err(ProjectError::RevisionConflict { expected: expected_revision, current: self.manifest.revision });
        }
        self.scene = scene;
        self.manifest.revision = self.manifest.revision + 1;
        self.manifest.updated_at = now;
        Ok(self.manifest.revision)
    }

    /// As `replace_scene_at`, stamped with the current time.
    pub fn replace_scene(&mut self, scene: Scene, expected_revision: u64) -> (r: Result<u64, ProjectError>)
        requires
            expected_revision == old(self).manifest.revision ==> old(self).manifest.revision < u64::MAX,
        ensures
            exists|now: Timestamp| *final(self) == scene_updated(*old(self), scene, expected_revision, now),
            match scene_update_outcome(*old(self), expected_revision) {
                Ok(revision) => r == Ok::<u64, ProjectError>(revision),
                Err((e, c)) => r matches Err(ProjectError::RevisionConflict { expected, current })
                    && expected == e && current == c,
            },
    {
        let now = current_time();
        self.replace_scene_at(scene, expected_revision, now)
    }

    /// Records the final duration of a recording and marks the project ready.
    pub fn mark_finalized_at(&mut self, duration_ms: u64, now: Timestamp)
        ensures
            *final(self) == finalized(*old(self), duration_ms, now),
    {
        self.manifest.recording.duration_ms = duration_ms;
        self.scene.trim_end_ms = duration_ms;
        self.manifest.state = RecordingState::Ready;
        self.manifest.updated_at = now;
    }

    /// As `mark_finalized_at`, stamped with the current time.
    pub fn mark_finalized(&mut self, duration_ms: u64)
        ensures
            exists|now: Timestamp| *final(self) == finalized(*old(self), duration_ms, now),
    {
        let now = current_time();
        self.mark_finalized_at(duration_ms, now);
    }

    /// Settles a project that was left recording (after a crash) from its
    /// event log and the probed media duration. Returns whether anything changed.
    pub fn mark_recovered_at(&mut self, events: &[InputEvent], media_duration_ms: Option<u64>, now: Timestamp) -> (changed: bool)
        ensures
            changed == (old(self).manifest.state == RecordingState::Recording),
            *final(self) == recovered(*old(self), events@, media_duration_ms, now),
    {
        if self.manifest.state != RecordingState::Recording {
            return false;
        }
        let event_duration = if events.len() == 0 { 0 } else { events[events.len() - 1].timestamp_ms() };
        let duration = match media_duration_ms {
            Some(media) => if event_duration == 0 { media } else if event_duration <= media { event_duration } else { media },
            None => event_duration,
        };
        self.manifest.recording.duration_ms = duration;
        self.scene.trim_end_ms = duration;
        self.manifest.state = if duration == 0 { RecordingState::Failed } else { RecordingState::Recovered };
        self.manifest.updated_at = now;
        true
    }

    /// As `mark_recovered_at`, stamped with the current time.
    pub fn mark_recovered(&mut self, events: &[InputEvent], media_duration_ms: Option<u64>) -> (changed: bool)
        ensures
            changed == (old(self).manifest.state == RecordingState::Recording),
            exists|now: Timestamp| *final(self) == recovered(*old(self), events@, media_duration_ms, now),
    {
        let now = current_time();
        self.mark_recovered_at(events, media_duration_ms, now)
    }
}

} // verus!
