//! Capture contracts and the decisions of the input sampler: session
//! timing, the capture summary, and which clicks and shortcut chords are
//! logged. Talking to the operating system stands outside the library.
use vstd::prelude::*;

use crate::project::{InputEvent, MouseButton, Point};

verus! {

/// Why a capture operation failed.
#[derive(Debug)]
pub enum CaptureError {
    Unavailable(String),
    PermissionDenied,
    InvalidRegion,
    AlreadyActive,
    NotActive,
    Backend(String),
}

/// What a finished capture wrote.
#[derive(Debug, Clone, Copy)]
pub struct CaptureSummary {
    pub duration_ms: u64,
    pub frames_written: u64,
    pub dropped_frames: u64,
}

/// The session time after `frames` frames at `frame_rate` frames a second
/// (a rate of zero counts as one).
pub open spec fn session_time(frames: u64, frame_rate: u32) -> int {
    (frames * 1000) / (if frame_rate == 0 { 1 } else { frame_rate as int })
}

/// Returns the session time, in milliseconds, after `frames` frames.
pub fn session_time_ms(frames: u64, frame_rate: u32) -> (t: u64)
    requires
        frames * 1000 <= u64::MAX,
    ensures
        t == session_time(frames, frame_rate),
{
    let rate: u64 = if frame_rate == 0 { 1 } else { frame_rate as u64 };
    frames * 1000 / rate
}

impl CaptureSummary {
    /// The summary of a capture that wrote `frames_written` frames.
    pub fn from_frames(frames_written: u64, frame_rate: u32) -> (summary: CaptureSummary)
        requires
            frames_written * 1000 <= u64::MAX,
        ensures
            summary.duration_ms == session_time(frames_written, frame_rate),
            summary.frames_written == frames_written,
            summary.dropped_frames == 0,
    {
        CaptureSummary {
            duration_ms: session_time_ms(frames_written, frame_rate),
            frames_written,
            dropped_frames: 0,
        }
    }
}

/// Input events never outlast the media: an event stamped while fewer
/// frames had been written lies no later than the capture's duration.
pub proof fn lemma_events_within_media(frames_then: u64, frames_written: u64, frame_rate: u32)
    requires
        frames_then <= frames_written,
        frames_written * 1000 <= u64::MAX,
    ensures
        session_time(frames_then, frame_rate) <= session_time(frames_written, frame_rate),
{
    let rate: int = if frame_rate == 0 { 1 } else { frame_rate as int };
    vstd::arithmetic::div_mod::lemma_div_is_ordered(frames_then * 1000, frames_written * 1000, rate);
}

/// The modifier keys, in the order a chord lists them.
pub open spec fn modifier_label(i: int) -> Seq<char> {
    if i == 0 { "Ctrl"@ } else if i == 1 { "Shift"@ } else if i == 2 { "Alt"@ } else { "Win"@ }
}

/// The keys that end a chord: letters of common editor commands, then the
/// control and navigation keys.
pub open spec fn trigger_label(i: int) -> Seq<char> {
    if i == 0 { "C"@ } else if i == 1 { "F"@ } else if i == 2 { "K"@ } else if i == 3 { "P"@ }
    else if i == 4 { "R"@ } else if i == 5 { "V"@ } else if i == 6 { "X"@ } else if i == 7 { "Z"@ }
    else if i == 8 { "Enter"@ } else if i == 9 { "Esc"@ } else if i == 10 { "Tab"@ } else { "Space"@ }
}

pub const MODIFIER_COUNT: usize = 4;

pub const TRIGGER_COUNT: usize = 12;

/// Enter, Esc and Tab may be logged without a modifier; letters and Space
/// type text and never are.
pub open spec fn allowed_alone(i: int) -> bool {
    8 <= i <= 10
}

/// The labels of the modifiers among the first `n` that are held.
pub open spec fn held_labels(modifiers_down: Seq<bool>, n: int) -> Seq<Seq<char>>
    decreases n,
{
    if n <= 0 {
        seq![]
    } else if modifiers_down[n - 1] {
        held_labels(modifiers_down, n - 1).push(modifier_label(n - 1))
    } else {
        held_labels(modifiers_down, n - 1)
    }
}

/// Trigger `i` fires: pressed now, not held before, and either allowed alone
/// or chorded with a modifier.
pub open spec fn chord_fires(previous: Seq<bool>, down: Seq<bool>, modifiers_down: Seq<bool>, i: int) -> bool {
    down[i] && !previous[i] && (allowed_alone(i) || held_labels(modifiers_down, 4).len() > 0)
}

/// The chords logged for the first `n` triggers.
pub open spec fn chords(previous: Seq<bool>, down: Seq<bool>, modifiers_down: Seq<bool>, n: int) -> Seq<Seq<Seq<char>>>
    decreases n,
{
    if n <= 0 {
        seq![]
    } else if chord_fires(previous, down, modifiers_down, n - 1) {
        chords(previous, down, modifiers_down, n - 1).push(held_labels(modifiers_down, 4).push(trigger_label(n - 1)))
    } else {
        chords(previous, down, modifiers_down, n - 1)
    }
}

/// The labels of a logged key list.
pub open spec fn key_labels(keys: Seq<String>) -> Seq<Seq<char>> {
    keys.map_values(|k: String| k@)
}

/// The sampler's memory of which mouse buttons (left, right, middle) and
/// chord keys were down at the previous sample.
#[derive(Debug)]
pub struct InputSampler {
    buttons_down: Vec<bool>,
    triggers_down: Vec<bool>,
}

/// The click count of a press: two when it repeats the button's last click.
pub open spec fn click_count(repeated: bool) -> u8 {
    if repeated { 2 } else { 1 }
}

pub open spec fn button_of(i: int) -> MouseButton {
    if i == 0 { MouseButton::Left } else if i == 1 { MouseButton::Right } else { MouseButton::Middle }
}

/// The clicks logged for the first `n` buttons.
pub open spec fn clicks(previous: Seq<bool>, down: Seq<bool>, repeated: Seq<bool>, timestamp_ms: u64, position: Point, n: int) -> Seq<InputEvent>
    decreases n,
{
    if n <= 0 {
        seq![]
    } else if down[n - 1] && !previous[n - 1] {
        clicks(previous, down, repeated, timestamp_ms, position, n - 1).push(InputEvent::Click {
            timestamp_ms,
            position,
            button: button_of(n - 1),
            count: click_count(repeated[n - 1]),
        })
    } else {
        clicks(previous, down, repeated, timestamp_ms, position, n - 1)
    }
}

/// The position of a mouse button among the sampled flags: left, right,
/// middle.
pub open spec fn button_index(button: MouseButton) -> int {
    match button {
        MouseButton::Left => 0,
        MouseButton::Right => 1,
        MouseButton::Middle => 2,
    }
}

/// `event` is a click of the button at flag `i`.
pub open spec fn is_click_of(event: InputEvent, i: int) -> bool {
    event matches InputEvent::Click { button, .. } && button_index(button) == i
}

/// Every logged click is for a button that went down since the previous
/// sample, stamped with the sample's time and position, and counts two
/// exactly when that button's press repeats its last click, whichever the
/// button; buttons are logged in flag order, each at most once.
pub proof fn lemma_clicks_count_repeats(previous: Seq<bool>, down: Seq<bool>, repeated: Seq<bool>, timestamp_ms: u64, position: Point, n: int)
    requires
        0 <= n <= 3,
        previous.len() == 3,
        down.len() == 3,
        repeated.len() == 3,
    ensures
        forall|k: int| 0 <= k < clicks(previous, down, repeated, timestamp_ms, position, n).len() ==> {
            &&& #[trigger] clicks(previous, down, repeated, timestamp_ms, position, n)[k] matches InputEvent::Click { timestamp_ms: t, position: p, button, count }
                && t == timestamp_ms
                && p == position
                && 0 <= button_index(button) < n
                && down[button_index(button)]
                && !previous[button_index(button)]
                && count == (if repeated[button_index(button)] { 2u8 } else { 1u8 })
        },
        forall|k: int, l: int| 0 <= k < l < clicks(previous, down, repeated, timestamp_ms, position, n).len() ==>
            (#[trigger] clicks(previous, down, repeated, timestamp_ms, position, n)[k] matches InputEvent::Click { button: b1, .. }
                && #[trigger] clicks(previous, down, repeated, timestamp_ms, position, n)[l] matches InputEvent::Click { button: b2, .. }
                && button_index(b1) < button_index(b2)),
        forall|i: int| 0 <= i < n && down[i] && !previous[i] ==>
            exists|k: int| 0 <= k < clicks(previous, down, repeated, timestamp_ms, position, n).len()
                && is_click_of(#[trigger] clicks(previous, down, repeated, timestamp_ms, position, n)[k], i),
    decreases n,
{
    if n > 0 {
        lemma_clicks_count_repeats(previous, down, repeated, timestamp_ms, position, n - 1);
        let c = clicks(previous, down, repeated, timestamp_ms, position, n - 1);
        let r = clicks(previous, down, repeated, timestamp_ms, position, n);
        if down[n - 1] && !previous[n - 1] {
            assert(button_index(button_of(n - 1)) == n - 1);
            assert forall|k: int| 0 <= k < c.len() implies #[trigger] r[k] == c[k] by {}
            assert forall|i: int| 0 <= i < n && down[i] && !previous[i] implies
                exists|k: int| 0 <= k < r.len() && is_click_of(#[trigger] r[k], i) by {
                if i < n - 1 {
                    let k = choose|k: int| 0 <= k < c.len() && is_click_of(#[trigger] c[k], i);
                    assert(r[k] == c[k]);
                } else {
                    assert(is_click_of(r[c.len() as int], i));
                }
            }
        }
    }
}

fn copy_flags(flags: &Vec<bool>) -> (copy: Vec<bool>)
    ensures
        copy@ == flags@,
{
    let mut copy: Vec<bool> = Vec::new();
    let mut i: usize = 0;
    while i < flags.len()
        invariant
            i <= flags@.len(),
            copy@ == flags@.take(i as int),
        decreases flags@.len() - i,
    {
        copy.push(flags[i]);
        i = i + 1;
        assert(copy@ =~= flags@.take(i as int));
    }
    assert(flags@.take(flags@.len() as int) =~= flags@);
    copy
}

fn modifier_name(i: usize) -> (s: String)
    ensures
        s@ == modifier_label(i as int),
{
    if i == 0 { "Ctrl".to_owned() } else if i == 1 { "Shift".to_owned() } else if i == 2 { "Alt".to_owned() } else { "Win".to_owned() }
}

fn trigger_name(i: usize) -> (s: String)
    ensures
        s@ == trigger_label(i as int),
{
    if i == 0 { "C".to_owned() } else if i == 1 { "F".to_owned() } else if i == 2 { "K".to_owned() }
    else if i == 3 { "P".to_owned() } else if i == 4 { "R".to_owned() } else if i == 5 { "V".to_owned() }
    else if i == 6 { "X".to_owned() } else if i == 7 { "Z".to_owned() } else if i == 8 { "Enter".to_owned() }
    else if i == 9 { "Esc".to_owned() } else if i == 10 { "Tab".to_owned() } else { "Space".to_owned() }
}

fn held_modifier_names(modifiers_down: &Vec<bool>) -> (names: Vec<String>)
    requires
        modifiers_down@.len() == MODIFIER_COUNT,
    ensures
        key_labels(names@) == held_labels(modifiers_down@, 4),
{
    let mut names: Vec<String> = Vec::new();
    let mut i: usize = 0;
    while i < MODIFIER_COUNT
        invariant
            i <= MODIFIER_COUNT,
            modifiers_down@.len() == MODIFIER_COUNT,
            key_labels(names@) == held_labels(modifiers_down@, i as int),
        decreases MODIFIER_COUNT - i,
    {
        if modifiers_down[i] {
            let name = modifier_name(i);
            names.push(name);
            assert(key_labels(names@) =~= held_labels(modifiers_down@, i as int).push(modifier_label(i as int)));
        }
        i = i + 1;
    }
    names
}

impl InputSampler {
    /// One flag per mouse button and one per chord key.
    #[verifier::type_invariant]
    spec fn well_formed(self) -> bool {
        self.buttons_down@.len() == 3 && self.triggers_down@.len() == TRIGGER_COUNT
    }

    /// Which mouse buttons were down at the previous sample.
    pub closed spec fn buttons(self) -> Seq<bool> {
        self.buttons_down@
    }

    /// Which chord keys were down at the previous sample.
    pub closed spec fn triggers(self) -> Seq<bool> {
        self.triggers_down@
    }

    /// A sampler that has seen nothing held.
    pub fn new() -> (sampler: InputSampler)
        ensures
            sampler.buttons() == seq![false, false, false],
            sampler.triggers() == Seq::new(12, |i: int| false),
    {
        let mut triggers_down: Vec<bool> = Vec::new();
        let mut i: usize = 0;
        while i < TRIGGER_COUNT
            invariant
                i <= TRIGGER_COUNT,
                triggers_down@ == Seq::new(i as nat, |j: int| false),
            decreases TRIGGER_COUNT - i,
        {
            triggers_down.push(false);
            i = i + 1;
            assert(triggers_down@ =~= Seq::new(i as nat, |j: int| false));
        }
        let buttons_down = vec![false, false, false];
        assert(buttons_down@.len() == 3);
        InputSampler { buttons_down, triggers_down }
    }

    /// Logs a click for each button that went down since the last sample;
    /// `repeated` says whether the press follows the button's last click
    /// closely enough in time and place to count as a double click.
    pub fn sample_buttons(&mut self, down: &Vec<bool>, repeated: &Vec<bool>, timestamp_ms: u64, position: Point) -> (events: Vec<InputEvent>)
        requires
            down@.len() == 3,
            repeated@.len() == 3,
        ensures
            events@ == clicks(old(self).buttons(), down@, repeated@, timestamp_ms, position, 3),
            final(self).buttons() == down@,
            final(self).triggers() == old(self).triggers(),
    {
        proof {
            use_type_invariant(&*self);
        }
        let ghost previous = self.buttons_down@;
        let mut events: Vec<InputEvent> = Vec::new();
        let mut i: usize = 0;
        while i < 3
            invariant
                i <= 3,
                down@.len() == 3,
                repeated@.len() == 3,
                self.buttons_down@ == previous,
                previous.len() == 3,
                events@ == clicks(previous, down@, repeated@, timestamp_ms, position, i as int),
            decreases 3 - i,
        {
            if down[i] && !self.buttons_down[i] {
                let button = if i == 0 { MouseButton::Left } else if i == 1 { MouseButton::Right } else { MouseButton::Middle };
                let count: u8 = if repeated[i] { 2 } else { 1 };
                events.push(InputEvent::Click { timestamp_ms, position, button, count });
            }
            i = i + 1;
        }
        self.buttons_down = copy_flags(down);
        events
    }

    /// Logs a shortcut for each chord key that went down since the last
    /// sample, with the modifiers held; text keys are logged only together
    /// with a modifier.
    pub fn sample_shortcuts(&mut self, modifiers_down: &Vec<bool>, triggers_down: &Vec<bool>, timestamp_ms: u64) -> (events: Vec<InputEvent>)
        requires
            modifiers_down@.len() == MODIFIER_COUNT,
            triggers_down@.len() == TRIGGER_COUNT,
        ensures
            events@.len() == chords(old(self).triggers(), triggers_down@, modifiers_down@, 12).len(),
            forall|k: int| 0 <= k < events@.len() ==> (#[trigger] events@[k] matches InputEvent::Shortcut { timestamp_ms: t, keys }
                && t == timestamp_ms
                && key_labels(keys@) == chords(old(self).triggers(), triggers_down@, modifiers_down@, 12)[k]),
            final(self).triggers() == triggers_down@,
            final(self).buttons() == old(self).buttons(),
    {
        proof {
            use_type_invariant(&*self);
        }
        let ghost previous = self.triggers_down@;
        let held = held_modifier_names(modifiers_down);
        let any_held = held.len() > 0;
        let mut events: Vec<InputEvent> = Vec::new();
        let mut i: usize = 0;
        while i < TRIGGER_COUNT
            invariant
                i <= TRIGGER_COUNT,
                modifiers_down@.len() == MODIFIER_COUNT,
                triggers_down@.len() == TRIGGER_COUNT,
                self.triggers_down@ == previous,
                previous.len() == TRIGGER_COUNT,
                key_labels(held@) == held_labels(modifiers_down@, 4),
                any_held == (held_labels(modifiers_down@, 4).len() > 0),
                events@.len() == chords(previous, triggers_down@, modifiers_down@, i as int).len(),
                forall|k: int| 0 <= k < events@.len() ==> (#[trigger] events@[k] matches InputEvent::Shortcut { timestamp_ms: t, keys }
                    && t == timestamp_ms
                    && key_labels(keys@) == chords(previous, triggers_down@, modifiers_down@, i as int)[k]),
            decreases TRIGGER_COUNT - i,
        {
            let ghost before = events@;
            if triggers_down[i] && !self.triggers_down[i] && ((8 <= i && i <= 10) || any_held) {
                let mut keys = held_modifier_names(modifiers_down);
                let name = trigger_name(i);
                keys.push(name);
                assert(key_labels(keys@) =~= held_labels(modifiers_down@, 4).push(trigger_label(i as int)));
                events.push(InputEvent::Shortcut { timestamp_ms, keys });
                assert forall|k: int| 0 <= k < events@.len() implies (#[trigger] events@[k] matches InputEvent::Shortcut { timestamp_ms: t, keys }
                    && t == timestamp_ms
                    && key_labels(keys@) == chords(previous, triggers_down@, modifiers_down@, i + 1)[k]) by {
                    if k < before.len() {
                        assert(events@[k] == before[k]);
                    }
                }
            }
            i = i + 1;
        }
        self.triggers_down = copy_flags(triggers_down);
        events
    }
}

/// Each chord key is labelled with its own key name, in the documented
/// flag order (C, F, K, P, R, V, X, Z, Enter, Esc, Tab, Space), so distinct
/// keys never share a label.
pub proof fn lemma_trigger_labels_name_their_keys()
    ensures
        forall|i: int| 0 <= i < 12 ==> #[trigger] trigger_label(i) == seq![
            "C"@, "F"@, "K"@, "P"@, "R"@, "V"@, "X"@, "Z"@, "Enter"@, "Esc"@, "Tab"@, "Space"@,
        ][i],
        forall|i: int, j: int| 0 <= i < 12 && 0 <= j < 12 && i != j ==> #[trigger] trigger_label(i) != #[trigger] trigger_label(j),
{
    reveal_strlit("C");
    reveal_strlit("F");
    reveal_strlit("K");
    reveal_strlit("P");
    reveal_strlit("R");
    reveal_strlit("V");
    reveal_strlit("X");
    reveal_strlit("Z");
    reveal_strlit("Enter");
    reveal_strlit("Esc");
    reveal_strlit("Tab");
    reveal_strlit("Space");
    let table = seq![
        "C"@, "F"@, "K"@, "P"@, "R"@, "V"@, "X"@, "Z"@, "Enter"@, "Esc"@, "Tab"@, "Space"@,
    ];
    assert forall|i: int| 0 <= i < 12 implies #[trigger] trigger_label(i) == table[i] by {}
    assert forall|i: int, j: int| 0 <= i < 12 && 0 <= j < 12 && i != j implies #[trigger] trigger_label(i) != #[trigger] trigger_label(j) by {
        let a = trigger_label(i);
        let b = trigger_label(j);
        if a == b {
            assert(a.len() == b.len());
            assert(a[0] == b[0]);
            if a.len() > 1 {
                assert(a[1] == b[1]);
            }
        }
    }
}

/// A modifier key label.
pub open spec fn is_modifier_label(s: Seq<char>) -> bool {
    s == "Ctrl"@ || s == "Shift"@ || s == "Alt"@ || s == "Win"@
}

/// A control key label: a key that types no text.
pub open spec fn is_control_label(s: Seq<char>) -> bool {
    s == "Enter"@ || s == "Esc"@ || s == "Tab"@
}

/// A chord key label.
pub open spec fn is_trigger_label(s: Seq<char>) -> bool {
    ||| s == "C"@ || s == "F"@ || s == "K"@ || s == "P"@
    ||| s == "R"@ || s == "V"@ || s == "X"@ || s == "Z"@
    ||| s == "Space"@
    ||| is_control_label(s)
}

/// A chord the sampler may log: one chord key led only by modifiers, and
/// a control key (never a letter or Space) when no modifier leads it.
pub open spec fn permitted_chord(chord: Seq<Seq<char>>) -> bool {
    &&& chord.len() >= 1
    &&& is_trigger_label(chord.last())
    &&& forall|m: int| 0 <= m < chord.len() - 1 ==> is_modifier_label(#[trigger] chord[m])
    &&& chord.len() == 1 ==> is_control_label(chord[0])
}

/// The privacy boundary of keyboard capture: every logged chord is a
/// permitted chord, so letters and Space are never logged without a modifier.
pub proof fn lemma_chords_never_log_text(previous: Seq<bool>, down: Seq<bool>, modifiers_down: Seq<bool>, n: int)
    requires
        0 <= n <= 12,
    ensures
        forall|k: int| 0 <= k < chords(previous, down, modifiers_down, n).len() ==>
            permitted_chord(#[trigger] chords(previous, down, modifiers_down, n)[k]),
    decreases n,
{
    lemma_held_labels_are_modifiers(modifiers_down, 4);
    if n > 0 {
        lemma_chords_never_log_text(previous, down, modifiers_down, n - 1);
        let c = chords(previous, down, modifiers_down, n);
        let prior = chords(previous, down, modifiers_down, n - 1);
        let held = held_labels(modifiers_down, 4);
        assert forall|k: int| 0 <= k < c.len() implies permitted_chord(#[trigger] c[k]) by {
            if k < prior.len() {
                assert(c[k] == prior[k]);
            } else {
                let chord = held.push(trigger_label(n - 1));
                assert(c[k] == chord);
                assert(chord.last() == trigger_label(n - 1));
                assert forall|m: int| 0 <= m < chord.len() - 1 implies is_modifier_label(#[trigger] chord[m]) by {
                    assert(chord[m] == held[m]);
                }
                if chord.len() == 1 {
                    assert(held.len() == 0);
                    assert(allowed_alone(n - 1));
                    assert(chord[0] == trigger_label(n - 1));
                }
            }
        }
    }
}

proof fn lemma_held_labels_are_modifiers(modifiers_down: Seq<bool>, n: int)
    requires
        0 <= n <= 4,
    ensures
        forall|m: int| 0 <= m < held_labels(modifiers_down, n).len() ==>
            is_modifier_label(#[trigger] held_labels(modifiers_down, n)[m]),
    decreases n,
{
    if n > 0 {
        lemma_held_labels_are_modifiers(modifiers_down, n - 1);
        let prior = held_labels(modifiers_down, n - 1);
        let cur = held_labels(modifiers_down, n);
        assert forall|m: int| 0 <= m < cur.len() implies is_modifier_label(#[trigger] cur[m]) by {
            if m < prior.len() {
                assert(cur[m] == prior[m]);
            } else {
                assert(cur[m] == modifier_label(n - 1));
            }
        }
    }
}

} // verus!
