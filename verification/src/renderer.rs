//! Scene evaluation on the timeline: which zoom is active and how far it
//! has eased in, where the cursor samples around a moment are, how old a
//! click is, and which shortcut is on screen.
use vstd::prelude::*;

use crate::project::{InputEvent, ZoomEvent};

verus! {

/// A fraction `numerator / denominator` in `[0, 1]`.
#[derive(Debug, Clone, Copy)]
pub struct Progress {
    pub numerator: u64,
    pub denominator: u64,
}

/// The length of a zoom, at least one millisecond.
pub open spec fn zoom_duration(zoom: ZoomEvent) -> int {
    if zoom.end_ms > zoom.start_ms { zoom.end_ms - zoom.start_ms } else { 1 }
}

/// The length of the ease-in and ease-out ramps: a quarter of the zoom,
/// kept between 80 and 320 milliseconds.
pub open spec fn zoom_edge(zoom: ZoomEvent) -> int {
    let quarter = zoom_duration(zoom) / 4;
    if quarter < 80 { 80 } else if quarter > 320 { 320 } else { quarter }
}

/// The time since the zoom started, zero before it.
pub open spec fn zoom_elapsed(zoom: ZoomEvent, timestamp_ms: u64) -> int {
    if timestamp_ms > zoom.start_ms { timestamp_ms - zoom.start_ms } else { 0 }
}

/// The moments at which the zoom's progress is defined: on the ramp in,
/// or within the zoom once it is longer than a ramp.
pub open spec fn zoom_progress_defined(zoom: ZoomEvent, timestamp_ms: u64) -> bool {
    let e = zoom_elapsed(zoom, timestamp_ms);
    e < zoom_edge(zoom) || (zoom_duration(zoom) >= zoom_edge(zoom) && e <= zoom_duration(zoom))
}

/// How far the zoom has eased in: rising over the first ramp, held at one,
/// falling over the last ramp.
pub open spec fn zoom_progress_spec(zoom: ZoomEvent, timestamp_ms: u64) -> (int, int) {
    let d = zoom_duration(zoom);
    let edge = zoom_edge(zoom);
    let e = zoom_elapsed(zoom, timestamp_ms);
    if e < edge {
        (e, edge)
    } else if e > d - edge {
        (d - e, edge)
    } else {
        (1, 1)
    }
}

/// Returns how far the zoom has eased in at `timestamp_ms`.
pub fn zoom_progress(zoom: &ZoomEvent, timestamp_ms: u64) -> (p: Progress)
    requires
        zoom_progress_defined(*zoom, timestamp_ms),
    ensures
        (p.numerator as int, p.denominator as int) == zoom_progress_spec(*zoom, timestamp_ms),
        p.denominator > 0,
        p.numerator <= p.denominator,
{
    let duration = if zoom.end_ms > zoom.start_ms { zoom.end_ms - zoom.start_ms } else { 1 };
    let quarter = duration / 4;
    let edge = if quarter < 80 { 80 } else if quarter > 320 { 320 } else { quarter };
    let elapsed = if timestamp_ms > zoom.start_ms { timestamp_ms - zoom.start_ms } else { 0 };
    if elapsed < edge {
        Progress { numerator: elapsed, denominator: edge }
    } else if elapsed > duration - edge {
        Progress { numerator: duration - elapsed, denominator: edge }
    } else {
        Progress { numerator: 1, denominator: 1 }
    }
}

/// The zoom eases in and out: its progress is zero where it starts and
/// where it ends, and one through the hold between the two ramps.
pub proof fn lemma_zoom_eases_in_and_out(zoom: ZoomEvent, timestamp_ms: u64)
    requires
        zoom.start_ms < zoom.end_ms,
        zoom.start_ms <= timestamp_ms <= zoom.end_ms,
        zoom.end_ms - zoom.start_ms >= 80,
    ensures
        zoom_progress_defined(zoom, timestamp_ms),
        zoom_progress_spec(zoom, zoom.start_ms).0 == 0,
        zoom_progress_spec(zoom, zoom.end_ms).0 == 0,
        zoom_edge(zoom) <= timestamp_ms - zoom.start_ms <= zoom_duration(zoom) - zoom_edge(zoom)
            ==> zoom_progress_spec(zoom, timestamp_ms) == (1int, 1int),
{
}

/// The zoom window holds the moment.
pub open spec fn zoom_covers(zoom: ZoomEvent, timestamp_ms: u64) -> bool {
    zoom.start_ms <= timestamp_ms <= zoom.end_ms
}

/// Finds the first zoom whose window holds `timestamp_ms`.
pub fn active_zoom(zooms: &[ZoomEvent], timestamp_ms: u64) -> (r: Option<usize>)
    ensures
        match r {
            Some(i) => i < zooms@.len() && zoom_covers(zooms@[i as int], timestamp_ms)
                && forall|j: int| 0 <= j < i ==> !zoom_covers(#[trigger] zooms@[j], timestamp_ms),
            None => forall|j: int| 0 <= j < zooms@.len() ==> !zoom_covers(#[trigger] zooms@[j], timestamp_ms),
        },
{
    let mut i: usize = 0;
    while i < zooms.len()
        invariant
            i <= zooms@.len(),
            forall|j: int| 0 <= j < i ==> !zoom_covers(#[trigger] zooms@[j], timestamp_ms),
        decreases zooms@.len() - i,
    {
        if zooms[i].start_ms <= timestamp_ms && timestamp_ms <= zooms[i].end_ms {
            return Some(i);
        }
        i = i + 1;
    }
    None
}

/// The active zoom's progress is always defined.
pub proof fn lemma_active_zoom_progress_defined(zoom: ZoomEvent, timestamp_ms: u64)
    requires
        zoom_covers(zoom, timestamp_ms),
    ensures
        zoom_progress_defined(zoom, timestamp_ms),
{
}

/// A cursor sample taken at or before the moment.
pub open spec fn is_cursor_at_or_before(event: InputEvent, timestamp_ms: u64) -> bool {
    event matches InputEvent::Cursor { timestamp_ms: t, .. } && t <= timestamp_ms
}

/// A cursor sample taken after the moment.
pub open spec fn is_cursor_after(event: InputEvent, timestamp_ms: u64) -> bool {
    event matches InputEvent::Cursor { timestamp_ms: t, .. } && t > timestamp_ms
}

/// No cursor sample after the moment comes before index `j`.
pub open spec fn no_later_cursor_before(events: Seq<InputEvent>, timestamp_ms: u64, j: int) -> bool {
    forall|k: int| 0 <= k < j ==> !is_cursor_after(#[trigger] events[k], timestamp_ms)
}

/// Where the cursor is at a moment, by the logged samples: the last sample
/// at or before it (among those before the first later sample) and, when
/// there is one, the first later sample to interpolate towards.
pub open spec fn cursor_bracket_spec(events: Seq<InputEvent>, timestamp_ms: u64, r: Option<(usize, Option<usize>)>) -> bool {
    match r {
        None => forall|j: int| 0 <= j < events.len() && no_later_cursor_before(events, timestamp_ms, j)
            ==> !(#[trigger] is_cursor_at_or_before(events[j], timestamp_ms)),
        Some((previous, next)) => {
            &&& previous < events.len()
            &&& is_cursor_at_or_before(events[previous as int], timestamp_ms)
            &&& forall|j: int| 0 <= j < previous ==> !is_cursor_after(#[trigger] events[j], timestamp_ms)
            &&& match next {
                Some(n) => {
                    &&& previous < n < events.len()
                    &&& is_cursor_after(events[n as int], timestamp_ms)
                    &&& forall|j: int| previous < j < n ==> !(#[trigger] events[j] is Cursor)
                },
                None => forall|j: int| previous < j < events.len() ==> !(#[trigger] events[j] is Cursor),
            }
        },
    }
}

/// Finds the cursor samples around `timestamp_ms`: the sample to show and
/// the later sample to interpolate towards.
pub fn cursor_bracket(events: &[InputEvent], timestamp_ms: u64) -> (r: Option<(usize, Option<usize>)>)
    ensures
        cursor_bracket_spec(events@, timestamp_ms, r),
{
    let mut previous: Option<usize> = None;
    let mut i: usize = 0;
    while i < events.len()
        invariant
            i <= events@.len(),
            forall|j: int| 0 <= j < i ==> !is_cursor_after(#[trigger] events@[j], timestamp_ms),
            match previous {
                None => forall|j: int| 0 <= j < i ==> !(#[trigger] is_cursor_at_or_before(events@[j], timestamp_ms)),
                Some(p) => p < i && is_cursor_at_or_before(events@[p as int], timestamp_ms)
                    && forall|j: int| p < j < i ==> !(#[trigger] events@[j] is Cursor),
            },
        decreases events@.len() - i,
    {
        match &events[i] {
            InputEvent::Cursor { timestamp_ms: t, .. } => {
                if *t <= timestamp_ms {
                    previous = Some(i);
                } else {
                    return match previous {
                        Some(p) => Some((p, Some(i))),
                        None => None,
                    };
                }
            },
            _ => {},
        }
        i = i + 1;
    }
    match previous {
        Some(p) => Some((p, None)),
        None => None,
    }
}

/// How long ago a click happened, while its ring is still shown (at most
/// 420 milliseconds); nothing before the click or after the ring faded.
pub fn click_age_ms(click_timestamp_ms: u64, timestamp_ms: u64) -> (r: Option<u64>)
    ensures
        r == (if click_timestamp_ms <= timestamp_ms && timestamp_ms - click_timestamp_ms <= 420 {
            Some((timestamp_ms - click_timestamp_ms) as u64)
        } else {
            None::<u64>
        }),
{
    if timestamp_ms < click_timestamp_ms {
        return None;
    }
    let age = timestamp_ms - click_timestamp_ms;
    if age <= 420 { Some(age) } else { None }
}

/// A shortcut that is on screen at the moment: pressed at most 1.2 seconds before it.
pub open spec fn shortcut_visible(event: InputEvent, timestamp_ms: u64) -> bool {
    event matches InputEvent::Shortcut { timestamp_ms: t, .. } && t <= timestamp_ms && timestamp_ms - t <= 1_200
}

/// The keys of the latest logged shortcut still on screen at `timestamp_ms`.
pub fn shortcut_at(events: &[InputEvent], timestamp_ms: u64) -> (r: Option<&[String]>)
    ensures
        match r {
            Some(keys) => exists|i: int| 0 <= i < events@.len()
                && shortcut_visible(events@[i], timestamp_ms)
                && (events@[i] matches InputEvent::Shortcut { keys: k, .. } && keys@ == k@)
                && forall|j: int| i < j < events@.len() ==> !shortcut_visible(#[trigger] events@[j], timestamp_ms),
            None => forall|j: int| 0 <= j < events@.len() ==> !shortcut_visible(#[trigger] events@[j], timestamp_ms),
        },
{
    let mut i = events.len();
    while i > 0
        invariant
            i <= events@.len(),
            forall|j: int| i <= j < events@.len() ==> !shortcut_visible(#[trigger] events@[j], timestamp_ms),
        decreases i,
    {
        i = i - 1;
        match &events[i] {
            InputEvent::Shortcut { timestamp_ms: t, keys } => {
                if *t <= timestamp_ms && timestamp_ms - *t <= 1_200 {
                    let found = keys.as_slice();
                    assert(shortcut_visible(events@[i as int], timestamp_ms));
                    return Some(found);
                }
            },
            _ => {},
        }
    }
    None
}

} // verus!
