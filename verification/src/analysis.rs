//! Automatic scene analysis: grouping clicks into zoom windows and merging
//! generated zooms with the ones the author placed by hand.
use vstd::prelude::*;

use crate::project::{Easing, F64Bits, InputEvent, Point, Scene, ZoomEvent};
use uuid::Uuid;

verus! {

/// A click logged no later than `until_ms`.
pub open spec fn is_click_until(event: InputEvent, until_ms: u64) -> bool {
    event matches InputEvent::Click { timestamp_ms: t, .. } && t <= until_ms
}

/// Lists, in log order, the indices of the clicks at or before `until_ms`.
pub fn clicks_until(events: &[InputEvent], until_ms: u64) -> (r: Vec<usize>)
    ensures
        r@ == Seq::new(events@.len(), |i: int| i as usize).filter(|i: usize| is_click_until(events@[i as int], until_ms)),
{
    let ghost all = Seq::new(events@.len(), |i: int| i as usize);
    let ghost pred = |i: usize| is_click_until(events@[i as int], until_ms);
    let mut r: Vec<usize> = Vec::new();
    let mut i: usize = 0;
    while i < events.len()
        invariant
            i <= events@.len(),
            all == Seq::new(events@.len(), |i: int| i as usize),
            pred == (|i: usize| is_click_until(events@[i as int], until_ms)),
            r@ == all.take(i as int).filter(pred),
        decreases events@.len() - i,
    {
        proof {
            assert(all.take(i + 1).drop_last() =~= all.take(i as int));
            reveal_with_fuel(Seq::filter, 1);
        }
        match &events[i] {
            InputEvent::Click { timestamp_ms, .. } => {
                if *timestamp_ms <= until_ms {
                    r.push(i);
                }
            },
            _ => {},
        }
        i = i + 1;
    }
    assert(all.take(events@.len() as int) =~= all);
    r
}

/// A run of clicks that a single zoom covers: the clicks numbered
/// `first_click .. first_click + click_count`, from `first_ms` to `last_ms`.
#[derive(Debug, Clone, Copy)]
pub struct ClickGroup {
    pub first_ms: u64,
    pub last_ms: u64,
    pub first_click: usize,
    pub click_count: usize,
}

/// Click `k` joins the group of the click before it: it follows within the
/// grouping window and lands close to it.
pub open spec fn joins_previous(times: Seq<u64>, close_to_previous: Seq<bool>, window_ms: u64, k: int) -> bool {
    &&& k >= 1
    &&& (if times[k] >= times[k - 1] { times[k] - times[k - 1] } else { 0 }) <= window_ms
    &&& close_to_previous[k]
}

/// The groups of the first `n` clicks.
pub open spec fn click_groups(times: Seq<u64>, close_to_previous: Seq<bool>, window_ms: u64, n: int) -> Seq<ClickGroup>
    decreases n,
{
    if n <= 0 {
        seq![]
    } else {
        let g = click_groups(times, close_to_previous, window_ms, n - 1);
        let k = n - 1;
        if joins_previous(times, close_to_previous, window_ms, k) && g.len() > 0 {
            g.update(g.len() - 1, ClickGroup { last_ms: times[k], click_count: (g.last().click_count + 1) as usize, ..g.last() })
        } else {
            g.push(ClickGroup { first_ms: times[k], last_ms: times[k], first_click: k as usize, click_count: 1 })
        }
    }
}

/// Groups the clicks, given their times and whether each lands close to
/// the click before it.
pub fn group_clicks(times: &Vec<u64>, close_to_previous: &Vec<bool>, group_window_ms: u64) -> (groups: Vec<ClickGroup>)
    requires
        close_to_previous@.len() == times@.len(),
    ensures
        groups@ == click_groups(times@, close_to_previous@, group_window_ms, times@.len() as int),
{
    let mut groups: Vec<ClickGroup> = Vec::new();
    let mut k: usize = 0;
    while k < times.len()
        invariant
            k <= times@.len(),
            close_to_previous@.len() == times@.len(),
            groups@ == click_groups(times@, close_to_previous@, group_window_ms, k as int),
            groups@.len() <= k,
            forall|j: int| 0 <= j < groups@.len() ==> #[trigger] groups@[j].click_count <= k,
        decreases times@.len() - k,
    {
        let time = times[k];
        let joins = k >= 1 && groups.len() > 0 && {
            let previous = times[k - 1];
            let gap = if time >= previous { time - previous } else { 0 };
            gap <= group_window_ms && close_to_previous[k]
        };
        if joins {
            let last = groups.len() - 1;
            let group = groups[last];
            groups.set(last, ClickGroup { last_ms: time, click_count: group.click_count + 1, ..group });
        } else {
            groups.push(ClickGroup { first_ms: time, last_ms: time, first_click: k, click_count: 1 });
        }
        k = k + 1;
        assert(forall|j: int| 0 <= j < groups@.len() ==> #[trigger] groups@[j].click_count <= k);
    }
    groups
}

/// The groups cover every click once, in order: each group starts where
/// the previous one ended, spans from its first to its last click time, and
/// together they hold all `n` clicks.
pub open spec fn groups_partition(groups: Seq<ClickGroup>, times: Seq<u64>, n: int) -> bool {
    &&& (n == 0 <==> groups.len() == 0)
    &&& groups.len() > 0 ==> groups[0].first_click == 0
    &&& groups.len() > 0 ==> groups.last().first_click + groups.last().click_count == n
    &&& forall|g: int| 0 <= g < groups.len() ==> {
        &&& #[trigger] groups[g].click_count >= 1
        &&& groups[g].first_ms == times[groups[g].first_click as int]
        &&& groups[g].last_ms == times[groups[g].first_click + groups[g].click_count - 1]
    }
    &&& forall|g: int| 0 <= g < groups.len() - 1 ==>
        #[trigger] groups[g + 1].first_click == groups[g].first_click + groups[g].click_count
}

/// Grouping covers every click once, in log order.
pub proof fn lemma_groups_partition_clicks(times: Seq<u64>, close_to_previous: Seq<bool>, window_ms: u64, n: int)
    requires
        0 <= n <= times.len(),
        n <= usize::MAX,
    ensures
        groups_partition(click_groups(times, close_to_previous, window_ms, n), times, n),
    decreases n,
{
    if n > 0 {
        lemma_groups_partition_clicks(times, close_to_previous, window_ms, n - 1);
        let g = click_groups(times, close_to_previous, window_ms, n - 1);
        let r = click_groups(times, close_to_previous, window_ms, n);
        if joins_previous(times, close_to_previous, window_ms, n - 1) && g.len() > 0 {
            assert(g.last().first_click + g.last().click_count == n - 1);
            assert forall|j: int| 0 <= j < r.len() - 1 implies
                #[trigger] r[j + 1].first_click == r[j].first_click + r[j].click_count by {
                assert(r[j] == g[j]);
                if j + 1 < g.len() - 1 {
                    assert(r[j + 1] == g[j + 1]);
                }
            }
            assert forall|j: int| 0 <= j < r.len() implies {
                &&& #[trigger] r[j].click_count >= 1
                &&& r[j].first_ms == times[r[j].first_click as int]
                &&& r[j].last_ms == times[r[j].first_click + r[j].click_count - 1]
            } by {
                if j < r.len() - 1 {
                    assert(r[j] == g[j]);
                }
            }
        } else {
            if g.len() > 0 {
                assert(g.last().first_click + g.last().click_count == n - 1);
            }
            assert forall|j: int| 0 <= j < r.len() - 1 implies
                #[trigger] r[j + 1].first_click == r[j].first_click + r[j].click_count by {
                assert(r[j] == g[j]);
            }
        }
    }
}

/// Click `k` starts a group of its own.
pub open spec fn starts_group(groups: Seq<ClickGroup>, k: int) -> bool {
    exists|g: int| 0 <= g < groups.len() && #[trigger] groups[g].first_click == k
}

proof fn lemma_first_clicks_below(times: Seq<u64>, close_to_previous: Seq<bool>, window_ms: u64, n: int)
    requires
        0 <= n <= times.len(),
        n <= usize::MAX,
    ensures
        n > 0 ==> click_groups(times, close_to_previous, window_ms, n).len() > 0,
        forall|g: int| 0 <= g < click_groups(times, close_to_previous, window_ms, n).len() ==>
            #[trigger] click_groups(times, close_to_previous, window_ms, n)[g].first_click < n,
    decreases n,
{
    if n > 0 {
        lemma_first_clicks_below(times, close_to_previous, window_ms, n - 1);
        let g = click_groups(times, close_to_previous, window_ms, n - 1);
        let r = click_groups(times, close_to_previous, window_ms, n);
        assert forall|i: int| 0 <= i < r.len() implies #[trigger] r[i].first_click < n by {
            if i < g.len() {
                assert(r[i].first_click == g[i].first_click);
            }
        }
    }
}

/// A new group starts at click `k >= 1` exactly when `k` is not close to
/// click `k - 1` or follows it by more than the window: two close clicks
/// within the window of each other always share a group, however long the
/// group has already run.
pub proof fn lemma_group_boundaries(times: Seq<u64>, close_to_previous: Seq<bool>, window_ms: u64, n: int)
    requires
        0 <= n <= times.len(),
        n <= close_to_previous.len(),
        n <= usize::MAX,
    ensures
        forall|k: int| 1 <= k < n ==>
            (#[trigger] starts_group(click_groups(times, close_to_previous, window_ms, n), k)
                <==> !(close_to_previous[k]
                    && (if times[k] >= times[k - 1] { times[k] - times[k - 1] } else { 0 }) <= window_ms)),
        n > 0 ==> starts_group(click_groups(times, close_to_previous, window_ms, n), 0),
    decreases n,
{
    if n > 0 {
        lemma_group_boundaries(times, close_to_previous, window_ms, n - 1);
        lemma_first_clicks_below(times, close_to_previous, window_ms, n - 1);
        let g = click_groups(times, close_to_previous, window_ms, n - 1);
        let r = click_groups(times, close_to_previous, window_ms, n);
        let k = n - 1;
        let joins = joins_previous(times, close_to_previous, window_ms, k) && g.len() > 0;
        if joins {
            assert(r.len() == g.len());
            assert forall|i: int| 0 <= i < r.len() implies #[trigger] r[i].first_click == g[i].first_click by {}
        } else {
            assert(r.len() == g.len() + 1);
            assert forall|i: int| 0 <= i < g.len() implies #[trigger] r[i].first_click == g[i].first_click by {}
            assert(r[g.len() as int].first_click == k);
        }
        assert forall|c: int| 0 <= c < k implies #[trigger] starts_group(r, c) == starts_group(g, c) by {
            if starts_group(g, c) {
                let w = choose|w: int| 0 <= w < g.len() && #[trigger] g[w].first_click == c;
                assert(r[w].first_click == c);
            }
            if starts_group(r, c) {
                let w = choose|w: int| 0 <= w < r.len() && #[trigger] r[w].first_click == c;
                if w < g.len() {
                    assert(g[w].first_click == c);
                }
            }
        }
        if joins {
            if starts_group(r, k) {
                let w = choose|w: int| 0 <= w < r.len() && #[trigger] r[w].first_click == k;
                assert(g[w].first_click < k);
            }
        } else {
            assert(starts_group(r, k));
            if k >= 1 {
                assert(g.len() > 0);
            }
        }
        if k > 0 {
            assert(starts_group(r, 0) == starts_group(g, 0));
        }
    }
}

/// The window of a zoom over a group: from a lead-in before its first click
/// (not before zero) to a hold after its last.
pub open spec fn initial_window(group: ClickGroup, lead_in_ms: u64, hold_ms: u64) -> (u64, u64) {
    ((if group.first_ms >= lead_in_ms { group.first_ms - lead_in_ms } else { 0 }) as u64, (group.last_ms + hold_ms) as u64)
}

/// The windows after the overlaps among the first `k` were resolved, each
/// overlapping pair meeting at the midpoint of the overlap.
pub open spec fn resolved_windows(windows: Seq<(u64, u64)>, k: int) -> Seq<(u64, u64)>
    decreases k,
{
    if k <= 1 {
        windows
    } else {
        let r = resolved_windows(windows, k - 1);
        let i = k - 1;
        if r[i].0 < r[i - 1].1 {
            let boundary = ((r[i].0 + r[i - 1].1) / 2) as u64;
            r.update(i - 1, (r[i - 1].0, boundary)).update(i, (boundary, r[i].1))
        } else {
            r
        }
    }
}

/// The overlapping neighbours' midpoints fit in a `u64`.
pub open spec fn midpoints_fit(windows: Seq<(u64, u64)>) -> bool {
    forall|i: int| 1 <= i < windows.len() && #[trigger] windows[i].0 < windows[i - 1].1
        ==> windows[i].0 + windows[i - 1].1 <= u64::MAX
}

proof fn lemma_resolved_shape(windows: Seq<(u64, u64)>, k: int)
    requires
        1 <= k <= windows.len(),
        midpoints_fit(windows),
    ensures
        resolved_windows(windows, k).len() == windows.len(),
        forall|j: int| k <= j < windows.len() ==> #[trigger] resolved_windows(windows, k)[j] == windows[j],
        resolved_windows(windows, k)[k - 1].1 == windows[k - 1].1,
        forall|j: int| 0 <= j < k - 1 ==> #[trigger] resolved_windows(windows, k)[j].1 <= resolved_windows(windows, k)[j + 1].0,
    decreases k,
{
    if k > 1 {
        lemma_resolved_shape(windows, k - 1);
        let r = resolved_windows(windows, k - 1);
        assert(r[k - 1] == windows[k - 1]);
    }
}

/// Plans the zoom windows of the click groups, with no two neighbours overlapping.
pub fn plan_zoom_windows(groups: &Vec<ClickGroup>, lead_in_ms: u64, hold_ms: u64) -> (windows: Vec<(u64, u64)>)
    requires
        forall|g: int| 0 <= g < groups@.len() ==> #[trigger] groups@[g].last_ms + hold_ms <= u64::MAX,
        midpoints_fit(groups@.map_values(|g: ClickGroup| initial_window(g, lead_in_ms, hold_ms))),
    ensures
        windows@ == resolved_windows(groups@.map_values(|g: ClickGroup| initial_window(g, lead_in_ms, hold_ms)), groups@.len() as int),
{
    let ghost initial = groups@.map_values(|g: ClickGroup| initial_window(g, lead_in_ms, hold_ms));
    let mut windows: Vec<(u64, u64)> = Vec::new();
    let mut g: usize = 0;
    while g < groups.len()
        invariant
            g <= groups@.len(),
            initial == groups@.map_values(|g: ClickGroup| initial_window(g, lead_in_ms, hold_ms)),
            forall|j: int| 0 <= j < groups@.len() ==> #[trigger] groups@[j].last_ms + hold_ms <= u64::MAX,
            windows@ == initial.take(g as int),
        decreases groups@.len() - g,
    {
        let group = groups[g];
        let start = if group.first_ms >= lead_in_ms { group.first_ms - lead_in_ms } else { 0 };
        windows.push((start, group.last_ms + hold_ms));
        g = g + 1;
        assert(windows@ =~= initial.take(g as int));
    }
    assert(initial.take(groups@.len() as int) =~= initial);
    let n = windows.len();
    if n == 0 {
        return windows;
    }
    let mut i: usize = 1;
    while i < n
        invariant
            1 <= i <= n,
            n == initial.len(),
            midpoints_fit(initial),
            windows@ == resolved_windows(initial, i as int),
        decreases n - i,
    {
        proof {
            lemma_resolved_shape(initial, i as int);
        }
        let current = windows[i];
        let previous = windows[i - 1];
        if current.0 < previous.1 {
            let boundary = (current.0 + previous.1) / 2;
            windows.set(i - 1, (previous.0, boundary));
            windows.set(i, (boundary, current.1));
        }
        i = i + 1;
    }
    windows
}

/// Planned zoom windows never overlap: each ends no later than the next begins.
pub proof fn lemma_planned_windows_do_not_overlap(windows: Seq<(u64, u64)>)
    requires
        midpoints_fit(windows),
    ensures
        forall|j: int| 0 <= j < windows.len() - 1 ==>
            #[trigger] resolved_windows(windows, windows.len() as int)[j].1 <= resolved_windows(windows, windows.len() as int)[j + 1].0,
{
    if windows.len() >= 1 {
        lemma_resolved_shape(windows, windows.len() as int);
    }
}

/// Windows whose starts and ends both never decrease, each starting no later
/// than it ends.
pub open spec fn windows_ordered(windows: Seq<(u64, u64)>) -> bool {
    &&& forall|i: int| 0 <= i < windows.len() ==> #[trigger] windows[i].0 <= windows[i].1
    &&& forall|i: int| 1 <= i < windows.len() ==> windows[i - 1].0 <= #[trigger] windows[i].0
    &&& forall|i: int| 1 <= i < windows.len() ==> windows[i - 1].1 <= #[trigger] windows[i].1
}

proof fn lemma_resolved_windows_are_proper(windows: Seq<(u64, u64)>, k: int)
    requires
        1 <= k <= windows.len(),
        midpoints_fit(windows),
        windows_ordered(windows),
    ensures
        forall|j: int| 0 <= j < k ==> #[trigger] resolved_windows(windows, k)[j].0 <= resolved_windows(windows, k)[j].1,
        resolved_windows(windows, k)[k - 1].0 == windows[k - 1].0
            || (k >= 2 && windows[k - 1].0 < windows[k - 2].1
                && resolved_windows(windows, k)[k - 1].0 == (windows[k - 1].0 + windows[k - 2].1) / 2),
    decreases k,
{
    lemma_resolved_shape(windows, k);
    if k > 1 {
        lemma_resolved_windows_are_proper(windows, k - 1);
        lemma_resolved_shape(windows, k - 1);
        let r = resolved_windows(windows, k - 1);
        let i = k - 1;
        assert(r[i] == windows[i]);
        assert(r[i - 1].1 == windows[i - 1].1);
        if r[i].0 < r[i - 1].1 {
            let boundary = ((r[i].0 + r[i - 1].1) / 2) as u64;
            assert(windows[i - 1].1 <= windows[i].1);
            assert(windows[i - 1].0 <= windows[i].0);
            if i >= 2 && r[i - 1].0 != windows[i - 1].0 {
                assert(windows[i - 2].1 <= windows[i - 1].1);
            }
            assert(r[i - 1].0 <= boundary);
            assert(boundary <= r[i].1);
        }
    }
}

/// The windows `plan_zoom_windows` gives for these groups.
pub open spec fn planned_windows(groups: Seq<ClickGroup>, lead_in_ms: u64, hold_ms: u64) -> Seq<(u64, u64)> {
    resolved_windows(groups.map_values(|g: ClickGroup| initial_window(g, lead_in_ms, hold_ms)), groups.len() as int)
}

/// Each planned zoom window starts no later than it ends, when the groups
/// come in time order: every group's first click no later than its last,
/// and both never decreasing from one group to the next (as `group_clicks`
/// gives them for click times that never decrease).
pub proof fn lemma_planned_windows_are_proper(groups: Seq<ClickGroup>, lead_in_ms: u64, hold_ms: u64)
    requires
        forall|g: int| 0 <= g < groups.len() ==> #[trigger] groups[g].first_ms <= groups[g].last_ms,
        forall|g: int| 1 <= g < groups.len() ==> groups[g - 1].first_ms <= #[trigger] groups[g].first_ms,
        forall|g: int| 1 <= g < groups.len() ==> groups[g - 1].last_ms <= #[trigger] groups[g].last_ms,
        forall|g: int| 0 <= g < groups.len() ==> #[trigger] groups[g].last_ms + hold_ms <= u64::MAX,
        midpoints_fit(groups.map_values(|g: ClickGroup| initial_window(g, lead_in_ms, hold_ms))),
    ensures
        forall|j: int| 0 <= j < groups.len() ==>
            #[trigger] planned_windows(groups, lead_in_ms, hold_ms)[j].0 <= planned_windows(groups, lead_in_ms, hold_ms)[j].1,
{
    let initial = groups.map_values(|g: ClickGroup| initial_window(g, lead_in_ms, hold_ms));
    assert forall|i: int| 1 <= i < initial.len() implies initial[i - 1].0 <= #[trigger] initial[i].0 by {
        assert(groups[i - 1].first_ms <= groups[i].first_ms);
    }
    assert forall|i: int| 1 <= i < initial.len() implies initial[i - 1].1 <= #[trigger] initial[i].1 by {
        assert(groups[i - 1].last_ms <= groups[i].last_ms);
        assert(groups[i - 1].last_ms + hold_ms <= u64::MAX);
    }
    assert forall|i: int| 0 <= i < initial.len() implies #[trigger] initial[i].0 <= initial[i].1 by {
        assert(groups[i].first_ms <= groups[i].last_ms);
    }
    if groups.len() >= 1 {
        lemma_resolved_windows_are_proper(initial, groups.len() as int);
    }
}

/// The generated zoom over a planned window, onto the given focus at the
/// given scale, easing like a spring.
pub fn generated_zoom(window: (u64, u64), focus: Point, scale: F64Bits, id: Uuid) -> (zoom: ZoomEvent)
    ensures
        zoom == (ZoomEvent { id, start_ms: window.0, end_ms: window.1, focus, scale, easing: Easing::Spring, generated: true }),
{
    ZoomEvent { id, start_ms: window.0, end_ms: window.1, focus, scale, easing: Easing::Spring, generated: true }
}

/// Where a zoom starting at `key` goes in a list sorted by start: after
/// every zoom that starts no later.
pub open spec fn insertion_point(s: Seq<ZoomEvent>, key: u64) -> int
    decreases s.len(),
{
    if s.len() == 0 {
        0
    } else if s[0].start_ms > key {
        0
    } else {
        1 + insertion_point(s.drop_first(), key)
    }
}

/// The zooms sorted by start time, zooms with equal starts keeping their order.
pub open spec fn sorted_by_start(s: Seq<ZoomEvent>) -> Seq<ZoomEvent>
    decreases s.len(),
{
    if s.len() == 0 {
        s
    } else {
        let r = sorted_by_start(s.drop_last());
        r.insert(insertion_point(r, s.last().start_ms), s.last())
    }
}

pub open spec fn starts_ascending(s: Seq<ZoomEvent>) -> bool {
    forall|i: int, j: int| 0 <= i <= j < s.len() ==> #[trigger] s[i].start_ms <= #[trigger] s[j].start_ms
}

/// The zooms the author placed by hand.
pub open spec fn manual_zooms(zooms: Seq<ZoomEvent>) -> Seq<ZoomEvent> {
    zooms.filter(|z: ZoomEvent| !z.generated)
}

/// A generated zoom cut at the end of the trimmed recording.
pub open spec fn trimmed_zoom(zoom: ZoomEvent, trim_end_ms: u64) -> ZoomEvent {
    ZoomEvent { end_ms: if zoom.end_ms <= trim_end_ms { zoom.end_ms } else { trim_end_ms }, ..zoom }
}

/// The generated zooms cut at the trim end, without those left empty.
pub open spec fn kept_generated(generated: Seq<ZoomEvent>, trim_end_ms: u64) -> Seq<ZoomEvent> {
    generated.map_values(|z: ZoomEvent| trimmed_zoom(z, trim_end_ms)).filter(|z: ZoomEvent| z.start_ms < z.end_ms)
}

/// The zooms of a scene after analysis: the manual ones and the kept
/// generated ones, sorted by start.
pub open spec fn merged_zooms(zooms: Seq<ZoomEvent>, generated: Seq<ZoomEvent>, trim_end_ms: u64) -> Seq<ZoomEvent> {
    sorted_by_start(manual_zooms(zooms) + kept_generated(generated, trim_end_ms))
}

proof fn lemma_insertion_point(s: Seq<ZoomEvent>, key: u64, p: int)
    requires
        0 <= p <= s.len(),
        forall|j: int| 0 <= j < p ==> #[trigger] s[j].start_ms <= key,
        p == s.len() || s[p].start_ms > key,
    ensures
        insertion_point(s, key) == p,
    decreases s.len(),
{
    if s.len() > 0 && p > 0 {
        assert forall|j: int| 0 <= j < p - 1 implies #[trigger] s.drop_first()[j].start_ms <= key by {
            assert(s.drop_first()[j] == s[j + 1]);
        }
        lemma_insertion_point(s.drop_first(), key, p - 1);
    }
}

proof fn lemma_insertion_point_bounds(s: Seq<ZoomEvent>, key: u64)
    requires
        starts_ascending(s),
    ensures
        0 <= insertion_point(s, key) <= s.len(),
        forall|j: int| 0 <= j < insertion_point(s, key) ==> #[trigger] s[j].start_ms <= key,
        forall|j: int| insertion_point(s, key) <= j < s.len() ==> #[trigger] s[j].start_ms > key,
    decreases s.len(),
{
    if s.len() > 0 && s[0].start_ms <= key {
        let t = s.drop_first();
        assert(starts_ascending(t)) by {
            assert forall|i: int, j: int| 0 <= i <= j < t.len() implies #[trigger] t[i].start_ms <= #[trigger] t[j].start_ms by {
                assert(s[i + 1].start_ms <= s[j + 1].start_ms);
            }
        }
        lemma_insertion_point_bounds(t, key);
        assert forall|j: int| 0 <= j < insertion_point(s, key) implies #[trigger] s[j].start_ms <= key by {
            if j > 0 { assert(s[j] == t[j - 1]); }
        }
        assert forall|j: int| insertion_point(s, key) <= j < s.len() implies #[trigger] s[j].start_ms > key by {
            assert(s[j] == t[j - 1]);
        }
    } else if s.len() > 0 {
        assert forall|j: int| 0 <= j < s.len() implies #[trigger] s[j].start_ms > key by {
            assert(s[0].start_ms <= s[j].start_ms);
        }
    }
}

/// Sorting by start orders the zooms by start and keeps every zoom, each
/// as often as it occurred.
pub proof fn lemma_sorted_by_start(s: Seq<ZoomEvent>)
    ensures
        starts_ascending(sorted_by_start(s)),
        sorted_by_start(s).to_multiset() == s.to_multiset(),
        sorted_by_start(s).len() == s.len(),
    decreases s.len(),
{
    broadcast use vstd::seq_lib::to_multiset_insert;
    if s.len() > 0 {
        let r = sorted_by_start(s.drop_last());
        lemma_sorted_by_start(s.drop_last());
        let z = s.last();
        let p = insertion_point(r, z.start_ms);
        lemma_insertion_point_bounds(r, z.start_ms);
        let out = r.insert(p, z);
        assert forall|i: int, j: int| 0 <= i <= j < out.len() implies #[trigger] out[i].start_ms <= #[trigger] out[j].start_ms by {
            if i < p && j < p {
                assert(out[i] == r[i] && out[j] == r[j]);
            } else if i < p && j == p {
                assert(out[i] == r[i]);
            } else if i < p {
                assert(out[i] == r[i] && out[j] == r[j - 1]);
            } else if i == p && j > p {
                assert(out[j] == r[j - 1]);
            } else if i > p {
                assert(out[i] == r[i - 1] && out[j] == r[j - 1]);
            }
        }
        vstd::seq_lib::to_multiset_build(s.drop_last(), z);
        assert(s.drop_last().push(z) =~= s);
    }
}

proof fn lemma_filter_subset(s: Seq<ZoomEvent>, pred: spec_fn(ZoomEvent) -> bool, z: ZoomEvent)
    requires
        s.filter(pred).contains(z),
    ensures
        s.contains(z),
        pred(z),
    decreases s.len(),
{
    reveal(Seq::filter);
    broadcast use vstd::seq_lib::group_filter_ensures;
    if s.len() > 0 {
        let rest = s.drop_last().filter(pred);
        if pred(s.last()) {
            if z != s.last() {
                let i = choose|i: int| 0 <= i < s.filter(pred).len() && s.filter(pred)[i] == z;
                assert(s.filter(pred) == rest.push(s.last()));
                assert(rest[i] == z);
                lemma_filter_subset(s.drop_last(), pred, z);
                let j = choose|j: int| 0 <= j < s.drop_last().len() && s.drop_last()[j] == z;
                assert(s[j] == z);
            }
        } else {
            lemma_filter_subset(s.drop_last(), pred, z);
            let j = choose|j: int| 0 <= j < s.drop_last().len() && s.drop_last()[j] == z;
            assert(s[j] == z);
        }
        let i = choose|i: int| 0 <= i < s.filter(pred).len() && s.filter(pred)[i] == z;
        s.lemma_filter_pred(pred, i);
    }
}

/// Analysis replaces only generated scene data: the result is sorted by
/// start, holds every manual zoom and the kept generated ones (each as often
/// as before), and every zoom in it is either a manual zoom of the scene or
/// a generated one that is non-empty and ends by the trim end.
pub proof fn lemma_analysis_replaces_only_generated(zooms: Seq<ZoomEvent>, generated: Seq<ZoomEvent>, trim_end_ms: u64)
    ensures
        ({
            let merged = merged_zooms(zooms, generated, trim_end_ms);
            &&& starts_ascending(merged)
            &&& merged.to_multiset() == manual_zooms(zooms).to_multiset().add(kept_generated(generated, trim_end_ms).to_multiset())
            &&& forall|z: ZoomEvent| zooms.contains(z) && !z.generated ==> #[trigger] merged.contains(z)
            &&& forall|z: ZoomEvent| #[trigger] merged.contains(z) ==>
                (zooms.contains(z) && !z.generated) || (z.start_ms < z.end_ms && z.end_ms <= trim_end_ms)
        }),
{
    broadcast use vstd::seq_lib::group_to_multiset_ensures;
    broadcast use vstd::multiset::group_multiset_axioms;
    let manual = manual_zooms(zooms);
    let kept = kept_generated(generated, trim_end_ms);
    let combined = manual + kept;
    let merged = sorted_by_start(combined);
    lemma_sorted_by_start(combined);
    vstd::seq_lib::lemma_multiset_commutative(manual, kept);
    assert forall|z: ZoomEvent| zooms.contains(z) && !z.generated implies #[trigger] merged.contains(z) by {
        let i = choose|i: int| 0 <= i < zooms.len() && zooms[i] == z;
        zooms.lemma_filter_contains(|z: ZoomEvent| !z.generated, i);
        assert(manual.to_multiset().count(z) > 0);
        assert(combined.to_multiset().count(z) > 0);
    }
    assert forall|z: ZoomEvent| #[trigger] merged.contains(z) implies
        (zooms.contains(z) && !z.generated) || (z.start_ms < z.end_ms && z.end_ms <= trim_end_ms) by {
        assert(combined.to_multiset().count(z) > 0);
        if manual.to_multiset().count(z) > 0 {
            lemma_filter_subset(zooms, |z: ZoomEvent| !z.generated, z);
        } else {
            assert(kept.to_multiset().count(z) > 0);
            let trimmed = generated.map_values(|g: ZoomEvent| trimmed_zoom(g, trim_end_ms));
            lemma_filter_subset(trimmed, |z: ZoomEvent| z.start_ms < z.end_ms, z);
            let i = choose|i: int| 0 <= i < trimmed.len() && trimmed[i] == z;
            assert(z == trimmed_zoom(generated[i], trim_end_ms));
        }
    }
}

/// Replaces the generated zooms of the scene with `generated` (cut at the
/// trim end, empty ones dropped), keeps the manual zooms, sorts the zooms
/// by start and records the cursor smoothing the analysis used.
pub fn apply_generated_zooms(scene: &mut Scene, generated: &Vec<ZoomEvent>, smoothing: F64Bits)
    ensures
        final(scene).zooms@ == merged_zooms(old(scene).zooms@, generated@, old(scene).trim_end_ms),
        final(scene).cursor_smoothing == smoothing,
        final(scene).schema_version == old(scene).schema_version,
        final(scene).trim_start_ms == old(scene).trim_start_ms,
        final(scene).trim_end_ms == old(scene).trim_end_ms,
        final(scene).crop == old(scene).crop,
        final(scene).blur_masks == old(scene).blur_masks,
        final(scene).click_emphasis == old(scene).click_emphasis,
{
    let trim_end = scene.trim_end_ms;
    let ghost zooms = scene.zooms@;
    let ghost manual_pred = |z: ZoomEvent| !z.generated;
    let mut combined: Vec<ZoomEvent> = Vec::new();
    let mut i: usize = 0;
    while i < scene.zooms.len()
        invariant
            i <= zooms.len(),
            zooms == scene.zooms@,
            manual_pred == (|z: ZoomEvent| !z.generated),
            combined@ == zooms.take(i as int).filter(manual_pred),
        decreases zooms.len() - i,
    {
        proof {
            assert(zooms.take(i + 1).drop_last() =~= zooms.take(i as int));
            reveal_with_fuel(Seq::filter, 1);
        }
        let zoom = scene.zooms[i];
        if !zoom.generated {
            combined.push(zoom);
        }
        i = i + 1;
    }
    assert(zooms.take(zooms.len() as int) =~= zooms);
    let ghost manual = combined@;
    let ghost trimmed = generated@.map_values(|z: ZoomEvent| trimmed_zoom(z, trim_end));
    let ghost keep_pred = |z: ZoomEvent| z.start_ms < z.end_ms;
    let mut k: usize = 0;
    while k < generated.len()
        invariant
            k <= generated@.len(),
            trimmed == generated@.map_values(|z: ZoomEvent| trimmed_zoom(z, trim_end)),
            keep_pred == (|z: ZoomEvent| z.start_ms < z.end_ms),
            combined@ == manual + trimmed.take(k as int).filter(keep_pred),
        decreases generated@.len() - k,
    {
        proof {
            assert(trimmed.take(k + 1).drop_last() =~= trimmed.take(k as int));
            reveal_with_fuel(Seq::filter, 1);
        }
        let zoom = generated[k];
        let end_ms = if zoom.end_ms <= trim_end { zoom.end_ms } else { trim_end };
        let cut = ZoomEvent { end_ms, ..zoom };
        assert(cut == trimmed[k as int]);
        if cut.start_ms < cut.end_ms {
            combined.push(cut);
        }
        k = k + 1;
    }
    assert(trimmed.take(generated@.len() as int) =~= trimmed);
    let ghost all = combined@;
    assert(all == manual_zooms(zooms) + kept_generated(generated@, trim_end));
    let mut sorted: Vec<ZoomEvent> = Vec::new();
    let mut j: usize = 0;
    while j < combined.len()
        invariant
            j <= all.len(),
            all == combined@,
            sorted@ == sorted_by_start(all.take(j as int)),
        decreases all.len() - j,
    {
        let zoom = combined[j];
        proof {
            assert(all.take(j + 1).drop_last() =~= all.take(j as int));
            lemma_sorted_by_start(all.take(j as int));
        }
        let mut p: usize = 0;
        while p < sorted.len() && sorted[p].start_ms <= zoom.start_ms
            invariant
                p <= sorted@.len(),
                forall|q: int| 0 <= q < p ==> #[trigger] sorted@[q].start_ms <= zoom.start_ms,
            decreases sorted@.len() - p,
        {
            p = p + 1;
        }
        proof {
            lemma_insertion_point(sorted@, zoom.start_ms, p as int);
        }
        sorted.insert(p, zoom);
        j = j + 1;
    }
    assert(all.take(all.len() as int) =~= all);
    scene.zooms = sorted;
    scene.cursor_smoothing = smoothing;
}

} // verus!
