//! What the notions that the rules are made of come to, in terms of the windows, outputs and events
//! that go in.
use crate::args::{all_digits, count, decimal, number, request, Args, Request};
use crate::cleave::{listed, widths_in_use};
use crate::effect::{tasks_for, Action, Effect, SnapView, Task, Trigger};
use crate::fraction::{full_width, near_share, quotient_bits};
use crate::laws::{law_options_in_turn, law_ordered};
use crate::niri::{window_of, News};
use crate::rules::{screenful_start, Desk};
use crate::window::{
    all_placed, column, columns, height, ids, lemma_columns, lemma_ordered, lemma_with_id, ordered,
    tiled_on, with_id, without_id, WindowInfo,
};
use vstd::prelude::*;

verus! {

/// Whether a window stands in a column.
pub open spec fn stands_in(window: WindowInfo, col: usize) -> bool {
    match window.position {
        Some((c, _)) => c == col,
        None => false,
    }
}

/// The places in a list at which windows of a column stand.
pub open spec fn members(windows: Seq<WindowInfo>, col: usize) -> Set<int> {
    Set::new(|i: int| 0 <= i < windows.len() && stands_in(windows[i], col))
}

/// A column is as high as there are windows in it.
pub proof fn law_height(windows: Seq<WindowInfo>, col: usize)
    ensures
        members(windows, col).finite(),
        members(windows, col).len() == height(windows, col),
    decreases windows.len(),
{
    let all = members(windows, col);
    if windows.len() == 0 {
        assert(all =~= Set::empty());
    } else {
        let rest = windows.drop_last();
        let fewer = members(rest, col);
        law_height(rest, col);
        let last = windows.len() - 1;
        assert forall|i: int| 0 <= i < last implies windows[i] == rest[i] by {}
        if stands_in(windows[last], col) {
            assert(all =~= fewer.insert(last));
            assert(!fewer.contains(last));
        } else {
            assert(all =~= fewer);
        }
    }
}

/// The columns of windows are those that some window stands in.
pub proof fn law_columns(windows: Seq<WindowInfo>)
    ensures
        columns(windows).finite(),
        forall|col: usize| #[trigger]
            columns(windows).contains(col) <==> exists|i: int|
                0 <= i < windows.len() && stands_in(#[trigger] windows[i], col),
{
    lemma_columns(windows, 0);
    assert forall|col: usize| #[trigger] columns(windows).contains(col) <==> exists|i: int|
        0 <= i < windows.len() && stands_in(#[trigger] windows[i], col) by {
        lemma_columns(windows, col);
        if columns(windows).contains(col) {
            let i = choose|i: int|
                0 <= i < windows.len() && column(#[trigger] windows[i]) == Some(col);
            assert(stands_in(windows[i], col));
        }
        if exists|i: int| 0 <= i < windows.len() && stands_in(#[trigger] windows[i], col) {
            let i = choose|i: int| 0 <= i < windows.len() && stands_in(#[trigger] windows[i], col);
            assert(column(windows[i]) == Some(col));
        }
    }
}

/// Windows in order never go back: each stands in a column further right than those before it, or
/// further down in the same one. All of them are there.
pub proof fn law_left_to_right(windows: Seq<WindowInfo>)
    requires
        forall|i: int| 0 <= i < windows.len() ==> (#[trigger] windows[i]).position is Some,
    ensures
        ordered(windows).len() == windows.len(),
        forall|w: WindowInfo| #[trigger] ordered(windows).contains(w) <==> windows.contains(w),
        forall|i: int, j: int|
            0 <= i < j < windows.len() ==> ({
                let (col, place) = (#[trigger] ordered(windows)[i]).position->0;
                let (next_col, next_place) = (#[trigger] ordered(windows)[j]).position->0;
                col < next_col || (col == next_col && place <= next_place)
            }),
{
    law_ordered(windows);
    lemma_same_windows(windows);
}

/// Ordering windows neither adds nor loses one.
pub proof fn lemma_same_windows(windows: Seq<WindowInfo>)
    ensures
        ordered(windows).len() == windows.len(),
        forall|w: WindowInfo| #[trigger] ordered(windows).contains(w) <==> windows.contains(w),
{
    broadcast use vstd::seq_lib::group_to_multiset_ensures;

    lemma_ordered(windows);
    let row = ordered(windows);
    assert forall|w: WindowInfo| #[trigger] row.contains(w) <==> windows.contains(w) by {
        assert(row.to_multiset().contains(w) == row.contains(w));
        assert(windows.to_multiset().contains(w) == windows.contains(w));
    }
}

/// A row of windows starts its last screenful behind a multiple of six windows, and at most six are
/// left for it.
pub proof fn law_six_at_a_time(tiles: nat)
    requires
        tiles > 0,
    ensures
        screenful_start(tiles) % 6 == 0,
        1 <= tiles - screenful_start(tiles) <= 6,
        tiles <= 6 ==> screenful_start(tiles) == 0,
        screenful_start(tiles + 6) == screenful_start(tiles) + 6,
{
}

/// A window is found by its id if there is one, and of several the first one is found.
pub proof fn law_found_by_id(windows: Seq<WindowInfo>, id: u64, at: int)
    requires
        0 <= at < windows.len(),
        windows[at].id == id,
        forall|i: int| 0 <= i < at ==> (#[trigger] windows[i]).id != id,
    ensures
        with_id(windows, id) == Some(windows[at]),
    decreases windows.len(),
{
    if at > 0 {
        let rest = windows.drop_first();
        assert(windows[0].id != id);
        assert forall|i: int| 0 <= i < at - 1 implies (#[trigger] rest[i]).id != id by {
            assert(rest[i] == windows[i + 1]);
        }
        law_found_by_id(rest, id, at - 1);
    }
}

/// A window whose id nobody has is not found.
pub proof fn law_not_found(windows: Seq<WindowInfo>, id: u64)
    requires
        forall|i: int| 0 <= i < windows.len() ==> (#[trigger] windows[i]).id != id,
    ensures
        with_id(windows, id) is None,
{
    lemma_with_id(windows, id);
    if let Some(found) = with_id(windows, id) {
        let k = choose|k: int| 0 <= k < windows.len() && windows[k] == found;
        assert(windows[k].id != id);
    }
}

/// One window more at the end of a list, for each way of picking windows from it: it is picked behind
/// those picked before when it qualifies, and makes no difference otherwise.
pub proof fn law_one_window_more(
    desk: Desk,
    windows: Seq<WindowInfo>,
    window: WindowInfo,
    id: u64,
    ws: u64,
)
    ensures
        without_id(Seq::empty(), id) == Seq::<WindowInfo>::empty(),
        tiled_on(Seq::empty(), ws) == Seq::<WindowInfo>::empty(),
        desk.maximized(Seq::empty()) == Seq::<WindowInfo>::empty(),
        ids(Seq::empty()) == Seq::<u64>::empty(),
        ids(windows.push(window)) == ids(windows).push(window.id),
        without_id(windows.push(window), id) == if window.id != id {
            without_id(windows, id).push(window)
        } else {
            without_id(windows, id)
        },
        tiled_on(windows.push(window), ws) == if window.workspace_id == Some(ws)
            && !window.is_floating {
            tiled_on(windows, ws).push(window)
        } else {
            tiled_on(windows, ws)
        },
        desk.maximized(windows.push(window)) == if desk.is_maximized(window) {
            desk.maximized(windows).push(window)
        } else {
            desk.maximized(windows)
        },
{
    reveal(Seq::filter);
    assert(windows.push(window).drop_last() =~= windows);
    assert(ids(windows.push(window)) =~= ids(windows).push(window.id));
    assert(ids(Seq::empty()) =~= Seq::<u64>::empty());
}

/// A reply is read window by window.
pub proof fn law_one_listed_more(windows: Seq<niri_ipc::Window>, window: niri_ipc::Window)
    ensures
        listed(Seq::empty()) == Seq::<WindowInfo>::empty(),
        listed(windows.push(window)) == listed(windows).push(window_of(window)),
{
    assert(listed(windows.push(window)) =~= listed(windows).push(window_of(window)));
    assert(listed(Seq::empty()) =~= Seq::<WindowInfo>::empty());
}

/// The width that an entry of a reply gives to a name, if it has that name and is in use.
pub open spec fn gives(output: (String, Option<u32>), name: Seq<char>) -> Option<u32> {
    if output.0@ == name {
        output.1
    } else {
        None
    }
}

/// A name is known after outputs are taken in exactly when one of them has that name and is in use.
/// Where it stands and what the others are makes no difference.
pub proof fn law_outputs_in_use(outputs: Seq<(String, Option<u32>)>, name: Seq<char>)
    ensures
        widths_in_use(outputs).contains_key(name) <==> exists|i: int|
            0 <= i < outputs.len() && gives(#[trigger] outputs[i], name) is Some,
    decreases outputs.len(),
{
    if outputs.len() > 0 {
        let rest = outputs.drop_last();
        let last = outputs.len() - 1;
        law_outputs_in_use(rest, name);
        if widths_in_use(rest).contains_key(name) {
            let i = choose|i: int| 0 <= i < rest.len() && gives(#[trigger] rest[i], name) is Some;
            assert(gives(outputs[i], name) is Some);
        }
        if gives(outputs[last], name) is None && (exists|i: int|
            0 <= i < outputs.len() && gives(#[trigger] outputs[i], name) is Some) {
            let i = choose|i: int|
                0 <= i < outputs.len() && gives(#[trigger] outputs[i], name) is Some;
            assert(gives(rest[i], name) is Some);
        }
        assert(gives(outputs[last], name) is Some ==> widths_in_use(outputs).contains_key(name));
    }
}

/// The width of a name that is known is that of the last entry that has the name and is in use.
pub proof fn law_last_width(outputs: Seq<(String, Option<u32>)>, name: Seq<char>, at: int)
    requires
        0 <= at < outputs.len(),
        gives(outputs[at], name) is Some,
        forall|j: int| at < j < outputs.len() ==> gives(#[trigger] outputs[j], name) is None,
    ensures
        widths_in_use(outputs).contains_key(name),
        Some(widths_in_use(outputs)[name]) == gives(outputs[at], name),
    decreases outputs.len(),
{
    let rest = outputs.drop_last();
    let last = outputs.len() - 1;
    if at < last {
        assert(gives(outputs[last], name) is None);
        assert forall|j: int| at < j < rest.len() implies gives(
            #[trigger] rest[j],
            name,
        ) is None by {
            assert(rest[j] == outputs[j]);
        }
        law_last_width(rest, name, at);
    }
}

/// A window is measured against the monitor of the output that its workspace is on, and only if all
/// of these are known. Nothing but its workspace and its width matters.
pub proof fn law_measured(desk: Desk, window: WindowInfo, ws: u64, name: Seq<char>)
    ensures
        window.workspace_id == Some(ws) && desk.known.outputs.contains_key(ws)
            && desk.known.outputs[ws] == Some(name) && desk.monitors.contains_key(name) ==> {
            &&& desk.monitor_of(window) == Some(desk.monitors[name])
            &&& desk.width_fraction(window) == Some(
                quotient_bits(window.tile_width, desk.monitors[name]),
            )
        },
        window.workspace_id is None ==> desk.monitor_of(window) is None,
        window.workspace_id == Some(ws) && !desk.known.outputs.contains_key(ws)
            ==> desk.monitor_of(window) is None,
        window.workspace_id == Some(ws) && desk.known.outputs.contains_key(ws)
            && desk.known.outputs[ws] is None ==> desk.monitor_of(window) is None,
        window.workspace_id == Some(ws) && desk.known.outputs.contains_key(ws)
            && desk.known.outputs[ws] == Some(name) && !desk.monitors.contains_key(name)
            ==> desk.monitor_of(window) is None,
        desk.monitor_of(window) is None ==> {
            &&& desk.width_fraction(window) is None
            &&& !desk.is_maximized(window)
            &&& forall|n: nat| !desk.has_share(window, n)
        },
{
}

/// Whether a window's monitor is known and its width over that of the monitor is within the tolerance
/// of one `columns`th.
pub open spec fn spans(desk: Desk, window: WindowInfo, columns: nat) -> bool {
    desk.monitor_of(window) matches Some(width) && near_share(
        quotient_bits(window.tile_width, width),
        columns,
    )
}

/// A window has a share exactly when its measured width is near it, and is maximized exactly when its
/// measured width counts as the full one.
pub proof fn law_told_by_the_measured_width(desk: Desk, window: WindowInfo, columns: nat)
    ensures
        desk.has_share(window, columns) <==> spans(desk, window, columns),
        desk.is_maximized(window) <==> (desk.monitor_of(window) matches Some(width) && full_width(
            quotient_bits(window.tile_width, width),
        )),
{
}

/// Screenfuls are as they should be exactly when each column that is in use holds two windows and the
/// measured width of each window is near a third.
pub proof fn law_intact(desk: Desk, windows: Seq<WindowInfo>)
    ensures
        desk.intact(windows) <==> {
            &&& forall|i: int, col: usize|
                0 <= i < windows.len() && #[trigger] stands_in(windows[i], col) ==> members(
                    windows,
                    col,
                ).len() == 2
            &&& forall|i: int| 0 <= i < windows.len() ==> spans(desk, #[trigger] windows[i], 3)
        },
{
    assert forall|col: usize| #[trigger] height(windows, col) == members(windows, col).len() by {
        law_height(windows, col);
    }
    if desk.intact(windows) {
        assert forall|i: int, col: usize|
            0 <= i < windows.len() && #[trigger] stands_in(windows[i], col) implies members(
            windows,
            col,
        ).len() == 2 by {
            law_height(windows, col);
            assert(members(windows, col).contains(i));
            assert(height(windows, col) > 0);
        }
        assert forall|i: int| 0 <= i < windows.len() implies spans(
            desk,
            #[trigger] windows[i],
            3,
        ) by {
            assert(desk.has_share(windows[i], 3));
        }
    }
    if (forall|i: int, col: usize|
        0 <= i < windows.len() && #[trigger] stands_in(windows[i], col) ==> members(
            windows,
            col,
        ).len() == 2) && (forall|i: int|
        0 <= i < windows.len() ==> spans(desk, #[trigger] windows[i], 3)) {
        assert forall|col: usize| #[trigger] height(windows, col) > 0 implies height(windows, col)
            == 2 by {
            lemma_columns(windows, col);
            let i = choose|i: int|
                0 <= i < windows.len() && column(#[trigger] windows[i]) == Some(col);
            assert(stands_in(windows[i], col));
        }
    }
}

/// Whether every window's measured width is near one `columns`th.
pub open spec fn all_span(desk: Desk, windows: Seq<WindowInfo>, columns: nat) -> bool {
    forall|i: int| 0 <= i < windows.len() ==> spans(desk, #[trigger] windows[i], columns)
}

/// The common share of windows is the largest one from a half to an eighth that all of them are near.
pub proof fn law_common_share(desk: Desk, windows: Seq<WindowInfo>)
    ensures
        match desk.common_share(windows, 2) {
            Some(share) => {
                &&& 2 <= share <= 8
                &&& all_span(desk, windows, share)
                &&& forall|k: nat| 2 <= k < share ==> !#[trigger] all_span(desk, windows, k)
            },
            None => forall|k: nat| 2 <= k <= 8 ==> !#[trigger] all_span(desk, windows, k),
        },
{
    lemma_common_share(desk, windows, 2);
}

proof fn lemma_all_share(desk: Desk, windows: Seq<WindowInfo>, columns: nat)
    ensures
        desk.all_share(windows, columns) <==> all_span(desk, windows, columns),
{
    if desk.all_share(windows, columns) {
        assert forall|i: int| 0 <= i < windows.len() implies spans(
            desk,
            #[trigger] windows[i],
            columns,
        ) by {
            assert(desk.has_share(windows[i], columns));
        }
    }
    if all_span(desk, windows, columns) {
        assert forall|i: int| 0 <= i < windows.len() implies desk.has_share(
            #[trigger] windows[i],
            columns,
        ) by {
            assert(spans(desk, windows[i], columns));
        }
    }
}

proof fn lemma_common_share(desk: Desk, windows: Seq<WindowInfo>, from: nat)
    ensures
        match desk.common_share(windows, from) {
            Some(share) => {
                &&& from <= share <= 8
                &&& all_span(desk, windows, share)
                &&& forall|k: nat| from <= k < share ==> !#[trigger] all_span(desk, windows, k)
            },
            None => forall|k: nat| from <= k <= 8 ==> !#[trigger] all_span(desk, windows, k),
        },
    decreases 9 - from,
{
    lemma_all_share(desk, windows, from);
    if from <= 8 && !desk.all_share(windows, from) {
        lemma_common_share(desk, windows, from + 1);
    }
}

/// After a window has left, the windows of the last screenful are spread over the whole width. This is
/// so for every screenful of two windows or more, paired or not: when the measured widths are all near
/// one share, `share` being the largest such, that is not the one that its columns call for, each
/// window is resized to one over the number of columns, and the snap waits for just that. When it is
/// the one, or when there is none, nothing is done.
pub proof fn law_spread_over_the_width(
    desk: Desk,
    ws: u64,
    tiled: Seq<WindowInfo>,
    focused: Option<u64>,
)
    requires
        0 < tiled.len() <= desk.max_tiles,
        forall|i: int| 0 <= i < tiled.len() ==> (#[trigger] tiled[i]).position is Some,
        desk.intact(ordered(tiled).take(screenful_start(tiled.len()) as int)),
        tiled.len() >= screenful_start(tiled.len()) + 2,
    ensures
        ({
            let group = ordered(tiled).skip(screenful_start(tiled.len()) as int);
            let outcome = desk.departure(ws, tiled, focused);
            let count = columns(group).len();
            &&& forall|share: nat|
                2 <= share <= 8 && share != count && #[trigger] all_span(desk, group, share) && (
                forall|k: nat| 2 <= k < share ==> !#[trigger] all_span(desk, group, k)) ==> {
                    &&& forall|i: int|
                        0 <= i < group.len() ==> outcome.effects.contains(
                            Effect::Do(
                                Action::SetWindowWidth {
                                    id: (#[trigger] group[i]).id,
                                    columns: count as usize,
                                },
                            ),
                        )
                    &&& outcome.snap matches Some(snap) && snap.ws == ws && snap.leftmost
                        == group[0].id && snap.columns == count && snap.ids.len() == group.len()
                        && forall|i: int|
                        0 <= i < group.len() ==> snap.ids[i] == (#[trigger] group[i]).id
                    &&& outcome.effects.len() == group.len() + 1
                }
            &&& 2 <= count <= 8 && all_span(desk, group, count) && (forall|k: nat|
                2 <= k < count ==> !#[trigger] all_span(desk, group, k)) ==> outcome.effects.len()
                == 0 && outcome.snap is None
            &&& (forall|k: nat| 2 <= k <= 8 ==> !#[trigger] all_span(desk, group, k))
                ==> outcome.effects.len() == 0 && outcome.snap is None
        }),
{
    let start = screenful_start(tiled.len()) as int;
    let row = ordered(tiled);
    let group = row.skip(start);
    let outcome = desk.departure(ws, tiled, focused);
    let count = columns(group).len();
    lemma_ordered(tiled);
    lemma_columns(group, 0);
    law_common_share(desk, group);
    assert(all_placed(tiled));
    if let Some(chosen) = desk.common_share(group, 2) {
        if chosen != count {
            assert forall|i: int| 0 <= i < group.len() implies outcome.effects.contains(
                Effect::Do(
                    Action::SetWindowWidth {
                        id: (#[trigger] group[i]).id,
                        columns: count as usize,
                    },
                ),
            ) by {
                assert(ids(group)[i] == group[i].id);
                assert(outcome.effects[i + 1] == Effect::Do(
                    Action::SetWindowWidth { id: group[i].id, columns: count as usize },
                ));
            }
        }
    }
    assert forall|share: nat|
        2 <= share <= 8 && #[trigger] all_span(desk, group, share) && (forall|k: nat|
            2 <= k < share ==> !#[trigger] all_span(desk, group, k)) implies desk.common_share(
        group,
        2,
    ) == Some(share) by {
        if let Some(chosen) = desk.common_share(group, 2) {
            if chosen < share {
                assert(!all_span(desk, group, chosen));
            }
            if share < chosen {
                assert(!all_span(desk, group, share));
            }
        }
    }
}

/// Whether the window known under an id is there and its measured width is near one `columns`th.
pub open spec fn has_taken_on(desk: Desk, id: u64, columns: nat) -> bool {
    desk.known.windows.contains_key(id) && spans(desk, desk.known.windows[id], columns)
}

/// The view is snapped exactly when a snap is waited for, its time is not up, a tiled window of the
/// workspace has the focus, and each window that the snap lists is there and has taken on its width.
/// The leftmost window is focused first then, and the focus is back where it was in the end. It is
/// waited for no longer then, nor when its time is up or a window is gone; otherwise it still is.
pub proof fn law_snapped_when_all_are_resized(desk: Desk, now: u64, focused: Option<u64>)
    ensures
        ({
            let (pending, effects) = desk.snapping(now, focused);
            &&& desk.pending is None ==> effects.len() == 0 && pending is None
            &&& desk.pending matches Some(waited) ==> {
                let snap = waited.snap;
                let there = forall|i: int|
                    0 <= i < snap.ids.len() ==> desk.known.windows.contains_key(
                        #[trigger] snap.ids[i],
                    );
                let resized = forall|i: int|
                    0 <= i < snap.ids.len() ==> has_taken_on(
                        desk,
                        #[trigger] snap.ids[i],
                        snap.columns as nat,
                    );
                &&& effects.len() > 0 <==> now <= waited.expires && focused is Some && resized
                &&& effects.len() > 0 ==> {
                    &&& effects.len() == if focused == Some(snap.leftmost) {
                        2int
                    } else {
                        3
                    }
                    &&& effects[1] == Effect::Do(Action::FocusWindow { id: snap.leftmost })
                    &&& effects.last() == Effect::Do(Action::FocusWindow { id: focused->0 })
                }
                &&& pending is None <==> effects.len() > 0 || now > waited.expires || !there
                &&& pending is Some ==> pending == Some(waited)
            }
        }),
{
    if let Some(waited) = desk.pending {
        let snap = waited.snap;
        if desk.all_present(snap.ids) && desk.all_resized(snap) {
            assert forall|i: int| 0 <= i < snap.ids.len() implies has_taken_on(
                desk,
                #[trigger] snap.ids[i],
                snap.columns as nat,
            ) by {
                assert(desk.known.windows.contains_key(snap.ids[i]));
                assert(desk.has_share(desk.known.windows[snap.ids[i]], snap.columns as nat));
            }
        }
        if forall|i: int|
            0 <= i < snap.ids.len() ==> has_taken_on(
                desk,
                #[trigger] snap.ids[i],
                snap.columns as nat,
            ) {
            assert forall|i: int| 0 <= i < snap.ids.len() implies desk.known.windows.contains_key(
                #[trigger] snap.ids[i],
            ) && desk.has_share(desk.known.windows[snap.ids[i]], snap.columns as nat) by {
                assert(has_taken_on(desk, snap.ids[i], snap.columns as nat));
            }
        }
    }
}

/// A snap is waited for from when all steps were sent until a second later.
pub proof fn law_waits_a_second(desk: Desk, snap: SnapView, now: u64, later: u64)
    requires
        now + 1_000_000_000 <= u64::MAX,
    ensures
        ({
            let waiting = Desk { pending: desk.concluded(true, Some(snap), now), ..desk };
            &&& waiting.pending matches Some(waited) && waited.snap == snap
            &&& later > now + 1_000_000_000 ==> waiting.snapping(later, None).0 is None
            &&& later <= now + 1_000_000_000 && (forall|i: int|
                0 <= i < snap.ids.len() ==> desk.known.windows.contains_key(#[trigger] snap.ids[i]))
                ==> waiting.snapping(later, None).0 == waiting.pending
            &&& desk.concluded(false, Some(snap), now) == desk.pending
            &&& desk.concluded(true, None, now) == desk.pending
        }),
{
}

/// When one window has the focus, it is the answer to which one does; when none has it, there is no
/// such window. The same holds of the tiled windows of a workspace. Should several claim the focus, one
/// of them is the answer.
pub proof fn law_who_has_the_focus(desk: Desk, key: u64, ws: u64, answer: Option<u64>)
    ensures
        ({
            let windows = desk.known.windows;
            &&& windows.contains_key(key) && windows[key].is_focused && (forall|other: u64|
                #[trigger] windows.contains_key(other) && windows[other].is_focused ==> other
                    == key) ==> (desk.may_be_focused(answer) <==> answer == Some(windows[key].id))
            &&& (forall|other: u64| #[trigger]
                windows.contains_key(other) ==> !windows[other].is_focused) ==> (
            desk.may_be_focused(answer) <==> answer is None)
            &&& windows.contains_key(key) && windows[key].is_focused && !windows[key].is_floating
                && windows[key].workspace_id == Some(ws) && (forall|other: u64| #[trigger]
                windows.contains_key(other) && windows[other].is_focused ==> other == key) ==> (
            desk.may_be_focused_on(ws, answer) <==> answer == Some(windows[key].id))
            &&& windows.contains_key(key) && windows[key].is_focused ==> desk.may_be_focused(
                Some(windows[key].id),
            ) && !desk.may_be_focused(None)
            &&& windows.contains_key(key) && windows[key].is_focused && !windows[key].is_floating
                && windows[key].workspace_id == Some(ws) ==> desk.may_be_focused_on(
                ws,
                Some(windows[key].id),
            ) && !desk.may_be_focused_on(ws, None)
            &&& desk.may_be_focused(answer) && answer is Some ==> exists|other: u64| #[trigger]
                windows.contains_key(other) && windows[other].is_focused && answer == Some(
                    windows[other].id,
                )
            &&& desk.may_be_focused_on(ws, answer) && answer is Some ==> exists|other: u64|
                #[trigger]
                windows.contains_key(other) && windows[other].is_focused
                    && !windows[other].is_floating && windows[other].workspace_id == Some(ws)
                    && answer == Some(windows[other].id)
            &&& (forall|other: u64| #[trigger]
                windows.contains_key(other) && windows[other].is_focused
                    ==> windows[other].is_floating || windows[other].workspace_id != Some(ws)) ==> (
            desk.may_be_focused_on(ws, answer) <==> answer is None)
        }),
{
    let windows = desk.known.windows;
    if windows.contains_key(key) && windows[key].is_focused {
        assert(desk.may_be_focused(Some(windows[key].id)));
    }
}

/// What a report of a window calls for. A tiled window that was not known arrives where it is, if it is
/// anywhere; one that was known on another workspace, or on none, has moved from there; anything else
/// calls for nothing.
pub proof fn law_reported_window(desk: Desk, window: WindowInfo)
    ensures
        ({
            let trigger = desk.plan(News::WindowOpenedOrChanged { window });
            let before = desk.known.windows;
            &&& window.is_floating ==> trigger is None
            &&& forall|ws: u64|
                !window.is_floating && !before.contains_key(window.id) && window.workspace_id
                    == Some(ws) ==> trigger == Some(Trigger::Arrived { id: window.id, ws })
            &&& !before.contains_key(window.id) && window.workspace_id is None ==> trigger is None
            &&& !window.is_floating && before.contains_key(window.id)
                && before[window.id].workspace_id != window.workspace_id ==> trigger == Some(
                Trigger::Moved {
                    id: window.id,
                    to: window.workspace_id,
                    from: before[window.id].workspace_id,
                },
            )
            &&& before.contains_key(window.id) && before[window.id].workspace_id
                == window.workspace_id ==> trigger is None
        }),
{
}

/// What the other events call for. A closed window leaves the workspace that it was known to be on.
pub proof fn law_other_events(desk: Desk, news: News, id: u64)
    ensures
        desk.known.windows.contains_key(id) ==> desk.plan(News::WindowClosed { id }) == Some(
            Trigger::Closed { from: desk.known.windows[id].workspace_id },
        ),
        !desk.known.windows.contains_key(id) ==> desk.plan(News::WindowClosed { id }) == Some(
            Trigger::Closed { from: None },
        ),
        news is WorkspacesChanged ==> desk.plan(news) == Some(Trigger::OutputsMaybeChanged),
        !(news is WorkspacesChanged) && !(news is WindowOpenedOrChanged) && !(news is WindowClosed)
            ==> desk.plan(news) is None,
{
}

/// What there is to do. A workspace is settled for an arrival exactly when a window arrived on it or
/// moved to it, for a departure exactly when one was closed on it or moved from it, arrivals first; the
/// monitors are read again exactly when outputs may have changed. Nothing is done twice.
pub proof fn law_tasks(trigger: Option<Trigger>, follow: bool, id: u64, ws: u64)
    ensures
        ({
            let list = tasks_for(trigger, follow);
            &&& list.contains(Task::SettleArrival { id, ws }) <==> trigger == Some(
                Trigger::Arrived { id, ws },
            ) || (follow && (trigger matches Some(Trigger::Moved { id: moved, to, .. }) && moved
                == id && to == Some(ws)))
            &&& list.contains(Task::SettleDeparture { ws }) <==> trigger == Some(
                Trigger::Closed { from: Some(ws) },
            ) || (follow && (trigger matches Some(Trigger::Moved { from, .. }) && from == Some(ws)))
            &&& list.contains(Task::RefreshMonitors) <==> trigger == Some(
                Trigger::OutputsMaybeChanged,
            )
            &&& list.no_duplicates()
            &&& forall|i: int, j: int|
                0 <= i < list.len() && 0 <= j < list.len() && (#[trigger] list[i]) is SettleArrival
                    && (#[trigger] list[j]) is SettleDeparture ==> i < j
        }),
{
    let list = tasks_for(trigger, follow);
    if list.len() > 0 {
        assert(list.contains(list[0]));
    }
    if list.len() > 1 {
        assert(list.contains(list[1]));
    }
    assert(list.len() <= 2);
}

/// One argument more on a command line that has asked for a run so far.
pub proof fn law_one_argument_more(
    args: Seq<Seq<char>>,
    settings: Args,
    so_far: Args,
    next: Seq<char>,
    text: Seq<char>,
)
    requires
        request(args, settings) == Request::Run(so_far),
    ensures
        next == "-M"@ || next == "--no-move"@ ==> request(args.push(next), settings)
            == Request::Run(Args { max_tiles: so_far.max_tiles, apply_on_move: false }),
        next == "-h"@ || next == "--help"@ ==> request(args.push(next), settings) == Request::Help,
        next == "-n"@ ==> request(args.push(next), settings) == Request::BadCount,
        next == "-n"@ ==> request(args.push(next).push(text), settings) == (match count(text) {
            Some(n) => Request::Run(Args { max_tiles: n, apply_on_move: so_far.apply_on_move }),
            None => Request::BadCount,
        }),
        next != "-M"@ && next != "--no-move"@ && next != "-h"@ && next != "--help"@ && next
            != "-n"@ ==> request(args.push(next), settings) == Request::UnknownOption(next),
{
    reveal_strlit("-n");
    reveal_strlit("-M");
    reveal_strlit("--no-move");
    reveal_strlit("-h");
    reveal_strlit("--help");
    assert("-n"@.len() == 2 && "-M"@.len() == 2 && "-h"@.len() == 2 && "--no-move"@.len() == 9
        && "--help"@.len() == 6);
    assert("-n"@[1] == 'n' && "-M"@[1] == 'M' && "-h"@[1] == 'h');
    reveal_with_fuel(request, 3);
    law_options_in_turn(args, seq![next], settings);
    assert(args + seq![next] =~= args.push(next));
    assert(seq![next].skip(1) =~= Seq::empty());
    law_options_in_turn(args, seq![next, text], settings);
    assert(args + seq![next, text] =~= args.push(next).push(text));
    assert(seq![next, text].skip(2) =~= Seq::empty());
}

/// Numbers are read as decimals: each further digit makes ten times as much and adds itself, a plus
/// sign in front makes no difference, and nothing else is a number. A count is a number from 1 up to
/// what the machine can hold.
pub proof fn law_numbers(text: Seq<char>, n: nat, digit: char, other: char)
    requires
        '0' <= digit <= '9',
        other < '0' || '9' < other,
    ensures
        number(seq![digit]) == Some((digit as int - '0' as int) as nat),
        number(text) == Some(n) ==> number(text.push(digit)) == Some(
            (10 * n + (digit as int - '0' as int)) as nat,
        ),
        number(text) is None && text.len() > 0 && text != seq!['+'] ==> number(
            text.push(digit),
        ) is None,
        number(seq!['+', digit]) == number(seq![digit]),
        number(text.push(other)) is None,
        number(Seq::empty()) is None,
        number(text) == Some(n) && 1 <= n <= usize::MAX ==> count(text) == Some(n as usize),
        number(text) == Some(n) && (n == 0 || n > usize::MAX) ==> count(text) is None,
        number(text) is None ==> count(text) is None,
{
    reveal_with_fuel(decimal, 3);
    assert(seq![digit].drop_last() =~= Seq::empty());
    assert(seq!['+', digit].skip(1) =~= seq![digit]);
    let more = text.push(digit);
    let less = text.push(other);
    assert(more.drop_last() =~= text);
    assert(text.len() > 0 ==> more[0] == text[0] && less[0] == text[0]);
    let digits = if text.len() > 0 && text[0] == '+' {
        text.skip(1)
    } else {
        text
    };
    if text.len() > 0 {
        let more_digits = if text[0] == '+' {
            more.skip(1)
        } else {
            more
        };
        assert(more_digits =~= digits.push(digit));
        assert(more_digits.drop_last() =~= digits);
        if all_digits(more_digits) {
            assert forall|i: int| 0 <= i < digits.len() implies '0' <= #[trigger] digits[i]
                <= '9' by {
                assert(more_digits[i] == digits[i]);
            }
        }
        if text[0] == '+' && text.len() == 1 {
            assert(text =~= seq!['+']);
        }
        let less_digits = if text[0] == '+' {
            less.skip(1)
        } else {
            less
        };
        assert(less_digits =~= digits.push(other));
        assert(less_digits[digits.len() as int] == other);
    } else {
        assert(less[0] == other);
        if other == '+' {
            assert(less.skip(1).len() == 0);
        }
    }
}

} // verus!
