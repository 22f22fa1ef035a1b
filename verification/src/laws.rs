//! What holds of the rules as a whole.
use crate::args::{count, request, Args, Request};
use crate::effect::{tasks_for, Action, Effect, Note, Trigger, Verdict};
use crate::fraction::{
    distance, full_width, half_even, lemma_half_even_between, lemma_reach, lemma_rounded_scaled,
    lemma_value_at, lemma_value_grows, near_share, share_of, value, whole_of, BINADE, DENSE,
    FULL_WIDTH_THRESHOLD,
};
use crate::niri::{keyed, replaced, Known, News};
use crate::rules::{
    done, focusing, moving_to_end, nothing, screenful_start, sharing, sizing, stacking,
    target_column, toggling, Desk, SCREENFUL,
};
use crate::window::{
    all_placed, column, columns, height, ids, inserted, lemma_ordered, lemma_with_id, ordered,
    precedes, with_id, without_id, Placement, WindowInfo,
};
use vstd::arithmetic::power2::lemma2_to64;
use vstd::arithmetic::power2::lemma_pow2_adds;
use vstd::arithmetic::power2::lemma_pow2_pos;
use vstd::arithmetic::power2::pow2;
use vstd::prelude::*;

verus! {

/// A row of windows that are managed falls into screenfuls of six, of which only the last may be
/// smaller; it is never empty.
pub proof fn law_screenfuls(tiles: nat)
    requires
        tiles > 0,
    ensures
        screenful_start(tiles) % SCREENFUL as nat == 0,
        screenful_start(tiles) < tiles <= screenful_start(tiles) + SCREENFUL,
{
}

/// A workspace without windows, or with more than are to be managed, is left alone.
pub proof fn law_beyond_the_limit(
    desk: Desk,
    id: u64,
    ws: u64,
    tiled: Seq<WindowInfo>,
    focused: Option<u64>,
)
    requires
        tiled.len() == 0 || tiled.len() > desk.max_tiles,
    ensures
        desk.departure(ws, tiled, focused) == nothing(),
        desk.arrival(id, ws, tiled, focused) == Verdict::Settled(nothing()),
{
}

/// While an earlier screenful is not as it should be, the last one is left alone.
pub proof fn law_earlier_screenfuls_first(
    desk: Desk,
    id: u64,
    ws: u64,
    tiled: Seq<WindowInfo>,
    start: nat,
    focused: Option<u64>,
)
    ensures
        !desk.intact(ordered(tiled).take(screenful_start(tiled.len()) as int)) ==> desk.departure(
            ws,
            tiled,
            focused,
        ) == nothing(),
        !desk.intact(ordered(tiled).take(screenful_start(tiled.len()) as int)) ==> (desk.arrival(
            id,
            ws,
            tiled,
            focused,
        ) matches Verdict::Settled(outcome) ==> outcome == nothing()),
        !desk.intact(ordered(tiled).take(start as int)) ==> desk.second_look(
            id,
            ws,
            start,
            tiled,
            focused,
        ) == nothing(),
{
}

/// The window that an effect resizes or stacks, if it does either.
pub open spec fn reshaped(effect: Effect) -> Option<u64> {
    match effect {
        Effect::Do(Action::SetWindowWidth { id, .. }) => Some(id),
        Effect::Do(Action::ConsumeOrExpelWindowLeft { id }) => Some(id),
        Effect::Do(Action::ConsumeOrExpelWindowRight { id }) => Some(id),
        _ => None,
    }
}

/// Whether effects resize and stack none of the windows.
pub open spec fn spares(effects: Seq<Effect>, windows: Seq<WindowInfo>) -> bool {
    forall|i: int, k: int|
        0 <= i < effects.len() && 0 <= k < windows.len() ==> reshaped(#[trigger] effects[i])
            != Some((#[trigger] windows[k]).id)
}

/// Whether effects resize, stack and maximize no window at all.
pub open spec fn spares_all(effects: Seq<Effect>) -> bool {
    forall|i: int|
        0 <= i < effects.len() ==> reshaped(#[trigger] effects[i]) is None && effects[i]
            != Effect::Do(Action::MaximizeColumn)
}

/// Whether effects resize and stack only windows among the given ones.
spec fn within(effects: Seq<Effect>, windows: Seq<WindowInfo>) -> bool {
    forall|i: int|
        0 <= i < effects.len() ==> (reshaped(#[trigger] effects[i]) matches Some(id) ==> ids(
            windows,
        ).contains(id))
}

proof fn lemma_within_sum(a: Seq<Effect>, b: Seq<Effect>, windows: Seq<WindowInfo>)
    requires
        within(a, windows),
        within(b, windows),
    ensures
        within(a + b, windows),
{
    assert forall|i: int| 0 <= i < (a + b).len() implies (reshaped(#[trigger] (a + b)[i]) matches Some(
        id,
    ) ==> ids(windows).contains(id)) by {
        if i < a.len() {
            assert((a + b)[i] == a[i]);
        } else {
            assert((a + b)[i] == b[i - a.len()]);
        }
    }
}

proof fn lemma_sharing_within(ws: u64, group: Seq<WindowInfo>, columns: usize)
    ensures
        within(sharing(ws, group, columns).effects, group),
{
    let effects = sharing(ws, group, columns).effects;
    assert forall|i: int| 0 <= i < effects.len() implies (reshaped(#[trigger] effects[i]) matches Some(
        id,
    ) ==> ids(group).contains(id)) by {
        if i > 0 {
            assert(effects[i] == sizing(ids(group), columns)[i - 1]);
            assert(reshaped(effects[i]) == Some(ids(group)[i - 1]));
        }
    }
}

/// Placing a window resizes and stacks only windows of the last screenful.
proof fn lemma_placement_within(
    desk: Desk,
    id: u64,
    ws: u64,
    row: Seq<WindowInfo>,
    start: nat,
    focused: Option<u64>,
)
    ensures
        within(desk.placement(id, ws, row, start, focused).effects, row.skip(start as int)),
{
    let group = row.skip(start as int);
    lemma_with_id(group, id);
    if let Some(new) = with_id(group, id) {
        let at = choose|at: int| 0 <= at < group.len() && group[at] == new;
        assert(ids(group)[at] == id);
        let others = without_id(group, new.id);
        let col = column(new)->0;
        let last = row.take(start as int).len() / 2 + columns(others).len() + 1;
        let target = target_column(others, col);
        let total = columns(others).len() + if target is None {
            1nat
        } else {
            0
        };
        let moves = match target {
            Some(target) => stacking(new.id, col, target, focused),
            None => if col < last {
                moving_to_end(new.id, last as usize, focused)
            } else {
                Seq::empty()
            },
        };
        assert(within(moves, group));
        lemma_sharing_within(ws, group, total as usize);
        lemma_within_sum(moves, sharing(ws, group, total as usize).effects, group);
    }
}

/// Whether no window in front of a place in a row shares its id with one behind it.
pub open spec fn told_apart(row: Seq<WindowInfo>, start: nat) -> bool {
    forall|k: int, l: int|
        0 <= k < start <= l < row.len() ==> (#[trigger] row[k]).id != (#[trigger] row[l]).id
}

/// What stays within the rest of a row spares what is in front of it.
proof fn lemma_spares(effects: Seq<Effect>, row: Seq<WindowInfo>, start: nat)
    requires
        told_apart(row, start),
        start <= row.len(),
        within(effects, row.skip(start as int)),
    ensures
        spares(effects, row.take(start as int)),
{
    let group = row.skip(start as int);
    let earlier = row.take(start as int);
    assert forall|i: int, k: int|
        0 <= i < effects.len() && 0 <= k < earlier.len() implies reshaped(#[trigger] effects[i])
        != Some((#[trigger] earlier[k]).id) by {
        if let Some(id) = reshaped(effects[i]) {
            let l = choose|l: int| 0 <= l < ids(group).len() && ids(group)[l] == id;
            assert(row[start + l].id == id);
            assert(row[k] == earlier[k]);
        }
    }
}

/// Settling a workspace resizes and stacks no window in front of the last screenful, if none of these
/// shares its id with a window of it. When what is in front of it is not as it should be, an arrival
/// resizes, stacks and maximizes no window at all.
pub proof fn law_earlier_screenfuls_are_spared(
    desk: Desk,
    id: u64,
    ws: u64,
    tiled: Seq<WindowInfo>,
    start: nat,
    focused: Option<u64>,
)
    requires
        start <= tiled.len(),
    ensures
        ({
            let first = screenful_start(tiled.len());
            let earlier = ordered(tiled).take(first as int);
            let apart = told_apart(ordered(tiled), first);
            &&& match desk.arrival(id, ws, tiled, focused) {
                Verdict::Settled(outcome) => {
                    &&& apart ==> spares(outcome.effects, earlier)
                    &&& !desk.intact(earlier) ==> spares_all(outcome.effects)
                },
                Verdict::Moved { effects, start: behind } => spares_all(effects) && behind == first,
            }
            &&& apart ==> spares(desk.departure(ws, tiled, focused).effects, earlier)
        }),
        ({
            let earlier = ordered(tiled).take(start as int);
            let outcome = desk.second_look(id, ws, start, tiled, focused);
            &&& told_apart(ordered(tiled), start) ==> spares(outcome.effects, earlier)
            &&& !desk.intact(earlier) ==> spares_all(outcome.effects)
        }),
{
    let row = ordered(tiled);
    let first = screenful_start(tiled.len());
    let group = row.skip(first as int);
    lemma_ordered(tiled);
    if told_apart(row, start) {
        lemma_placement_within(desk, id, ws, row, start, focused);
        lemma_spares(desk.placement(id, ws, row, start, focused).effects, row, start);
    }
    if tiled.len() > 0 && told_apart(row, first) {
        lemma_placement_within(desk, id, ws, row, first, focused);
        lemma_spares(desk.placement(id, ws, row, first, focused).effects, row, first);
        lemma_sharing_within(ws, group, columns(group).len() as usize);
        assert(within(desk.departure(ws, tiled, focused).effects, group));
        lemma_spares(desk.departure(ws, tiled, focused).effects, row, first);
    }
}

/// A window that arrives maximized is left alone.
pub proof fn law_maximized_stays(
    desk: Desk,
    id: u64,
    ws: u64,
    row: Seq<WindowInfo>,
    start: nat,
    focused: Option<u64>,
)
    requires
        start <= row.len(),
        with_id(row.skip(start as int), id) matches Some(new) && desk.is_maximized(new),
    ensures
        desk.placement(id, ws, row, start, focused) == nothing(),
{
}

/// A window that is alone on its workspace ends up maximized, whether it came or was left behind.
pub proof fn law_alone(desk: Desk, ws: u64, window: WindowInfo, focused: Option<u64>)
    requires
        desk.max_tiles >= 1,
        window.position is Some,
    ensures
        desk.departure(ws, seq![window], focused) == desk.maximizing(window, focused),
        desk.arrival(window.id, ws, seq![window], focused) == Verdict::Settled(
            desk.maximizing(window, focused),
        ),
{
    let tiled = seq![window];
    reveal_with_fuel(ordered, 2);
    reveal_with_fuel(inserted, 2);
    reveal_with_fuel(with_id, 2);
    assert(tiled.drop_last() =~= Seq::empty());
    assert(ordered(tiled) =~= tiled);
    assert(tiled.take(0) =~= Seq::empty());
    assert(tiled.skip(0) =~= tiled);
    assert(all_placed(tiled));
}

/// The first window of a new screenful is maximized, if the earlier screenfuls are as they should be
/// and it stands behind them.
pub proof fn law_new_screenful(
    desk: Desk,
    ws: u64,
    row: Seq<WindowInfo>,
    focused: Option<u64>,
)
    requires
        row.len() > 0,
        row.len() == screenful_start(row.len()) + 1,
        desk.intact(row.drop_last()),
    ensures
        desk.placement(row.last().id, ws, row, screenful_start(row.len()), focused)
            == desk.maximizing(row.last(), focused),
{
    reveal_with_fuel(with_id, 2);
    let start = screenful_start(row.len()) as int;
    assert(row.take(start) =~= row.drop_last());
    assert(row.skip(start) =~= seq![row.last()]);
}

/// The window that is left over in the last screenful, in a column of its own, is maximized.
pub proof fn law_last_of_a_screenful(
    desk: Desk,
    ws: u64,
    tiled: Seq<WindowInfo>,
    focused: Option<u64>,
)
    requires
        desk.manages(tiled),
        tiled.len() == screenful_start(tiled.len()) + 1,
        desk.intact(ordered(tiled).drop_last()),
        height(ordered(tiled).drop_last(), column(ordered(tiled).last())->0) == 0,
    ensures
        desk.departure(ws, tiled, focused) == desk.maximizing(ordered(tiled).last(), focused),
{
    let row = ordered(tiled);
    let start = screenful_start(tiled.len()) as int;
    lemma_ordered(tiled);
    assert(row.take(start) =~= row.drop_last());
    assert(row.skip(start) =~= seq![row.last()]);
}

/// The second window of a screenful has a maximized first one give up its width.
pub proof fn law_second_window(
    desk: Desk,
    ws: u64,
    row: Seq<WindowInfo>,
    start: nat,
    first: WindowInfo,
    second: WindowInfo,
    focused: Option<u64>,
)
    requires
        start <= row.len(),
        desk.intact(row.take(start as int)),
        row.skip(start as int) == seq![first, second] || row.skip(start as int) == seq![
            second,
            first,
        ],
        first.id != second.id,
        desk.is_maximized(first),
        !desk.is_maximized(second),
    ensures
        ({
            let outcome = desk.placement(second.id, ws, row, start, focused);
            outcome.effects.skip(1) == toggling(first.id, focused) && outcome.snap is None
        }),
{
    let group = row.skip(start as int);
    reveal_with_fuel(with_id, 3);
    reveal(Seq::filter);
    let keep = |w: WindowInfo| desk.is_maximized(w);
    assert(group.drop_last().drop_last() =~= Seq::empty());
    assert(group.drop_first() =~= seq![group[1]]);
    assert(group.drop_last() =~= seq![group[0]]);
    reveal_with_fuel(Seq::filter, 3);
    assert(group.filter(keep) =~= seq![first]);
    let outcome = desk.placement(second.id, ws, row, start, focused);
    assert(outcome.effects.skip(1) =~= toggling(first.id, focused));
}

/// Which window has the focus once the effects are carried out, if `focused` has it before.
pub open spec fn focus_after(effects: Seq<Effect>, focused: Option<u64>) -> Option<u64>
    decreases effects.len(),
{
    if effects.len() == 0 {
        focused
    } else {
        match effects.last() {
            Effect::Do(Action::FocusWindow { id }) => Some(id),
            _ => focus_after(effects.drop_last(), focused),
        }
    }
}

/// Whether effects focus no window.
spec fn no_focus(effects: Seq<Effect>) -> bool {
    forall|i: int| 0 <= i < effects.len() ==> !is_focus(#[trigger] effects[i])
}

spec fn is_focus(effect: Effect) -> bool {
    effect matches Effect::Do(Action::FocusWindow { .. })
}

proof fn lemma_no_focus(effects: Seq<Effect>, focused: Option<u64>)
    requires
        no_focus(effects),
    ensures
        focus_after(effects, focused) == focused,
    decreases effects.len(),
{
    if effects.len() > 0 {
        assert(!is_focus(effects[effects.len() - 1]));
        let rest = effects.drop_last();
        assert forall|i: int| 0 <= i < rest.len() implies !is_focus(#[trigger] rest[i]) by {
            assert(rest[i] == effects[i]);
        }
        lemma_no_focus(rest, focused);
    }
}

proof fn lemma_focus_chain(a: Seq<Effect>, b: Seq<Effect>, focused: Option<u64>)
    ensures
        focus_after(a + b, focused) == focus_after(b, focus_after(a, focused)),
    decreases b.len(),
{
    if b.len() == 0 {
        assert(a + b =~= a);
    } else {
        assert((a + b).drop_last() =~= a + b.drop_last());
        lemma_focus_chain(a, b.drop_last(), focused);
    }
}

proof fn lemma_focusing(id: u64, focused: Option<u64>, steps: Seq<Effect>)
    requires
        no_focus(steps),
    ensures
        focus_after(focusing(id, focused, steps), focused) == focused,
{
    lemma_no_focus(steps, focused);
}

proof fn lemma_logged_focus(note: Effect, steps: Seq<Effect>, focused: Option<u64>)
    requires
        !is_focus(note),
        focus_after(steps, focused) == focused,
    ensures
        focus_after(seq![note] + steps, focused) == focused,
{
    assert(no_focus(seq![note]));
    lemma_no_focus(seq![note], focused);
    lemma_focus_chain(seq![note], steps, focused);
}

proof fn lemma_sharing_focus(
    ws: u64,
    group: Seq<WindowInfo>,
    columns: usize,
    focused: Option<u64>,
)
    ensures
        focus_after(sharing(ws, group, columns).effects, focused) == focused,
{
    assert(no_focus(sharing(ws, group, columns).effects));
    lemma_no_focus(sharing(ws, group, columns).effects, focused);
}

proof fn lemma_moving_focus(id: u64, index: usize, focused: Option<u64>)
    ensures
        focus_after(moving_to_end(id, index, focused), focused) == focused,
{
    let steps = seq![Effect::Do(Action::MoveColumnToIndex { index })];
    assert(no_focus(steps));
    lemma_focusing(id, focused, steps);
    lemma_logged_focus(
        Effect::Log(Note::MovingToEnd { id }),
        focusing(id, focused, steps),
        focused,
    );
}

proof fn lemma_toggling_focus(note: Note, id: u64, focused: Option<u64>)
    ensures
        focus_after(done(note, toggling(id, focused)).effects, focused) == focused,
{
    let steps = seq![Effect::Do(Action::MaximizeColumn)];
    assert(no_focus(steps));
    lemma_focusing(id, focused, steps);
    lemma_logged_focus(Effect::Log(note), toggling(id, focused), focused);
}

proof fn lemma_stacking_focus(id: u64, col: usize, target: usize, focused: Option<u64>)
    ensures
        focus_after(stacking(id, col, target, focused), focused) == focused,
{
    let effects = stacking(id, col, target, focused);
    let note = Effect::Log(Note::Stacking { id, target });
    let steps = effects.skip(1);
    let right = Effect::Do(Action::ConsumeOrExpelWindowRight { id });
    let left = Effect::Do(Action::ConsumeOrExpelWindowLeft { id });
    if target == col + 1 {
        assert(steps =~= seq![right]);
        lemma_no_focus(steps, focused);
    } else if target + 1 == col {
        assert(steps =~= seq![left]);
        lemma_no_focus(steps, focused);
    } else if col < target {
        let plain = seq![
            Effect::Do(Action::MoveColumnToIndex { index: (target - 1) as usize }),
            right,
        ];
        assert(no_focus(plain));
        assert(steps =~= focusing(id, focused, plain));
        lemma_focusing(id, focused, plain);
    } else {
        let plain = seq![
            Effect::Do(Action::MoveColumnToIndex { index: (target + 1) as usize }),
            left,
        ];
        assert(no_focus(plain));
        assert(steps =~= focusing(id, focused, plain));
        lemma_focusing(id, focused, plain);
    }
    assert(effects =~= seq![note] + steps);
    lemma_logged_focus(note, steps, focused);
}

/// Placing a window leaves the focus where it was.
pub proof fn law_placement_keeps_focus(
    desk: Desk,
    id: u64,
    ws: u64,
    row: Seq<WindowInfo>,
    start: nat,
    focused: Option<u64>,
)
    ensures
        focus_after(desk.placement(id, ws, row, start, focused).effects, focused) == focused,
{
    let group = row.skip(start as int);
    let before = row.take(start as int).len();
    if let Some(new) = with_id(group, id) {
        lemma_toggling_focus(
            Note::MaximizingSolo { id: new.id },
            new.id,
            focused,
        );
        let maxed = desk.maximized(group);
        lemma_toggling_focus(
            Note::Collapsing { incumbent: maxed[0].id, id },
            maxed[0].id,
            focused,
        );
        let others = without_id(group, new.id);
        let col = column(new)->0;
        let last = before / 2 + columns(others).len() + 1;
        let target = target_column(others, col);
        lemma_moving_focus(new.id, last as usize, focused);
        lemma_stacking_focus(new.id, col, target->0, focused);
        let total = columns(others).len() + if target is None {
            1nat
        } else {
            0
        };
        lemma_sharing_focus(ws, group, total as usize, focused);
        let moves = match target {
            Some(target) => stacking(new.id, col, target, focused),
            None => if col < last {
                moving_to_end(new.id, last as usize, focused)
            } else {
                Seq::empty()
            },
        };
        lemma_focus_chain(moves, sharing(ws, group, total as usize).effects, focused);
    }
}

/// Settling a workspace leaves the focus where it was.
pub proof fn law_focus_is_kept(
    desk: Desk,
    id: u64,
    ws: u64,
    tiled: Seq<WindowInfo>,
    start: nat,
    focused: Option<u64>,
)
    ensures
        focus_after(desk.departure(ws, tiled, focused).effects, focused) == focused,
        match desk.arrival(id, ws, tiled, focused) {
            Verdict::Settled(outcome) => focus_after(outcome.effects, focused) == focused,
            Verdict::Moved { effects, .. } => focus_after(effects, focused) == focused,
        },
        focus_after(desk.second_look(id, ws, start, tiled, focused).effects, focused) == focused,
{
    let row = ordered(tiled);
    let first = screenful_start(tiled.len());
    let group = row.skip(first as int);
    law_placement_keeps_focus(desk, id, ws, row, first, focused);
    law_placement_keeps_focus(desk, id, ws, row, start, focused);
    lemma_moving_focus(id, columns(row).len() as usize, focused);
    lemma_toggling_focus(
        Note::MaximizingSolo { id: group[0].id },
        group[0].id,
        focused,
    );
    lemma_sharing_focus(ws, group, columns(group).len() as usize, focused);
}

/// Snapping the view leaves the focus where it was, if a tiled window of the workspace has it; and if
/// none has it, nothing is focused.
pub proof fn law_snapping_keeps_focus(desk: Desk, now: u64, focused: Option<u64>)
    ensures
        focus_after(desk.snapping(now, focused).1, focused) == focused,
{
    let effects = desk.snapping(now, focused).1;
    reveal_with_fuel(focus_after, 4);
}

/// A snap is carried out once, and only while its windows are all there and its time is not up. Until
/// then it is waited for.
pub proof fn law_snap_once(desk: Desk, now: u64, focused: Option<u64>)
    ensures
        ({
            let (pending, effects) = desk.snapping(now, focused);
            &&& effects.len() > 0 ==> pending is None
            &&& pending is Some ==> pending == desk.pending
            &&& effects.len() > 0 ==> (desk.pending matches Some(waited) && now <= waited.expires
                && desk.all_present(waited.snap.ids) && desk.all_resized(waited.snap))
            &&& desk.pending matches Some(waited) ==> (pending is None <==> (effects.len() > 0
                || now > waited.expires || !desk.all_present(waited.snap.ids)))
            &&& pending is None ==> forall|later: u64, other: Option<u64>| #[trigger]
                (Desk { pending, ..desk }).snapping(later, other).1 == Seq::<Effect>::empty()
        }),
{
}

/// Windows moved between workspaces are only followed on request; everything else is followed
/// regardless.
pub proof fn law_moves_on_request(trigger: Option<Trigger>)
    ensures
        trigger matches Some(Trigger::Moved { .. }) ==> tasks_for(trigger, false).len() == 0,
        !(trigger matches Some(Trigger::Moved { .. })) ==> tasks_for(trigger, false) == tasks_for(
            trigger,
            true,
        ),
{
}

/// A window moved onto a workspace is settled there as one that opens on it, and where it was as one
/// that closes.
pub proof fn law_moved_like_opened_and_closed(id: u64, to: u64, from: u64)
    ensures
        tasks_for(Some(Trigger::Moved { id, to: Some(to), from: Some(from) }), true) == tasks_for(
            Some(Trigger::Arrived { id, ws: to }),
            true,
        ) + tasks_for(Some(Trigger::Closed { from: Some(from) }), true),
        tasks_for(Some(Trigger::Moved { id, to: Some(to), from: None }), true) == tasks_for(
            Some(Trigger::Arrived { id, ws: to }),
            true,
        ),
        tasks_for(Some(Trigger::Moved { id, to: None, from: Some(from) }), true) == tasks_for(
            Some(Trigger::Closed { from: Some(from) }),
            true,
        ),
{
}

/// Ordering windows keeps each of them, puts them in the order of their positions, and keeps those at
/// one position in the order they had.
pub proof fn law_ordered(windows: Seq<WindowInfo>)
    ensures
        ordered(windows).to_multiset() == windows.to_multiset(),
        forall|i: int, j: int|
            0 <= i < j < windows.len() ==> !precedes(
                #[trigger] ordered(windows)[j],
                #[trigger] ordered(windows)[i],
            ),
        forall|position: Option<(usize, usize)>| #[trigger]
            placed_at(ordered(windows), position) == placed_at(windows, position),
    decreases windows.len(),
{
    lemma_ordered(windows);
    reveal(Seq::filter);
    if windows.len() > 0 {
        let rest = windows.drop_last();
        law_ordered(rest);
        lemma_ordered(rest);
        lemma_inserted_in_order(ordered(rest), windows.last());
        assert forall|position: Option<(usize, usize)>| #[trigger]
            placed_at(ordered(windows), position) == placed_at(windows, position) by {
            assert(placed_at(ordered(rest), position) == placed_at(rest, position));
            assert(placed_at(inserted(ordered(rest), windows.last()), position) == placed_at(
                ordered(rest).push(windows.last()),
                position,
            ));
            assert(ordered(rest).push(windows.last()).drop_last() =~= ordered(rest));
        }
    }
}

/// The windows at a position.
pub open spec fn placed_at(windows: Seq<WindowInfo>, position: Option<(usize, usize)>) -> Seq<
    WindowInfo,
> {
    windows.filter(|w: WindowInfo| w.position == position)
}

/// Inserting a window among windows in order keeps them in order, and behind those at its position.
proof fn lemma_inserted_in_order(windows: Seq<WindowInfo>, window: WindowInfo)
    requires
        forall|i: int, j: int|
            0 <= i < j < windows.len() ==> !precedes(#[trigger] windows[j], #[trigger] windows[i]),
    ensures
        inserted(windows, window).len() == windows.len() + 1,
        forall|i: int, j: int|
            0 <= i < j <= windows.len() ==> !precedes(
                #[trigger] inserted(windows, window)[j],
                #[trigger] inserted(windows, window)[i],
            ),
        forall|i: int|
            0 <= i <= windows.len() ==> (#[trigger] inserted(windows, window)[i] == window
                || windows.contains(inserted(windows, window)[i])),
        forall|position: Option<(usize, usize)>| #[trigger]
            placed_at(inserted(windows, window), position) == placed_at(
                windows.push(window),
                position,
            ),
    decreases windows.len(),
{
    reveal(Seq::filter);
    let result = inserted(windows, window);
    if windows.len() > 0 && precedes(window, windows.last()) {
        let rest = windows.drop_last();
        let inner = inserted(rest, window);
        assert forall|i: int, j: int| 0 <= i < j < rest.len() implies !precedes(
            #[trigger] rest[j],
            #[trigger] rest[i],
        ) by {
            assert(!precedes(windows[j], windows[i]));
        }
        lemma_inserted_in_order(rest, window);
        assert forall|i: int| 0 <= i <= windows.len() implies (#[trigger] result[i] == window
            || windows.contains(result[i])) by {
            if i < inner.len() {
                assert(result[i] == inner[i]);
                if inner[i] != window {
                    let k = choose|k: int| 0 <= k < rest.len() && rest[k] == inner[i];
                    assert(windows[k] == inner[i]);
                }
            } else {
                assert(windows.contains(windows[windows.len() - 1]));
            }
        }
        assert forall|i: int, j: int| 0 <= i < j <= windows.len() implies !precedes(
            #[trigger] result[j],
            #[trigger] result[i],
        ) by {
            if j < inner.len() {
                assert(!precedes(inner[j], inner[i]));
            } else {
                assert(result[j] == windows.last());
                assert(result[i] == inner[i]);
                if inner[i] != window {
                    let k = choose|k: int| 0 <= k < rest.len() && rest[k] == inner[i];
                    assert(!precedes(windows[windows.len() - 1], windows[k]));
                }
            }
        }
        assert forall|position: Option<(usize, usize)>| #[trigger]
            placed_at(result, position) == placed_at(windows.push(window), position) by {
            assert(placed_at(inner, position) == placed_at(rest.push(window), position));
            assert(result.drop_last() =~= inner);
            assert(rest.push(window).drop_last() =~= rest);
            assert(windows.push(window).drop_last() =~= windows);
            let here = |w: WindowInfo| w.position == position;
            assert(window.position != windows.last().position);
            assert(rest.push(window).filter(here) == if here(window) {
                rest.filter(here).push(window)
            } else {
                rest.filter(here)
            });
            assert(windows.filter(here) == if here(windows.last()) {
                rest.filter(here).push(windows.last())
            } else {
                rest.filter(here)
            });
            assert(result.filter(here) == if here(windows.last()) {
                inner.filter(here).push(windows.last())
            } else {
                inner.filter(here)
            });
        }
    } else {
        assert forall|i: int| 0 <= i <= windows.len() implies (#[trigger] result[i] == window
            || windows.contains(result[i])) by {
            if i < windows.len() {
                assert(result[i] == windows[i]);
            }
        }
        assert forall|i: int, j: int| 0 <= i < j <= windows.len() implies !precedes(
            #[trigger] result[j],
            #[trigger] result[i],
        ) by {
            if j == windows.len() && i < windows.len() - 1 {
                assert(!precedes(windows[windows.len() - 1], windows[i]));
            }
        }
    }
}

/// Options are read from left to right: those in front of others only set what these start from.
pub proof fn law_options_in_turn(front: Seq<Seq<char>>, back: Seq<Seq<char>>, settings: Args)
    ensures
        match request(front, settings) {
            Request::Run(so_far) => request(front + back, settings) == request(back, so_far),
            Request::BadCount => front.len() > 0 && (front.last() == "-n"@ || request(
                front + back,
                settings,
            ) == Request::BadCount),
            decided => request(front + back, settings) == decided,
        },
    decreases front.len(),
{
    let all = front + back;
    if front.len() == 0 {
        assert(all =~= back);
    } else {
        assert(all[0] == front[0]);
        if front[0] == "-n"@ {
            if front.len() > 1 {
                assert(all[1] == front[1]);
                if let Some(max_tiles) = count(front[1]) {
                    assert(all.skip(2) =~= front.skip(2) + back);
                    law_options_in_turn(front.skip(2), back, Args { max_tiles, ..settings });
                }
            }
        } else if front[0] == "-M"@ || front[0] == "--no-move"@ {
            assert(all.skip(1) =~= front.skip(1) + back);
            law_options_in_turn(front.skip(1), back, Args { apply_on_move: false, ..settings });
        }
    }
}

/// However it is invoked, a run manages at least one window per workspace.
pub proof fn law_at_least_one_tile(args: Seq<Seq<char>>, settings: Args)
    requires
        settings.max_tiles >= 1,
    ensures
        request(args, settings) matches Request::Run(result) ==> result.max_tiles >= 1,
    decreases args.len(),
{
    if args.len() > 0 {
        if args[0] == "-n"@ {
            if args.len() > 1 {
                if let Some(max_tiles) = count(args[1]) {
                    law_at_least_one_tile(args.skip(2), Args { max_tiles, ..settings });
                }
            }
        } else if args[0] == "-M"@ || args[0] == "--no-move"@ {
            law_at_least_one_tile(args.skip(1), Args { apply_on_move: false, ..settings });
        }
    }
}

/// Whether every window is filed under its id.
pub open spec fn filed_by_id(known: Known) -> bool {
    forall|key: u64| #[trigger]
        known.windows.contains_key(key) ==> known.windows[key].id == key
}

/// Windows stay filed under their ids, whatever event is taken in.
pub proof fn law_filed_by_id(known: Known, news: News)
    requires
        filed_by_id(known),
        known.accepts(news),
    ensures
        filed_by_id(known.after(news)),
{
    match news {
        News::WindowsChanged { windows } => {
            lemma_keyed(windows);
        },
        News::WindowLayoutsChanged { changes } => {
            lemma_replaced(known.windows, changes);
        },
        _ => {},
    }
}

proof fn lemma_keyed(windows: Seq<WindowInfo>)
    ensures
        forall|key: u64| #[trigger]
            keyed(windows).contains_key(key) ==> keyed(windows)[key].id == key,
    decreases windows.len(),
{
    if windows.len() > 0 {
        lemma_keyed(windows.drop_last());
    }
}

proof fn lemma_replaced(windows: Map<u64, WindowInfo>, changes: Seq<(u64, Placement)>)
    requires
        forall|key: u64| #[trigger] windows.contains_key(key) ==> windows[key].id == key,
        forall|i: int|
            0 <= i < changes.len() ==> windows.contains_key((#[trigger] changes[i]).0),
    ensures
        replaced(windows, changes).dom() == windows.dom(),
        forall|key: u64| #[trigger]
            replaced(windows, changes).contains_key(key) ==> {
                let w = replaced(windows, changes)[key];
                w.id == key && w.workspace_id == windows[key].workspace_id && w.is_focused
                    == windows[key].is_focused && w.is_floating == windows[key].is_floating
            },
    decreases changes.len(),
{
    if changes.len() > 0 {
        let rest = changes.drop_last();
        assert forall|i: int| 0 <= i < rest.len() implies windows.contains_key(
            (#[trigger] rest[i]).0,
        ) by {
            assert(rest[i] == changes[i]);
        }
        lemma_replaced(windows, rest);
        assert(windows.contains_key(changes[changes.len() - 1].0));
        assert(replaced(windows, changes).dom() =~= windows.dom());
    }
}

/// A window arrives once: when the same report comes again, it calls for nothing.
pub proof fn law_arrives_once(desk: Desk, window: WindowInfo)
    ensures
        ({
            let news = News::WindowOpenedOrChanged { window };
            let later = Desk { known: desk.known.after(news), ..desk };
            later.known.windows.contains_key(window.id) && later.known.windows[window.id] == window
                && later.plan(news) is None
        }),
{
}

/// A window that was closed is forgotten: when one with its id appears, it arrives.
pub proof fn law_closed_is_forgotten(desk: Desk, id: u64, window: WindowInfo, ws: u64)
    requires
        window.id == id,
        window.workspace_id == Some(ws),
        !window.is_floating,
    ensures
        ({
            let later = Desk { known: desk.known.after(News::WindowClosed { id }), ..desk };
            later.opened(window) == Some(Trigger::Arrived { id, ws })
        }),
{
}

/// Once a window has reported that it has the focus, or the focus has been reported to move, there is
/// only one answer to which window has it.
pub proof fn law_one_focus(desk: Desk, news: News, one: Option<u64>, other: Option<u64>)
    requires
        filed_by_id(desk.known),
        news is WindowFocusChanged || (news matches News::WindowOpenedOrChanged { window }
            && window.is_focused),
        (Desk { known: desk.known.after(news), ..desk }).may_be_focused(one),
        (Desk { known: desk.known.after(news), ..desk }).may_be_focused(other),
    ensures
        one == other,
{
    let later = Desk { known: desk.known.after(news), ..desk };
    let windows = later.known.windows;
    assert forall|a: u64, b: u64| #[trigger]
        windows.contains_key(a) && #[trigger] windows.contains_key(b) && windows[a].is_focused
            && windows[b].is_focused implies windows[a].id == windows[b].id by {}
}

/// One `columns`th by its exponent and its mantissa: what `top`, 2 to the `power`th, over the number of
/// columns is rounded to.
proof fn lemma_share(columns: nat, power: nat, top: nat, mantissa: nat, fold: nat, worth: nat)
    requires
        1 <= columns <= 8,
        52 <= power <= 55,
        pow2(power) == top,
        pow2((117 - power) as nat) == fold,
        BINADE * columns <= top < DENSE * columns,
        half_even(top, columns) == mantissa,
        mantissa * fold == worth,
    ensures
        share_of(columns) == (1074 - power) * BINADE + mantissa,
        value(share_of(columns)) == worth * pow2(957),
{
    let gap = pow2((1074 - power) as nat);
    lemma_pow2_adds(power, (1074 - power) as nat);
    lemma_pow2_adds((117 - power) as nat, 957);
    assert(whole_of(columns) == columns) by {
        assert(columns % 1 == 0 && columns / 1 == columns);
    }
    lemma_rounded_scaled(top, columns, (1074 - power) as nat);
    lemma_half_even_between(top, columns, BINADE as nat, DENSE as nat);
    lemma_value_at((1074 - power) as nat, mantissa);
    assert(mantissa * gap == worth * pow2(957)) by (nonlinear_arith)
        requires
            gap == fold * pow2(957),
            worth == mantissa * fold,
    ;
}

/// The shares from the whole width down to one eighth are the doubles 1, 1/2, 1/3 and so on.
#[verifier::spinoff_prover]
pub proof fn law_shares()
    ensures
        share_of(1) == 0x3ff0_0000_0000_0000,
        share_of(2) == 0x3fe0_0000_0000_0000,
        share_of(3) == 0x3fd5_5555_5555_5555,
        share_of(4) == 0x3fd0_0000_0000_0000,
        share_of(5) == 0x3fc9_9999_9999_999a,
        share_of(6) == 0x3fc5_5555_5555_5555,
        share_of(7) == 0x3fc2_4924_9249_2492,
        share_of(8) == 0x3fc0_0000_0000_0000,
        value(share_of(1)) == 0x20_0000_0000_0000_0000_0000_0000_0000 * pow2(957),
        value(share_of(2)) == 0x10_0000_0000_0000_0000_0000_0000_0000 * pow2(957),
        value(share_of(3)) == 0xa_aaaa_aaaa_aaaa_8000_0000_0000_0000 * pow2(957),
        value(share_of(4)) == 0x8_0000_0000_0000_0000_0000_0000_0000 * pow2(957),
        value(share_of(5)) == 0x6_6666_6666_6666_8000_0000_0000_0000 * pow2(957),
        value(share_of(6)) == 0x5_5555_5555_5555_4000_0000_0000_0000 * pow2(957),
        value(share_of(7)) == 0x4_9249_2492_4924_8000_0000_0000_0000 * pow2(957),
        value(share_of(8)) == 0x4_0000_0000_0000_0000_0000_0000_0000 * pow2(957),
{
    lemma2_to64();
    lemma_pow2_adds(64, 1);
    lemma_pow2_adds(32, 31);
    lemma_pow2_adds(32, 30);
    lemma_pow2_adds(32, 20);
    lemma_pow2_adds(32, 21);
    lemma_pow2_adds(32, 22);
    lemma_pow2_adds(32, 23);
    lemma_share(
        1,
        52,
        0x10_0000_0000_0000,
        0x10_0000_0000_0000,
        0x2_0000_0000_0000_0000,
        0x20_0000_0000_0000_0000_0000_0000_0000,
    );
    lemma_share(
        2,
        53,
        0x20_0000_0000_0000,
        0x10_0000_0000_0000,
        0x1_0000_0000_0000_0000,
        0x10_0000_0000_0000_0000_0000_0000_0000,
    );
    lemma_share(
        3,
        54,
        0x40_0000_0000_0000,
        0x15_5555_5555_5555,
        0x8000_0000_0000_0000,
        0xa_aaaa_aaaa_aaaa_8000_0000_0000_0000,
    );
    lemma_share(
        4,
        54,
        0x40_0000_0000_0000,
        0x10_0000_0000_0000,
        0x8000_0000_0000_0000,
        0x8_0000_0000_0000_0000_0000_0000_0000,
    );
    lemma_share(
        5,
        55,
        0x80_0000_0000_0000,
        0x19_9999_9999_999a,
        0x4000_0000_0000_0000,
        0x6_6666_6666_6666_8000_0000_0000_0000,
    );
    lemma_share(
        6,
        55,
        0x80_0000_0000_0000,
        0x15_5555_5555_5555,
        0x4000_0000_0000_0000,
        0x5_5555_5555_5555_4000_0000_0000_0000,
    );
    lemma_share(
        7,
        55,
        0x80_0000_0000_0000,
        0x12_4924_9249_2492,
        0x4000_0000_0000_0000,
        0x4_9249_2492_4924_8000_0000_0000_0000,
    );
    lemma_share(
        8,
        55,
        0x80_0000_0000_0000,
        0x10_0000_0000_0000,
        0x4000_0000_0000_0000,
        0x4_0000_0000_0000_0000_0000_0000_0000,
    );
}

/// A fraction that counts as the whole width, one half or one third counts as no other share down to
/// one eighth.
#[verifier::spinoff_prover]
pub proof fn law_large_shares_differ(fraction: u64, large: nat, other: nat)
    requires
        1 <= large <= 3,
        1 <= other <= 8,
        near_share(fraction, large),
        near_share(fraction, other),
    ensures
        large == other,
{
    law_shares();
    lemma_pow2_pos(957);
    lemma_reach(distance(fraction, large));
    lemma_reach(distance(fraction, other));
}

/// A maximized window has no share from one half down to one eighth.
#[verifier::spinoff_prover]
pub proof fn law_maximized_is_no_share(fraction: u64, columns: nat)
    requires
        full_width(fraction),
        2 <= columns <= 8,
    ensures
        !near_share(fraction, columns),
{
    law_shares();
    lemma_reach(distance(fraction, columns));
    lemma2_to64();
    lemma_pow2_pos(957);
    lemma_pow2_adds(957, 64);
    let mantissa: nat = 0x19_9999_9999_999a;
    lemma_value_at(1021, mantissa);
    lemma_value_grows(FULL_WIDTH_THRESHOLD as nat, fraction as nat);
    assert(1021 * BINADE + mantissa == FULL_WIDTH_THRESHOLD);
    let unit = pow2(957);
    assert(mantissa * pow2(1021) == 0x19_9999_9999_999a_0000_0000_0000_0000 * unit)
        by (nonlinear_arith)
        requires
            pow2(1021) == unit * 0x1_0000_0000_0000_0000,
            mantissa == 0x19_9999_9999_999a,
    ;
}

/// Windows that share the width among as many columns as there are, up to four, are left alone.
pub proof fn law_equal_shares_stay(
    desk: Desk,
    ws: u64,
    tiled: Seq<WindowInfo>,
    focused: Option<u64>,
)
    requires
        ({
            let group = ordered(tiled).skip(screenful_start(tiled.len()) as int);
            group.len() >= 2 && 1 <= columns(group).len() <= 4 && desk.all_share(
                group,
                columns(group).len(),
            )
        }),
    ensures
        desk.departure(ws, tiled, focused) == nothing(),
{
    let group = ordered(tiled).skip(screenful_start(tiled.len()) as int);
    let n = columns(group).len();
    assert forall|other: nat| 2 <= other <= 8 && other != n && (other < n || n == 1) implies !(
    #[trigger] desk.all_share(group, other)) by {
        if desk.all_share(group, other) {
            assert(desk.has_share(group[0], n) && desk.has_share(group[0], other));
            let fraction = desk.width_fraction(group[0])->0;
            if n <= 3 {
                law_large_shares_differ(fraction, n, other);
            } else {
                law_large_shares_differ(fraction, other, n);
            }
        }
    }
    reveal_with_fuel(Desk::common_share, 8);
}

} // verus!
