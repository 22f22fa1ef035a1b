//! The pattern that a screenful of windows grows into.
//!
//! Two windows stand side by side. From the third on windows are paired up: every column holds two of
//! them, but for one that holds a single window when their number is odd.
use crate::effect::{Action, Effect, Note, Outcome, Verdict};
use crate::rules::{
    columns_apart, is_target, moving_to_end, nothing, screenful_start, sharing, sizing, stacking,
    target_column, Desk, Pending, SCREENFUL, SNAP_TIMEOUT,
};
use crate::window::{
    all_placed, column, columns, height, ids, lemma_columns, lemma_ordered, lemma_with_id,
    lemma_without_id, ordered, with_id, without_id, WindowInfo,
};
use vstd::prelude::*;

verus! {

/// Whether no column holds more than two windows and at most one column holds a single window.
pub open spec fn paired(windows: Seq<WindowInfo>) -> bool {
    &&& forall|col: usize| #[trigger] height(windows, col) <= 2
    &&& forall|a: usize, b: usize| #[trigger]
        height(windows, a) == 1 && #[trigger] height(windows, b) == 1 ==> a == b
}

/// The windows outside of a column.
spec fn outside(windows: Seq<WindowInfo>, col: usize) -> Seq<WindowInfo> {
    windows.filter(|w: WindowInfo| column(w) != Some(col))
}

/// Leaving a column out takes its windows away and keeps the other columns.
proof fn lemma_outside(windows: Seq<WindowInfo>, col: usize)
    ensures
        outside(windows, col).len() + height(windows, col) == windows.len(),
        forall|other: usize| #[trigger]
            height(outside(windows, col), other) == if other == col {
                0
            } else {
                height(windows, other)
            },
        columns(outside(windows, col)) == columns(windows).remove(col),
        all_placed(windows) ==> all_placed(outside(windows, col)),
    decreases windows.len(),
{
    reveal(Seq::filter);
    let kept = outside(windows, col);
    if windows.len() > 0 {
        let rest = windows.drop_last();
        lemma_outside(rest, col);
        let inner = outside(rest, col);
        let last = windows.last();
        if column(last) != Some(col) {
            assert(kept == inner.push(last));
            assert(kept.drop_last() =~= inner);
        } else {
            assert(kept == inner);
        }
        assert forall|other: usize| #[trigger] height(kept, other) == if other == col {
            0
        } else {
            height(windows, other)
        } by {
            assert(height(inner, other) == if other == col {
                0
            } else {
                height(rest, other)
            });
        }
        assert(columns(kept) =~= columns(windows).remove(col));
        if all_placed(windows) {
            assert forall|i: int| 0 <= i < rest.len() implies (#[trigger] rest[i]).position is Some by {
                assert(rest[i] == windows[i]);
            }
            assert(windows[windows.len() - 1].position is Some);
            assert(all_placed(inner));
            assert forall|i: int| 0 <= i < kept.len() implies (#[trigger] kept[i]).position is Some by {
                if i < inner.len() {
                    assert(kept[i] == inner[i]);
                }
            }
        }
    } else {
        assert(columns(kept) =~= columns(windows).remove(col));
    }
}

/// Paired windows form half as many columns as there are windows, rounded up; a single window is left
/// when their number is odd.
pub proof fn law_paired(windows: Seq<WindowInfo>)
    requires
        all_placed(windows),
        paired(windows),
    ensures
        columns(windows).len() == (windows.len() + 1) / 2,
        (exists|col: usize| height(windows, col) == 1) <==> windows.len() % 2 == 1,
    decreases windows.len(),
{
    if windows.len() == 0 {
        assert forall|col: usize| height(windows, col) != 1 by {}
    } else {
        let col = column(windows.last())->0;
        assert(windows[windows.len() - 1].position is Some);
        lemma_columns(windows, col);
        assert(column(windows[windows.len() - 1]) == Some(col));
        assert(height(windows, col) > 0);
        let rest = outside(windows, col);
        lemma_outside(windows, col);
        assert forall|c: usize| #[trigger] height(rest, c) <= 2 by {
            assert(height(windows, c) <= 2);
        }
        assert forall|a: usize, b: usize| #[trigger]
            height(rest, a) == 1 && #[trigger] height(rest, b) == 1 implies a == b by {
            assert(height(windows, a) == 1 && height(windows, b) == 1);
        }
        law_paired(rest);
        lemma_columns(rest, col);
        assert(columns(windows).contains(col));
        assert(columns(windows).finite());
        assert(columns(rest).len() == columns(windows).len() - 1);
        assert(height(windows, col) <= 2);
        if height(windows, col) == 1 {
            assert forall|c: usize| height(rest, c) != 1 by {
                if height(rest, c) == 1 {
                    assert(height(windows, c) == 1);
                }
            }
        } else {
            if exists|c: usize| height(rest, c) == 1 {
                let c = choose|c: usize| height(rest, c) == 1;
                assert(height(windows, c) == 1);
            }
            if exists|c: usize| height(windows, c) == 1 {
                let c = choose|c: usize| height(windows, c) == 1;
                assert(height(rest, c) == 1);
            }
        }
    }
}

/// Screenfuls that are as they should be form half as many columns as there are windows.
pub proof fn law_intact_columns(desk: Desk, earlier: Seq<WindowInfo>)
    requires
        all_placed(earlier),
        desk.intact(earlier),
    ensures
        2 * columns(earlier).len() == earlier.len(),
{
    assert forall|col: usize| #[trigger] height(earlier, col) <= 2 by {}
    assert forall|a: usize, b: usize| #[trigger]
        height(earlier, a) == 1 && #[trigger] height(earlier, b) == 1 implies a == b by {}
    law_paired(earlier);
    if earlier.len() % 2 == 1 {
        let col = choose|col: usize| height(earlier, col) == 1;
        assert(height(earlier, col) == 2);
    }
}

/// A single column is stacked onto, if there is one.
proof fn lemma_target(others: Seq<WindowInfo>, col: usize)
    requires
        paired(others),
    ensures
        match target_column(others, col) {
            Some(target) => height(others, target) == 1,
            None => forall|c: usize| height(others, c) != 1,
        },
{
    if exists|c: usize| height(others, c) == 1 {
        let c = choose|c: usize| height(others, c) == 1;
        assert(is_target(others, col, c));
    }
    if exists|target: usize| is_target(others, col, target) {
        let target = choose|target: usize| is_target(others, col, target);
        assert(is_target(others, col, target));
    }
}

/// The windows of a screenful once one that joined them has found its place: in the target column, or
/// in the column of its own.
pub open spec fn joined(others: Seq<WindowInfo>, new: WindowInfo) -> Seq<WindowInfo> {
    let col = match target_column(others, column(new)->0) {
        Some(target) => target,
        None => column(new)->0,
    };
    let (_, place) = new.position->0;
    others.push(WindowInfo { position: Some((col, place)), ..new })
}

/// A window that joins paired windows in a column of its own keeps them paired: it is stacked onto the
/// single one, if there is one, and otherwise keeps its column.
pub proof fn law_pattern_grows(others: Seq<WindowInfo>, new: WindowInfo)
    requires
        all_placed(others),
        paired(others),
        new.position is Some,
        height(others, column(new)->0) == 0,
    ensures
        paired(joined(others, new)),
        target_column(others, column(new)->0) is Some <==> others.len() % 2 == 1,
        columns(others).len() + (if target_column(others, column(new)->0) is None {
            1nat
        } else {
            0
        }) == (others.len() + 2) / 2,
{
    let col = column(new)->0;
    law_paired(others);
    lemma_target(others, col);
    let all = joined(others, new);
    assert(all.drop_last() =~= others);
    let end = column(all.last())->0;
    if target_column(others, col) is Some {
        assert(height(others, end) == 1);
    }
    assert forall|c: usize| #[trigger] height(all, c) == height(others, c) + if c == end {
        1nat
    } else {
        0
    } by {}
    assert forall|c: usize| #[trigger] height(all, c) <= 2 by {
        assert(height(others, c) <= 2);
    }
    assert forall|a: usize, b: usize| #[trigger]
        height(all, a) == 1 && #[trigger] height(all, b) == 1 implies a == b by {
        assert(a != end ==> height(others, a) == 1);
        assert(b != end ==> height(others, b) == 1);
    }
}

/// The third window of a screenful, in a column of its own, is stacked onto one of two windows that
/// stand side by side. They are paired then, and nothing is resized.
pub proof fn law_third_window(
    desk: Desk,
    id: u64,
    ws: u64,
    row: Seq<WindowInfo>,
    start: nat,
    new: WindowInfo,
    focused: Option<u64>,
)
    requires
        row.len() == start + 3,
        all_placed(row),
        desk.intact(row.take(start as int)),
        with_id(row.skip(start as int), id) == Some(new),
        without_id(row.skip(start as int), id).len() == 2,
        columns(without_id(row.skip(start as int), id)).len() == 2,
        height(without_id(row.skip(start as int), id), column(new)->0) == 0,
        desk.maximized(row.skip(start as int)).len() == 0,
    ensures
        ({
            let others = without_id(row.skip(start as int), id);
            let outcome = desk.placement(id, ws, row, start, focused);
            &&& exists|target: usize|
                height(others, target) == 1 && outcome.effects == #[trigger] stacking(
                    id,
                    column(new)->0,
                    target,
                    focused,
                )
            &&& outcome.snap is None
            &&& paired(joined(others, new))
        }),
{
    let earlier = row.take(start as int);
    let group = row.skip(start as int);
    let others = without_id(group, id);
    let col = column(new)->0;
    lemma_with_id(group, id);
    let at = choose|at: int| 0 <= at < group.len() && group[at] == new;
    assert(row[start + at] == new);
    lemma_maximized(desk, group, at);
    assert(all_placed(group));
    lemma_others_placed(group, id);
    let a = column(others[0])->0;
    let b = column(others[1])->0;
    assert(others[0].position is Some && others[1].position is Some);
    assert(others.drop_last().drop_last() =~= Seq::empty());
    reveal_with_fuel(height, 3);
    reveal_with_fuel(columns, 3);
    if a == b {
        assert(columns(others) =~= set![a]);
        assert(columns(others).len() == 1);
    }
    assert forall|c: usize| #[trigger] height(others, c) == if c == a || c == b {
        1nat
    } else {
        0
    } by {}
    let nearer = if columns_apart(a, col) < columns_apart(b, col) || (columns_apart(a, col)
        == columns_apart(b, col) && b <= a) {
        a
    } else {
        b
    };
    assert(is_target(others, col, nearer));
    let target = target_column(others, col)->0;
    assert(is_target(others, col, target));
    let all = joined(others, new);
    assert(all.drop_last() =~= others);
    assert forall|c: usize| #[trigger] height(all, c) == height(others, c) + if c == target {
        1nat
    } else {
        0
    } by {}
    let outcome = desk.placement(id, ws, row, start, focused);
    assert(outcome == desk.joining(ws, new, start, group, focused));
    assert(outcome.effects == stacking(id, col, target, focused));
}

/// A window that joins two or more paired windows of a screenful, in a column of its own, fills the
/// pattern up. With an odd number of them it is stacked onto the single one; with an even number it
/// goes to the end of the row unless it stands there. From the fifth window on there are three
/// columns, and all windows of the screenful get a third of the width.
pub proof fn law_pattern_fills_up(
    desk: Desk,
    id: u64,
    ws: u64,
    row: Seq<WindowInfo>,
    start: nat,
    new: WindowInfo,
    focused: Option<u64>,
)
    requires
        start <= row.len(),
        3 <= row.len() - start <= SCREENFUL,
        all_placed(row),
        desk.intact(row.take(start as int)),
        with_id(row.skip(start as int), id) == Some(new),
        without_id(row.skip(start as int), id).len() == row.len() - start - 1,
        paired(without_id(row.skip(start as int), id)),
        height(without_id(row.skip(start as int), id), column(new)->0) == 0,
        desk.maximized(row.skip(start as int)).len() == 0,
    ensures
        ({
            let group = row.skip(start as int);
            let others = without_id(group, id);
            let col = column(new)->0;
            let end = (columns(row.take(start as int)).len() + columns(others).len() + 1) as usize;
            let outcome = desk.placement(id, ws, row, start, focused);
            &&& group.len() % 2 == 0 ==> exists|target: usize|
                height(others, target) == 1 && (#[trigger] stacking(
                    id,
                    col,
                    target,
                    focused,
                )).is_prefix_of(outcome.effects)
            &&& group.len() % 2 == 1 && col < end ==> moving_to_end(
                id,
                end,
                focused,
            ).is_prefix_of(outcome.effects)
            &&& outcome.snap is Some <==> group.len() >= 5
            &&& outcome.snap matches Some(snap) ==> snap.columns == 3 && snap.ids == ids(group)
                && snap.leftmost == group[0].id && snap.ws == ws
        }),
{
    let earlier = row.take(start as int);
    let group = row.skip(start as int);
    let others = without_id(group, id);
    let col = column(new)->0;
    assert(earlier.len() == start);
    assert(all_placed(earlier));
    law_intact_columns(desk, earlier);
    lemma_with_id(group, id);
    let at = choose|at: int| 0 <= at < group.len() && group[at] == new;
    assert(row[start + at] == new);
    lemma_maximized(desk, group, at);
    lemma_others_placed(group, id);
    law_pattern_grows(others, new);
    lemma_target(others, col);
    lemma_columns(others, col);
    lemma_columns(earlier, col);
    let outcome = desk.placement(id, ws, row, start, focused);
    assert(outcome == desk.joining(ws, new, start, group, focused));
    match target_column(others, col) {
        Some(target) => {
            assert(stacking(id, col, target, focused).is_prefix_of(outcome.effects));
        },
        None => {},
    }
}

/// A window that is maximized is among the maximized ones.
proof fn lemma_maximized(desk: Desk, windows: Seq<WindowInfo>, at: int)
    requires
        0 <= at < windows.len(),
        desk.maximized(windows).len() == 0,
    ensures
        !desk.is_maximized(windows[at]),
{
    broadcast use vstd::seq_lib::group_filter_ensures;

    let keep = |w: WindowInfo| desk.is_maximized(w);
    if keep(windows[at]) {
        assert(windows.filter(keep).contains(windows[at]));
    }
}

/// Leaving a window out leaves the others where they are.
proof fn lemma_others_placed(windows: Seq<WindowInfo>, id: u64)
    requires
        all_placed(windows),
    ensures
        all_placed(without_id(windows, id)),
    decreases windows.len(),
{
    reveal(Seq::filter);
    if windows.len() > 0 {
        let rest = windows.drop_last();
        assert forall|i: int| 0 <= i < rest.len() implies (#[trigger] rest[i]).position is Some by {
            assert(rest[i] == windows[i]);
        }
        lemma_others_placed(rest, id);
        assert(windows[windows.len() - 1].position is Some);
        let others = without_id(windows, id);
        assert forall|i: int| 0 <= i < others.len() implies (
        #[trigger] others[i]).position is Some by {
            if i < without_id(rest, id).len() {
                assert(others[i] == without_id(rest, id)[i]);
            }
        }
    }
}

/// When windows have left and those that remain in the last screenful are paired, the columns that
/// are left get equal shares of the width, unless the windows have these already or were not sharing
/// the width equally.
pub proof fn law_pattern_shrinks(
    desk: Desk,
    ws: u64,
    tiled: Seq<WindowInfo>,
    focused: Option<u64>,
)
    requires
        desk.manages(tiled),
        tiled.len() >= screenful_start(tiled.len()) + 2,
        desk.intact(ordered(tiled).take(screenful_start(tiled.len()) as int)),
        paired(ordered(tiled).skip(screenful_start(tiled.len()) as int)),
    ensures
        ({
            let group = ordered(tiled).skip(screenful_start(tiled.len()) as int);
            let count = (group.len() + 1) / 2;
            desk.departure(ws, tiled, focused) == match desk.common_share(group, 2) {
                Some(share) => if share != count {
                    sharing(ws, group, count as usize)
                } else {
                    nothing()
                },
                None => nothing(),
            }
        }),
{
    let start = screenful_start(tiled.len()) as int;
    let row = ordered(tiled);
    let group = row.skip(start);
    lemma_ordered(tiled);
    assert forall|i: int| 0 <= i < group.len() implies (#[trigger] group[i]).position is Some by {
        assert(group[i] == row[start + i]);
    }
    law_paired(group);
}

/// Whether windows are resized only where the new widths are waited for, and the other way round.
pub open spec fn awaited(outcome: Outcome) -> bool {
    &&& forall|id: u64, columns: usize|
        outcome.effects.contains(Effect::Do(Action::SetWindowWidth { id, columns })) ==> (
        outcome.snap matches Some(snap) && snap.columns == columns && snap.ids.contains(id))
    &&& outcome.snap matches Some(snap) ==> forall|id: u64| #[trigger]
        snap.ids.contains(id) ==> outcome.effects.contains(
            Effect::Do(Action::SetWindowWidth { id, columns: snap.columns }),
        )
}

/// Whether effects resize no window.
pub open spec fn no_resize(effects: Seq<Effect>) -> bool {
    forall|i: int| 0 <= i < effects.len() ==> !is_resize(#[trigger] effects[i])
}

/// Whether an effect resizes a window.
pub open spec fn is_resize(effect: Effect) -> bool {
    effect matches Effect::Do(Action::SetWindowWidth { .. })
}

/// Steps that resize no window, followed by equal shares that are waited for.
proof fn lemma_awaited(steps: Seq<Effect>, ws: u64, group: Seq<WindowInfo>, columns: usize)
    requires
        no_resize(steps),
    ensures
        awaited(
            Outcome {
                effects: steps + sharing(ws, group, columns).effects,
                snap: sharing(ws, group, columns).snap,
            },
        ),
        awaited(Outcome { effects: steps, snap: None }),
{
    let sizes = sizing(ids(group), columns);
    let shares = sharing(ws, group, columns);
    let effects = steps + shares.effects;
    assert forall|id: u64, n: usize|
        effects.contains(Effect::Do(Action::SetWindowWidth { id, columns: n })) implies n == columns
        && ids(group).contains(id) by {
        let effect = Effect::Do(Action::SetWindowWidth { id, columns: n });
        let i = choose|i: int| 0 <= i < effects.len() && effects[i] == effect;
        assert(is_resize(effects[i]));
        if i < steps.len() {
            assert(effects[i] == steps[i]);
        } else if i == steps.len() {
            assert(effects[i] == shares.effects[0]);
        } else {
            assert(effects[i] == sizes[i - steps.len() - 1]);
            assert(ids(group)[i - steps.len() - 1] == id);
        }
    }
    assert forall|id: u64| #[trigger] ids(group).contains(id) implies effects.contains(
        Effect::Do(Action::SetWindowWidth { id, columns }),
    ) by {
        let k = choose|k: int| 0 <= k < ids(group).len() && ids(group)[k] == id;
        assert(sizes[k] == Effect::Do(Action::SetWindowWidth { id, columns }));
        assert(effects[steps.len() + 1 + k] == sizes[k]);
    }
    assert forall|id: u64, n: usize| !steps.contains(
        Effect::Do(Action::SetWindowWidth { id, columns: n }),
    ) by {
        let effect = Effect::Do(Action::SetWindowWidth { id, columns: n });
        if steps.contains(effect) {
            let i = choose|i: int| 0 <= i < steps.len() && steps[i] == effect;
            assert(is_resize(steps[i]));
        }
    }
}

/// Whenever windows are resized, the view is snapped once they have taken on their new widths: the
/// snap waits for these windows and these widths, and for no others.
pub proof fn law_resized_windows_are_awaited(
    desk: Desk,
    id: u64,
    ws: u64,
    tiled: Seq<WindowInfo>,
    start: nat,
    focused: Option<u64>,
)
    ensures
        awaited(desk.departure(ws, tiled, focused)),
        desk.arrival(id, ws, tiled, focused) matches Verdict::Settled(outcome) ==> awaited(outcome),
        awaited(desk.second_look(id, ws, start, tiled, focused)),
{
    let row = ordered(tiled);
    let first = screenful_start(tiled.len());
    let group = row.skip(first as int);
    lemma_awaited(Seq::empty(), ws, group, columns(group).len() as usize);
    assert(Seq::empty() + sharing(ws, group, columns(group).len() as usize).effects =~= sharing(
        ws,
        group,
        columns(group).len() as usize,
    ).effects);
    lemma_awaited(desk.maximizing(group[0], focused).effects, ws, group, 1);
    lemma_placement_awaited(desk, id, ws, row, first, focused);
    lemma_placement_awaited(desk, id, ws, row, start, focused);
}

proof fn lemma_placement_awaited(
    desk: Desk,
    id: u64,
    ws: u64,
    row: Seq<WindowInfo>,
    start: nat,
    focused: Option<u64>,
)
    ensures
        awaited(desk.placement(id, ws, row, start, focused)),
{
    let group = row.skip(start as int);
    lemma_awaited(Seq::empty(), ws, group, 1);
    if let Some(new) = with_id(group, id) {
        lemma_awaited(desk.maximizing(new, focused).effects, ws, group, 1);
        lemma_awaited(desk.splitting(id, group, focused).effects, ws, group, 1);
        let others = without_id(group, new.id);
        let col = column(new)->0;
        let last = row.take(start as int).len() / 2 + columns(others).len() + 1;
        let target = target_column(others, col);
        let total = columns(others).len() + if target is None {
            1nat
        } else {
            0
        };
        let moves = match target {
            Some(target) => stacking(new.id, col, target, focused),
            None => if col < last {
                moving_to_end(new.id, last as usize, focused)
            } else {
                Seq::empty()
            },
        };
        lemma_awaited(moves, ws, group, total as usize);
    }
}

/// Whether windows are resized only as the snap says: it is about a screenful, and behind steps that
/// resize nothing each window of the screenful is resized once, in the order of the row.
pub open spec fn shared_out(outcome: Outcome, ws: u64, group: Seq<WindowInfo>) -> bool {
    match outcome.snap {
        Some(snap) => {
            &&& group.len() > 0
            &&& snap.ws == ws
            &&& snap.ids == ids(group)
            &&& snap.leftmost == group[0].id
            &&& exists|moves: Seq<Effect>| #[trigger]
                no_resize(moves) && outcome.effects == moves + (seq![
                    Effect::Log(Note::SizingColumns { ws, columns: snap.columns }),
                ] + sizing(snap.ids, snap.columns))
        },
        None => no_resize(outcome.effects),
    }
}

/// Whether the shares that an arrival hands out, if any, are those of three columns or more: as many
/// as the screenful has once the window has found its place.
pub open spec fn shared_by_columns(outcome: Outcome, group: Seq<WindowInfo>, id: u64) -> bool {
    outcome.snap matches Some(snap) ==> {
        &&& snap.columns >= 3
        &&& with_id(group, id) matches Some(new) && snap.columns == columns(
            joined(without_id(group, id), new),
        ).len()
    }
}

/// A window that joins others adds a column unless it is stacked.
proof fn lemma_joined_columns(others: Seq<WindowInfo>, new: WindowInfo)
    requires
        new.position is Some,
        height(others, column(new)->0) == 0,
    ensures
        columns(joined(others, new)).len() == columns(others).len() + if target_column(
            others,
            column(new)->0,
        ) is None {
            1nat
        } else {
            0
        },
{
    let col = column(new)->0;
    let all = joined(others, new);
    assert(all.drop_last() =~= others);
    lemma_columns(others, col);
    if let Some(target) = target_column(others, col) {
        assert(is_target(others, col, target));
        lemma_columns(others, target);
        assert(columns(all) =~= columns(others));
    }
}

proof fn lemma_placement_shared_out(
    desk: Desk,
    id: u64,
    ws: u64,
    row: Seq<WindowInfo>,
    start: nat,
    focused: Option<u64>,
)
    requires
        row.len() <= usize::MAX,
        start <= row.len(),
    ensures
        shared_out(desk.placement(id, ws, row, start, focused), ws, row.skip(start as int)),
        shared_by_columns(desk.placement(id, ws, row, start, focused), row.skip(start as int), id),
{
    let group = row.skip(start as int);
    let outcome = desk.placement(id, ws, row, start, focused);
    if let Some(new) = with_id(group, id) {
        lemma_with_id(group, id);
        lemma_without_id(group, id);
        let others = without_id(group, new.id);
        let col = column(new)->0;
        let last = row.take(start as int).len() / 2 + columns(others).len() + 1;
        let target = target_column(others, col);
        let moves = match target {
            Some(target) => stacking(new.id, col, target, focused),
            None => if col < last {
                moving_to_end(new.id, last as usize, focused)
            } else {
                Seq::empty()
            },
        };
        assert(no_resize(moves));
        if outcome.snap is Some {
            lemma_columns(others, col);
            lemma_joined_columns(others, new);
        }
    }
}

/// Settling a workspace resizes windows only together with a snap. Each window of the last screenful is
/// resized once then, in the order of the row. After an arrival this is so only for three columns or
/// more: as many as the screenful has once the window has found its place.
pub proof fn law_shares_of_the_screenful(
    desk: Desk,
    id: u64,
    ws: u64,
    tiled: Seq<WindowInfo>,
    start: nat,
    focused: Option<u64>,
)
    requires
        tiled.len() <= usize::MAX,
        start <= tiled.len(),
    ensures
        ({
            let group = ordered(tiled).skip(screenful_start(tiled.len()) as int);
            &&& match desk.arrival(id, ws, tiled, focused) {
                Verdict::Settled(outcome) => {
                    &&& shared_out(outcome, ws, group)
                    &&& shared_by_columns(outcome, group, id)
                },
                Verdict::Moved { effects, .. } => no_resize(effects),
            }
            &&& shared_out(desk.departure(ws, tiled, focused), ws, group)
            &&& desk.departure(ws, tiled, focused).snap matches Some(snap) ==> snap.columns
                == columns(group).len()
        }),
        ({
            let group = ordered(tiled).skip(start as int);
            let outcome = desk.second_look(id, ws, start, tiled, focused);
            shared_out(outcome, ws, group) && shared_by_columns(outcome, group, id)
        }),
{
    let row = ordered(tiled);
    let first = screenful_start(tiled.len());
    lemma_ordered(tiled);
    lemma_placement_shared_out(desk, id, ws, row, start, focused);
    if tiled.len() > 0 {
        let group = row.skip(first as int);
        lemma_placement_shared_out(desk, id, ws, row, first, focused);
        lemma_columns(group, 0);
        let outcome = desk.departure(ws, tiled, focused);
        if outcome.snap is Some {
            let moves = Seq::<Effect>::empty();
            assert(no_resize(moves));
            assert(outcome.effects =~= moves + outcome.effects);
        }
    }
}

/// What is waited for is replaced exactly when windows were resized and every step could be sent: by
/// the snap that came with the steps, for as long as a snap is waited for. Otherwise it stays.
pub proof fn law_waits_for_what_was_resized(
    desk: Desk,
    outcome: Outcome,
    ws: u64,
    group: Seq<WindowInfo>,
    sent: bool,
    now: u64,
)
    requires
        shared_out(outcome, ws, group),
    ensures
        no_resize(outcome.effects) <==> outcome.snap is None,
        desk.concluded(sent, outcome.snap, now) == if sent && !no_resize(outcome.effects) {
            Some(Pending { snap: outcome.snap->0, expires: (now + SNAP_TIMEOUT) as u64 })
        } else {
            desk.pending
        },
{
    if let Some(snap) = outcome.snap {
        let moves = choose|moves: Seq<Effect>| #[trigger]
            no_resize(moves) && outcome.effects == moves + (seq![
                Effect::Log(Note::SizingColumns { ws, columns: snap.columns }),
            ] + sizing(snap.ids, snap.columns));
        assert(snap.ids[0] == group[0].id);
        assert(is_resize(outcome.effects[moves.len() as int + 1]));
    }
}

} // verus!
