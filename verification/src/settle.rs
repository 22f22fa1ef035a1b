//! Settling a workspace after a window has come or gone.
use crate::cleave::Cleave;
use crate::effect::{extend, Action, Arrival, Effect, Note, Settlement, Snap};
use crate::rules::{
    columns_apart, done, focusing, is_target, moving_to_end, nothing, screenful_start, sharing,
    sizing, stacking, target_column, toggling, SCREENFUL,
};
use crate::window::{
    all_placed, column, column_height, columns, distinct_columns, exclude_id, find_id, height,
    lemma_columns, lemma_ordered, lemma_with_id, lemma_without_id, sorted_by_position, window_ids,
    with_id, WindowInfo,
};
use vstd::prelude::*;

verus! {

/// Nothing to do.
fn no_settlement() -> (r: Settlement)
    ensures
        r@ == nothing(),
{
    let r = Settlement { effects: Vec::new(), snap: None };
    assert(r@.effects =~= Seq::empty());
    r
}

/// Steps to log and carry out something.
fn settled(note: Note, steps: Vec<Effect>) -> (r: Settlement)
    ensures
        r@ == done(note, steps@),
{
    let mut effects: Vec<Effect> = Vec::new();
    effects.push(Effect::Log(note));
    extend(&mut effects, &steps);
    let r = Settlement { effects, snap: None };
    assert(r@.effects =~= done(note, steps@).effects);
    r
}

/// `steps` with a window focused, after which the focus goes back to where it was.
fn with_focus(id: u64, focused: Option<u64>, steps: Vec<Effect>) -> (r: Vec<Effect>)
    ensures
        r@ == focusing(id, focused, steps@),
{
    match focused {
        Some(back) => if back == id {
            steps
        } else {
            let mut effects: Vec<Effect> = Vec::new();
            effects.push(Effect::Do(Action::FocusWindow { id }));
            extend(&mut effects, &steps);
            effects.push(Effect::Do(Action::FocusWindow { id: back }));
            assert(effects@ =~= focusing(id, focused, steps@));
            effects
        },
        None => steps,
    }
}

/// Moves a window's column to the given place in the row.
fn move_to_end(id: u64, index: usize, focused: Option<u64>) -> (r: Vec<Effect>)
    ensures
        r@ == moving_to_end(id, index, focused),
{
    let mut steps: Vec<Effect> = Vec::new();
    steps.push(Effect::Do(Action::MoveColumnToIndex { index }));
    assert(steps@ =~= seq![Effect::Do(Action::MoveColumnToIndex { index })]);
    let moving = with_focus(id, focused, steps);
    let mut effects: Vec<Effect> = Vec::new();
    effects.push(Effect::Log(Note::MovingToEnd { id }));
    extend(&mut effects, &moving);
    assert(effects@ =~= moving_to_end(id, index, focused));
    effects
}

/// Stacks a window that is alone in column `col` into the target column.
fn stack(id: u64, col: usize, target: usize, focused: Option<u64>) -> (r: Vec<Effect>)
    requires
        col != target,
    ensures
        r@ == stacking(id, col, target, focused),
{
    let right = Effect::Do(Action::ConsumeOrExpelWindowRight { id });
    let left = Effect::Do(Action::ConsumeOrExpelWindowLeft { id });
    let mut steps: Vec<Effect> = Vec::new();
    if col < target {
        if target - col > 1 {
            steps.push(Effect::Do(Action::MoveColumnToIndex { index: target - 1 }));
        }
        steps.push(right);
    } else {
        if col - target > 1 {
            steps.push(Effect::Do(Action::MoveColumnToIndex { index: target + 1 }));
        }
        steps.push(left);
    }
    let ghost plain = steps@;
    let steps = if steps.len() > 1 { with_focus(id, focused, steps) } else { steps };
    let mut effects: Vec<Effect> = Vec::new();
    effects.push(Effect::Log(Note::Stacking { id, target }));
    extend(&mut effects, &steps);
    proof {
        if target == col + 1 {
            assert(plain =~= seq![right]);
        } else if target + 1 == col {
            assert(plain =~= seq![left]);
        } else if col < target {
            assert(plain =~= seq![
                Effect::Do(Action::MoveColumnToIndex { index: (target - 1) as usize }),
                right,
            ]);
        } else {
            assert(plain =~= seq![
                Effect::Do(Action::MoveColumnToIndex { index: (target + 1) as usize }),
                left,
            ]);
        }
        assert(effects@ =~= stacking(id, col, target, focused));
    }
    effects
}

/// At most one column can be the target.
proof fn lemma_one_target(others: Seq<WindowInfo>, col: usize, target: usize)
    requires
        is_target(others, col, target),
    ensures
        target_column(others, col) == Some(target),
{
    let chosen = choose|t: usize| is_target(others, col, t);
    assert(is_target(others, col, chosen));
    assert(height(others, target) == 1 && height(others, chosen) == 1);
}

/// Whether a window in column `col` would sooner be stacked into `a` than into `b`.
fn is_better(a: usize, b: usize, col: usize) -> (r: bool)
    ensures
        r == (columns_apart(a, col) < columns_apart(b, col) || (columns_apart(a, col)
            == columns_apart(b, col) && b <= a)),
{
    let from_a: usize = if a < col { col - a } else { a - col };
    let from_b: usize = if b < col { col - b } else { b - col };
    from_a < from_b || (from_a == from_b && b <= a)
}

/// The column to stack a window of column `col` into, if there is one that holds a single window.
pub fn stacking_target(others: &[WindowInfo], col: usize) -> (r: Option<usize>)
    ensures
        r == target_column(others@, col),
        r matches Some(target) ==> is_target(others@, col, target),
{
    let cols = distinct_columns(others);
    let mut best: Option<usize> = None;
    let mut i: usize = 0;
    while i < cols.len()
        invariant
            i <= cols.len(),
            match best {
                Some(b) => height(others@, b) == 1 && forall|k: int|
                    0 <= k < i && height(others@, #[trigger] cols@[k]) == 1 ==> {
                        ||| columns_apart(b, col) < columns_apart(cols@[k], col)
                        ||| columns_apart(b, col) == columns_apart(cols@[k], col) && cols@[k] <= b
                    },
                None => forall|k: int| 0 <= k < i ==> height(others@, #[trigger] cols@[k]) != 1,
            },
        decreases cols.len() - i,
    {
        let candidate = cols[i];
        if column_height(others, candidate) == 1 {
            best = match best {
                Some(b) => if is_better(b, candidate, col) { Some(b) } else { Some(candidate) },
                None => Some(candidate),
            };
        }
        i = i + 1;
    }
    proof {
        assert forall|c: usize| #[trigger] height(others@, c) == 1 implies exists|k: int|
            0 <= k < cols.len() && cols@[k] == c by {
            lemma_columns(others@, c);
            assert(cols@.to_set().contains(c));
            assert(cols@.contains(c));
        }
        match best {
            Some(b) => {
                assert(is_target(others@, col, b));
                lemma_one_target(others@, col, b);
            },
            None => {
                assert(forall|t: usize| !is_target(others@, col, t));
            },
        }
    }
    best
}

/// How many windows come before the last screenful.
fn last_screenful(count: usize) -> (r: usize)
    requires
        count > 0,
    ensures
        r == screenful_start(count as nat),
        r < count <= r + SCREENFUL,
{
    (count - 1) / SCREENFUL * SCREENFUL
}

/// Whether some window is in a column to the right of `col`.
fn any_right_of(row: &[WindowInfo], col: usize) -> (r: bool)
    ensures
        r == exists|i: int|
            0 <= i < row@.len() && (#[trigger] row@[i]).position is Some && col < column(
                row@[i],
            )->0,
{
    let mut i: usize = 0;
    while i < row.len()
        invariant
            i <= row.len(),
            forall|k: int|
                0 <= k < i ==> !((#[trigger] row@[k]).position is Some && col < column(row@[k])->0),
        decreases row.len() - i,
    {
        if let Some((c, _)) = row[i].position {
            if col < c {
                assert(row@[i as int].position is Some && col < column(row@[i as int])->0);
                return true;
            }
        }
        i = i + 1;
    }
    false
}

impl Cleave {
    /// Toggles whether a window's column is maximized, keeping the focus where it is.
    pub fn toggle_maximize(id: u64, focused: Option<u64>) -> (r: Vec<Effect>)
        ensures
            r@ == toggling(id, focused),
    {
        let mut steps: Vec<Effect> = Vec::new();
        steps.push(Effect::Do(Action::MaximizeColumn));
        assert(steps@ =~= seq![Effect::Do(Action::MaximizeColumn)]);
        with_focus(id, focused, steps)
    }

    /// Maximizes a window unless it is.
    pub fn maximize_if_needed(&self, window: &WindowInfo, focused: Option<u64>) -> (r: Settlement)
        ensures
            r@ == self@.maximizing(*window, focused),
    {
        if self.is_maximized(window) {
            no_settlement()
        } else {
            settled(
                Note::MaximizingSolo { id: window.id },
                Cleave::toggle_maximize(window.id, focused),
            )
        }
    }

    /// Gives windows equal shares of the width.
    pub fn set_equal_shares(ws: u64, list: &Vec<u64>, columns: usize) -> (r: Vec<Effect>)
        ensures
            r@ == seq![Effect::Log(Note::SizingColumns { ws, columns })] + sizing(list@, columns),
    {
        let mut effects: Vec<Effect> = Vec::new();
        effects.push(Effect::Log(Note::SizingColumns { ws, columns }));
        let ghost start = effects@;
        let mut i: usize = 0;
        while i < list.len()
            invariant
                i <= list.len(),
                effects@ =~= start + sizing(list@.take(i as int), columns),
            decreases list.len() - i,
        {
            effects.push(Effect::Do(Action::SetWindowWidth { id: list[i], columns }));
            i = i + 1;
        }
        assert(list@.take(i as int) =~= list@);
        assert(start =~= seq![Effect::Log(Note::SizingColumns { ws, columns })]);
        effects
    }

    /// Gives the windows of a screenful equal shares.
    fn share_out(ws: u64, group: &[WindowInfo], columns: usize) -> (r: Settlement)
        requires
            group@.len() > 0,
        ensures
            r@ == sharing(ws, group@, columns),
    {
        let list = window_ids(group);
        let effects = Cleave::set_equal_shares(ws, &list, columns);
        let leftmost = group[0].id;
        Settlement { effects, snap: Some(Snap { ws, ids: list, leftmost, columns }) }
    }

    /// Whether screenfuls are shaped as they should be: every column holds two windows, and every
    /// window takes up a third of the width.
    pub fn earlier_groups_intact(&self, earlier: &[WindowInfo]) -> (r: bool)
        ensures
            r == self@.intact(earlier@),
    {
        let cols = distinct_columns(earlier);
        let mut i: usize = 0;
        while i < cols.len()
            invariant
                i <= cols.len(),
                cols@.to_set() == columns(earlier@),
                forall|k: int| 0 <= k < i ==> height(earlier@, #[trigger] cols@[k]) == 2,
            decreases cols.len() - i,
        {
            if column_height(earlier, cols[i]) != 2 {
                proof {
                    let col = cols@[i as int];
                    lemma_columns(earlier@, col);
                    assert(cols@.contains(col));
                    assert(cols@.to_set().contains(col));
                    assert(height(earlier@, col) > 0);
                }
                return false;
            }
            i = i + 1;
        }
        proof {
            assert forall|col: usize| #[trigger] height(earlier@, col) > 0 implies height(
                earlier@,
                col,
            ) == 2 by {
                lemma_columns(earlier@, col);
                assert(cols@.to_set().contains(col));
                assert(cols@.contains(col));
            }
        }
        self.all_share(earlier, 3)
    }

    /// Of the shares from one half to one eighth, the largest that all the windows have.
    pub fn largest_common_share(&self, windows: &[WindowInfo]) -> (r: Option<usize>)
        ensures
            match r {
                Some(share) => self@.common_share(windows@, 2) == Some(share as nat),
                None => self@.common_share(windows@, 2) is None,
            },
    {
        let mut share: usize = 2;
        while share <= 8
            invariant
                2 <= share <= 9,
                self@.common_share(windows@, 2) == self@.common_share(windows@, share as nat),
            decreases 9 - share,
        {
            if self.all_share(windows, share) {
                return Some(share);
            }
            share = share + 1;
        }
        None
    }

    /// What to do on a workspace that a window has left. `tiled` are the workspace's tiled windows
    /// and `focused` is the window that has the focus.
    pub fn depart(&self, ws: u64, tiled: Vec<WindowInfo>, focused: Option<u64>) -> (r: Settlement)
        ensures
            r@ == self@.departure(ws, tiled@, focused),
    {
        let count = tiled.len();
        if count == 0 || count > self.max_tiles() {
            return no_settlement();
        }
        let ghost windows = tiled@;
        let row = match sorted_by_position(tiled) {
            Some(row) => row,
            None => {
                return no_settlement();
            },
        };
        proof {
            lemma_ordered(windows);
        }
        let start = last_screenful(count);
        let (earlier, group) = row.as_slice().split_at(start);
        assert(earlier@ =~= row@.take(start as int));
        assert(group@ =~= row@.skip(start as int));
        if !self.earlier_groups_intact(earlier) {
            return no_settlement();
        }
        if group.len() == 1 {
            assert(group@[0] == row@[start as int]);
            return match group[0].position {
                Some((col, _)) => if column_height(earlier, col) > 0 {
                    no_settlement()
                } else {
                    self.maximize_if_needed(&group[0], focused)
                },
                None => no_settlement(),
            };
        }
        let columns_now = distinct_columns(group).len();
        match self.largest_common_share(group) {
            Some(share) => if share != columns_now {
                Cleave::share_out(ws, group, columns_now)
            } else {
                no_settlement()
            },
            None => no_settlement(),
        }
    }

    /// What to do on a workspace that a window has left. `tiled` are the workspace's tiled windows.
    pub fn settle_departure(&self, ws: u64, tiled: Vec<WindowInfo>) -> (r: Settlement)
        ensures
            exists|focused: Option<u64>| #[trigger]
                self@.may_be_focused(focused) && r@ == self@.departure(ws, tiled@, focused),
    {
        let focused = self.focused_id();
        self.depart(ws, tiled, focused)
    }

    /// The maximized windows among the given ones.
    fn keep_maximized(&self, windows: &[WindowInfo]) -> (r: Vec<WindowInfo>)
        ensures
            r@ == self@.maximized(windows@),
    {
        let mut kept: Vec<WindowInfo> = Vec::new();
        let ghost keep = |w: WindowInfo| self@.is_maximized(w);
        let mut i: usize = 0;
        proof {
            reveal(Seq::filter);
        }
        while i < windows.len()
            invariant
                i <= windows.len(),
                keep == (|w: WindowInfo| self@.is_maximized(w)),
                kept@ == windows@.take(i as int).filter(keep),
            decreases windows.len() - i,
        {
            proof {
                reveal(Seq::filter);
                assert(windows@.take(i + 1).drop_last() =~= windows@.take(i as int));
            }
            if self.is_maximized(&windows[i]) {
                kept.push(windows[i]);
            }
            i = i + 1;
        }
        assert(windows@.take(i as int) =~= windows@);
        kept
    }

    /// A third or later window joins a screenful.
    fn join(
        &self,
        ws: u64,
        new: WindowInfo,
        before: usize,
        group: &[WindowInfo],
        focused: Option<u64>,
    ) -> (r: Settlement)
        requires
            with_id(group@, new.id) is Some,
            before + group@.len() <= usize::MAX,
        ensures
            r@ == self@.joining(ws, new, before as nat, group@, focused),
    {
        let maxed = self.keep_maximized(group);
        if maxed.len() > 0 {
            return no_settlement();
        }
        let others = exclude_id(group, new.id);
        let col = match new.position {
            Some((col, _)) => col,
            None => {
                return no_settlement();
            },
        };
        let others = others.as_slice();
        if column_height(others, col) > 0 {
            return no_settlement();
        }
        proof {
            lemma_without_id(group@, new.id);
        }
        let other_columns = distinct_columns(others).len();
        let target = stacking_target(others, col);
        let mut effects = match target {
            Some(target) => stack(new.id, col, target, focused),
            None => {
                let last = before / 2 + other_columns + 1;
                if col < last {
                    move_to_end(new.id, last, focused)
                } else {
                    Vec::new()
                }
            },
        };
        let total = if target.is_none() { other_columns + 1 } else { other_columns };
        if total >= 3 {
            let shares = Cleave::share_out(ws, group, total);
            extend(&mut effects, &shares.effects);
            Settlement { effects, snap: shares.snap }
        } else {
            Settlement { effects, snap: None }
        }
    }

    /// How a window that arrived finds its place in the last screenful of a row, which starts behind
    /// `start` windows.
    pub fn place(
        &self,
        id: u64,
        ws: u64,
        row: &[WindowInfo],
        start: usize,
        focused: Option<u64>,
    ) -> (r: Settlement)
        requires
            start <= row@.len(),
        ensures
            r@ == self@.placement(id, ws, row@, start as nat, focused),
    {
        let (earlier, group) = row.split_at(start);
        let size: usize = row.len() - start;
        assert(earlier@ =~= row@.take(start as int));
        assert(group@ =~= row@.skip(start as int));
        if !self.earlier_groups_intact(earlier) {
            return no_settlement();
        }
        let new = match find_id(group, id) {
            Some(new) => new,
            None => {
                return no_settlement();
            },
        };
        proof {
            lemma_with_id(group@, id);
        }
        if self.is_maximized(&new) {
            return no_settlement();
        }
        if size == 1 {
            return self.maximize_if_needed(&new, focused);
        }
        if size == 2 {
            let maxed = self.keep_maximized(group);
            if maxed.len() == 1 {
                let incumbent = maxed[0].id;
                return settled(
                    Note::Collapsing { incumbent, id },
                    Cleave::toggle_maximize(incumbent, focused),
                );
            }
            return no_settlement();
        }
        self.join(ws, new, start, group, focused)
    }

    /// What to do about a window that arrived on a workspace. `tiled` are the workspace's tiled
    /// windows and `focused` is the window that has the focus.
    pub fn arrive(
        &self,
        id: u64,
        ws: u64,
        tiled: Vec<WindowInfo>,
        focused: Option<u64>,
    ) -> (r: Arrival)
        ensures
            r@ == self@.arrival(id, ws, tiled@, focused),
    {
        let count = tiled.len();
        if count == 0 || count > self.max_tiles() {
            return Arrival::Settled(no_settlement());
        }
        let ghost windows = tiled@;
        let row = match sorted_by_position(tiled) {
            Some(row) => row,
            None => {
                return Arrival::Settled(no_settlement());
            },
        };
        proof {
            lemma_ordered(windows);
            lemma_with_id(row@, id);
        }
        let start = last_screenful(count);
        if count > SCREENFUL {
            let new = match find_id(row.as_slice(), id) {
                Some(new) => new,
                None => {
                    return Arrival::Settled(no_settlement());
                },
            };
            if let Some((col, _)) = new.position {
                let others = exclude_id(row.as_slice(), id);
                let alone = column_height(others.as_slice(), col) == 0;
                if alone && any_right_of(row.as_slice(), col) {
                    let columns_now = distinct_columns(row.as_slice()).len();
                    return Arrival::Moved { effects: move_to_end(id, columns_now, focused), start };
                }
            }
        }
        Arrival::Settled(self.place(id, ws, row.as_slice(), start, focused))
    }

    /// What to do about a window that arrived on a workspace. `tiled` are the workspace's tiled
    /// windows.
    pub fn settle_arrival(&self, id: u64, ws: u64, tiled: Vec<WindowInfo>) -> (r: Arrival)
        ensures
            exists|focused: Option<u64>| #[trigger]
                self@.may_be_focused(focused) && r@ == self@.arrival(id, ws, tiled@, focused),
    {
        let focused = self.focused_id();
        self.arrive(id, ws, tiled, focused)
    }

    /// What to do about a window that arrived and was moved to the end of the row, once the windows
    /// were fetched again. `start` is what [`Arrival::Moved`] says.
    pub fn arrive_again(
        &self,
        id: u64,
        ws: u64,
        start: usize,
        tiled: Vec<WindowInfo>,
        focused: Option<u64>,
    ) -> (r: Settlement)
        requires
            all_placed(tiled@) ==> start <= tiled@.len(),
        ensures
            r@ == self@.second_look(id, ws, start as nat, tiled@, focused),
    {
        let ghost windows = tiled@;
        proof {
            lemma_ordered(windows);
        }
        match sorted_by_position(tiled) {
            Some(row) => self.place(id, ws, row.as_slice(), start, focused),
            None => no_settlement(),
        }
    }

    /// What to do about a window that arrived and was moved to the end of the row, once the windows
    /// were fetched again. `start` is what [`Arrival::Moved`] says.
    pub fn resettle_arrival(&self, id: u64, ws: u64, start: usize, tiled: Vec<WindowInfo>) -> (r:
        Settlement)
        requires
            all_placed(tiled@) ==> start <= tiled@.len(),
        ensures
            exists|focused: Option<u64>| #[trigger]
                self@.may_be_focused(focused) && r@ == self@.second_look(
                    id,
                    ws,
                    start as nat,
                    tiled@,
                    focused,
                ),
    {
        let focused = self.focused_id();
        self.arrive_again(id, ws, start, tiled, focused)
    }
}

} // verus!
