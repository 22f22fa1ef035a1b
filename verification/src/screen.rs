//! What the steps come to on a workspace: where its windows stand once they are carried out, which of
//! them are maximized, and how wide they were made.
use crate::basics::{law_found_by_id, law_not_found, lemma_same_windows};
use crate::effect::{Action, Effect, Note, Verdict};
use crate::pattern::law_intact_columns;
use crate::rules::{
    columns_apart, focusing, is_target, moving_to_end, screenful_start, sharing, sizing, stacking,
    target_column, toggling, Desk,
};
use crate::window::{
    all_placed, column, columns, height, ids, lemma_columns, lemma_ordered, lemma_with_id,
    lemma_without_id, ordered, with_id, without_id, WindowInfo,
};
use vstd::prelude::*;

verus! {

/// A workspace as the compositor holds it.
pub struct Screen {
    /// The columns from left to right, each with the ids of its windows from top to bottom.
    pub row: Seq<Seq<u64>>,
    /// The window that actions without an id act on.
    pub active: Option<u64>,
    /// The windows that are maximized.
    pub wide: Set<u64>,
    /// Among how many columns the width was shared when a window was last resized.
    pub shares: Map<u64, usize>,
}

/// Whether a window is in a column of the row and in no other.
pub open spec fn only_in(row: Seq<Seq<u64>>, at: int, id: u64) -> bool {
    &&& 0 <= at < row.len()
    &&& row[at].contains(id)
    &&& forall|other: int| 0 <= other < row.len() && other != at ==> !(#[trigger] row[other]).contains(
        id,
    )
}

/// The column that a window is in, counted from 0.
pub open spec fn home(row: Seq<Seq<u64>>, id: u64) -> int {
    choose|at: int| only_in(row, at, id)
}

/// Whether a window is in the row.
pub open spec fn housed(row: Seq<Seq<u64>>, id: u64) -> bool {
    exists|at: int| only_in(row, at, id)
}

/// A row once a column has been moved to a place counted from 1, or to the end where there is no such
/// place.
pub open spec fn column_moved(row: Seq<Seq<u64>>, from: int, index: usize) -> Seq<Seq<u64>> {
    let to = if index == 0 {
        0
    } else if index > row.len() {
        row.len() - 1
    } else {
        index - 1
    };
    row.remove(from).insert(to, row[from])
}

impl Screen {
    /// The screen once an action has been carried out.
    pub open spec fn act(self, action: Action) -> Screen {
        match action {
            Action::FocusWindow { id } => Screen { active: Some(id), ..self },
            Action::MaximizeColumn => match self.active {
                Some(id) => if housed(self.row, id) {
                    let windows = self.row[home(self.row, id)].to_set();
                    Screen {
                        wide: if self.wide.contains(id) {
                            self.wide.difference(windows)
                        } else {
                            self.wide.union(windows)
                        },
                        ..self
                    }
                } else {
                    self
                },
                None => self,
            },
            Action::SetWindowWidth { id, columns } => Screen {
                shares: self.shares.insert(id, columns),
                ..self
            },
            Action::MoveColumnToIndex { index } => match self.active {
                Some(id) => if housed(self.row, id) {
                    Screen { row: column_moved(self.row, home(self.row, id), index), ..self }
                } else {
                    self
                },
                None => self,
            },
            Action::ConsumeOrExpelWindowLeft { id } => if housed(self.row, id) {
                let at = home(self.row, id);
                Screen {
                    row: if self.row[at].len() > 1 {
                        self.row.update(at, self.row[at].remove_value(id)).insert(at, seq![id])
                    } else if at > 0 {
                        self.row.update(at - 1, self.row[at - 1].push(id)).remove(at)
                    } else {
                        self.row
                    },
                    ..self
                }
            } else {
                self
            },
            Action::ConsumeOrExpelWindowRight { id } => if housed(self.row, id) {
                let at = home(self.row, id);
                Screen {
                    row: if self.row[at].len() > 1 {
                        self.row.update(at, self.row[at].remove_value(id)).insert(at + 1, seq![id])
                    } else if at + 1 < self.row.len() {
                        self.row.update(at + 1, self.row[at + 1].push(id)).remove(at)
                    } else {
                        self.row
                    },
                    ..self
                }
            } else {
                self
            },
        }
    }

    /// The screen once steps have been carried out.
    pub open spec fn after(self, effects: Seq<Effect>) -> Screen
        decreases effects.len(),
    {
        if effects.len() == 0 {
            self
        } else {
            let before = self.after(effects.drop_last());
            match effects.last() {
                Effect::Do(action) => before.act(action),
                Effect::Log(_) => before,
            }
        }
    }

    /// Whether no column is empty and every window stands in one place.
    pub open spec fn tidy(self) -> bool {
        &&& forall|c: int| 0 <= c < self.row.len() ==> (#[trigger] self.row[c]).len() > 0
        &&& forall|c: int, p: int, d: int, q: int|
            0 <= c < self.row.len() && 0 <= p < self.row[c].len() && 0 <= d < self.row.len() && 0 <= q
                < self.row[d].len() && #[trigger] self.row[c][p] == #[trigger] self.row[d][q] ==> c
                == d && p == q
    }

    /// Whether a window stands where it says.
    pub open spec fn seats(self, window: WindowInfo) -> bool {
        match window.position {
            Some((col, place)) => {
                &&& 1 <= col <= self.row.len()
                &&& 1 <= place <= self.row[col - 1].len()
                &&& self.row[col - 1][place - 1] == window.id
            },
            None => false,
        }
    }

    /// Whether a list of windows is what is on the screen: each stands where it says, all are listed,
    /// each once, and those are maximized that are known to be.
    pub open spec fn shows(self, desk: Desk, tiled: Seq<WindowInfo>) -> bool {
        &&& self.tidy()
        &&& forall|i: int| 0 <= i < tiled.len() ==> self.seats(#[trigger] tiled[i])
        &&& forall|c: int, p: int|
            0 <= c < self.row.len() && 0 <= p < self.row[c].len() ==> exists|i: int|
                0 <= i < tiled.len() && (#[trigger] tiled[i]).id == #[trigger] self.row[c][p]
        &&& forall|i: int, j: int|
            0 <= i < j < tiled.len() ==> (#[trigger] tiled[i]).id != (#[trigger] tiled[j]).id
        &&& forall|i: int|
            0 <= i < tiled.len() ==> (self.wide.contains((#[trigger] tiled[i]).id)
                <==> desk.is_maximized(tiled[i]))
    }

    /// Whether the window that actions act on is the one known to have the focus or, when none is
    /// known to, a given one.
    pub open spec fn acts_on(self, focused: Option<u64>, id: u64) -> bool {
        self.active == match focused {
            Some(known) => Some(known),
            None => Some(id),
        }
    }
}

proof fn lemma_home(row: Seq<Seq<u64>>, at: int, id: u64)
    requires
        only_in(row, at, id),
    ensures
        housed(row, id),
        home(row, id) == at,
{
    let found = home(row, id);
    assert(only_in(row, found, id));
}

proof fn lemma_seated(screen: Screen, c: int, p: int)
    requires
        screen.tidy(),
        0 <= c < screen.row.len(),
        0 <= p < screen.row[c].len(),
    ensures
        only_in(screen.row, c, screen.row[c][p]),
{
    let id = screen.row[c][p];
    assert(screen.row[c].contains(id));
    assert forall|other: int| 0 <= other < screen.row.len() && other != c implies !(
    #[trigger] screen.row[other]).contains(id) by {
        if screen.row[other].contains(id) {
            let q = choose|q: int| 0 <= q < screen.row[other].len() && screen.row[other][q] == id;
            assert(screen.row[other][q] == screen.row[c][p]);
        }
    }
}

proof fn lemma_after_sum(screen: Screen, a: Seq<Effect>, b: Seq<Effect>)
    ensures
        screen.after(a + b) == screen.after(a).after(b),
    decreases b.len(),
{
    if b.len() == 0 {
        assert(a + b =~= a);
    } else {
        assert((a + b).drop_last() =~= a + b.drop_last());
        lemma_after_sum(screen, a, b.drop_last());
    }
}

proof fn lemma_after_one(screen: Screen, effect: Effect)
    ensures
        screen.after(seq![effect]) == match effect {
            Effect::Do(action) => screen.act(action),
            Effect::Log(_) => screen,
        },
{
    assert(seq![effect].drop_last() =~= Seq::empty());
    assert(screen.after(Seq::empty()) == screen);
}

proof fn lemma_after_logged(screen: Screen, note: Note, steps: Seq<Effect>)
    ensures
        screen.after(seq![Effect::Log(note)] + steps) == screen.after(steps),
{
    lemma_after_sum(screen, seq![Effect::Log(note)], steps);
    lemma_after_one(screen, Effect::Log(note));
}

/// Steps that are carried out with a window focused.
proof fn lemma_after_focusing(screen: Screen, id: u64, focused: Option<u64>, steps: Seq<Effect>)
    requires
        screen.acts_on(focused, id),
        (Screen { active: Some(id), ..screen }).after(steps).active == Some(id),
    ensures
        screen.after(focusing(id, focused, steps)) == (Screen {
            active: screen.active,
            ..(Screen { active: Some(id), ..screen }).after(steps)
        }),
{
    let there = Screen { active: Some(id), ..screen };
    if let Some(back) = focused {
        if back != id {
            let go = Effect::Do(Action::FocusWindow { id });
            let come = Effect::Do(Action::FocusWindow { id: back });
            lemma_after_one(screen, go);
            lemma_after_sum(screen, seq![go], steps);
            lemma_after_one(there.after(steps), come);
            lemma_after_sum(screen, seq![go] + steps, seq![come]);
        }
    }
}

/// Maximizing a column, with its window focused.
proof fn lemma_after_toggling(screen: Screen, at: int, id: u64, focused: Option<u64>)
    requires
        screen.acts_on(focused, id),
        only_in(screen.row, at, id),
    ensures
        screen.after(toggling(id, focused)) == (Screen {
            wide: if screen.wide.contains(id) {
                screen.wide.difference(screen.row[at].to_set())
            } else {
                screen.wide.union(screen.row[at].to_set())
            },
            ..screen
        }),
{
    lemma_home(screen.row, at, id);
    let there = Screen { active: Some(id), ..screen };
    let step = Effect::Do(Action::MaximizeColumn);
    lemma_after_one(there, step);
    lemma_after_focusing(screen, id, focused, seq![step]);
}

/// Moving a window's column, with the window focused.
proof fn lemma_after_moving(screen: Screen, at: int, id: u64, index: usize, focused: Option<u64>)
    requires
        screen.acts_on(focused, id),
        only_in(screen.row, at, id),
    ensures
        screen.after(moving_to_end(id, index, focused)) == (Screen {
            row: column_moved(screen.row, at, index),
            ..screen
        }),
{
    lemma_home(screen.row, at, id);
    let there = Screen { active: Some(id), ..screen };
    let step = Effect::Do(Action::MoveColumnToIndex { index });
    lemma_after_one(there, step);
    lemma_after_focusing(screen, id, focused, seq![step]);
    lemma_after_logged(
        screen,
        Note::MovingToEnd { id },
        focusing(id, focused, seq![step]),
    );
}

/// A row once a window that was alone in a column has joined another one. Both are counted from 1.
pub open spec fn joined_row(row: Seq<Seq<u64>>, id: u64, col: usize, target: usize) -> Seq<
    Seq<u64>,
> {
    row.update(target - 1, row[target - 1].push(id)).remove(col - 1)
}

/// Stacking a window that is alone in its column puts it into the target column, however far away that
/// is, and leaves everything else as it is: every other window stays in the column that it was in, the
/// columns keep their order, and the focus goes back to where it was. A window right beside the target
/// is stacked without touching the focus.
#[verifier::spinoff_prover]
#[verifier::rlimit(40)]
pub proof fn law_stacking_lands_in_the_target(
    screen: Screen,
    id: u64,
    col: usize,
    target: usize,
    focused: Option<u64>,
)
    requires
        1 <= col <= screen.row.len() <= usize::MAX,
        1 <= target <= screen.row.len(),
        col != target,
        screen.row[col - 1] == seq![id],
        only_in(screen.row, col - 1, id),
        screen.acts_on(focused, id) || col == target + 1 || target == col + 1,
    ensures
        screen.after(stacking(id, col, target, focused)) == (Screen {
            row: joined_row(screen.row, id, col, target),
            ..screen
        }),
        stacking(id, col, target, focused)[0] == Effect::Log(Note::Stacking { id, target }),
        col == target + 1 || target == col + 1 || focused is None || focused == Some(id)
            ==> keeps_focus(stacking(id, col, target, focused)),
{
    let note = Note::Stacking { id, target };
    let right = Effect::Do(Action::ConsumeOrExpelWindowRight { id });
    let left = Effect::Do(Action::ConsumeOrExpelWindowLeft { id });
    lemma_home(screen.row, col - 1, id);
    if target == col + 1 {
        lemma_after_one(screen, right);
        lemma_after_logged(screen, note, seq![right]);
    } else if target + 1 == col {
        lemma_after_one(screen, left);
        lemma_after_logged(screen, note, seq![left]);
    } else {
        let index = if col < target {
            (target - 1) as usize
        } else {
            (target + 1) as usize
        };
        let consume = if col < target {
            right
        } else {
            left
        };
        let steps = seq![Effect::Do(Action::MoveColumnToIndex { index }), consume];
        lemma_beside_the_target(screen, id, col, target);
        lemma_after_focusing(screen, id, focused, steps);
        lemma_after_logged(screen, note, focusing(id, focused, steps));
    }
}

/// A column that is moved beside the target is consumed by it.
#[verifier::spinoff_prover]
#[verifier::rlimit(40)]
proof fn lemma_beside_the_target(screen: Screen, id: u64, col: usize, target: usize)
    requires
        1 <= col <= screen.row.len() <= usize::MAX,
        1 <= target <= screen.row.len(),
        col + 1 < target || target + 1 < col,
        screen.row[col - 1] == seq![id],
        only_in(screen.row, col - 1, id),
    ensures
        ({
            let index = if col < target {
                (target - 1) as usize
            } else {
                (target + 1) as usize
            };
            let consume = if col < target {
                Effect::Do(Action::ConsumeOrExpelWindowRight { id })
            } else {
                Effect::Do(Action::ConsumeOrExpelWindowLeft { id })
            };
            let there = Screen { active: Some(id), ..screen };
            there.after(seq![Effect::Do(Action::MoveColumnToIndex { index }), consume]) == (
            Screen { row: joined_row(screen.row, id, col, target), ..there })
        }),
{
    let row = screen.row;
    let at = col - 1;
    let index = if col < target {
        (target - 1) as usize
    } else {
        (target + 1) as usize
    };
    let consume = if col < target {
        Effect::Do(Action::ConsumeOrExpelWindowRight { id })
    } else {
        Effect::Do(Action::ConsumeOrExpelWindowLeft { id })
    };
    let step = Effect::Do(Action::MoveColumnToIndex { index });
    let there = Screen { active: Some(id), ..screen };
    let moved = column_moved(row, at, index);
    let spot = index - 1;
    lemma_home(row, at, id);
    lemma_only_in_moved(row, at, index, id);
    lemma_home(moved, spot, id);
    let midway = Screen { row: moved, ..there };
    lemma_after_one(there, step);
    lemma_after_one(midway, consume);
    lemma_after_sum(there, seq![step], seq![consume]);
    assert(seq![step] + seq![consume] =~= seq![step, consume]);
    if col < target {
        lemma_consumed_right(row, at, target - 1, id);
    } else {
        lemma_consumed_left(row, at, target - 1, id);
    }
    assert(midway.act(
        if col < target {
            Action::ConsumeOrExpelWindowRight { id }
        } else {
            Action::ConsumeOrExpelWindowLeft { id }
        },
    ).row == joined_row(row, id, col, target));
}

/// A column put behind another and consumed to the left ends up in it.
proof fn lemma_consumed_left(row: Seq<Seq<u64>>, at: int, to: int, id: u64)
    requires
        0 <= to < at < row.len(),
    ensures
        ({
            let moved = row.remove(at).insert(to + 1, row[at]);
            moved.update(to, moved[to].push(id)).remove(to + 1) == row.update(
                to,
                row[to].push(id),
            ).remove(at)
        }),
{
    let rest = row.remove(at);
    let moved = rest.insert(to + 1, row[at]);
    assert(moved[to] == row[to]);
    let x = row[to].push(id);
    assert(moved.update(to, x).remove(to + 1) =~= rest.update(to, x));
    assert(row.update(to, x).remove(at) =~= rest.update(to, x));
}

/// A column put in front of another and consumed to the right ends up in it.
proof fn lemma_consumed_right(row: Seq<Seq<u64>>, at: int, to: int, id: u64)
    requires
        0 <= at < to < row.len(),
    ensures
        ({
            let moved = row.remove(at).insert(to - 1, row[at]);
            moved.update(to, moved[to].push(id)).remove(to - 1) == row.update(
                to,
                row[to].push(id),
            ).remove(at)
        }),
{
    let rest = row.remove(at);
    let moved = rest.insert(to - 1, row[at]);
    assert(moved[to] == row[to]);
    let x = row[to].push(id);
    assert(moved.update(to, x).remove(to - 1) =~= rest.update(to - 1, x));
    assert(row.update(to, x).remove(at) =~= rest.update(to - 1, x));
}

/// A column that is moved stands where it was moved to.
proof fn lemma_only_in_moved(row: Seq<Seq<u64>>, at: int, index: usize, id: u64)
    requires
        only_in(row, at, id),
        1 <= index <= row.len(),
    ensures
        only_in(column_moved(row, at, index), index - 1, id),
        column_moved(row, at, index)[index - 1] == row[at],
{
    let moved = column_moved(row, at, index);
    let spot = index - 1;
    assert forall|other: int| 0 <= other < moved.len() && other != spot implies !(
    #[trigger] moved[other]).contains(id) by {
        let trimmed = row.remove(at);
        let k = if other < spot {
            other
        } else {
            other - 1
        };
        assert(moved[other] == trimmed[k]);
        let l = if k < at {
            k
        } else {
            k + 1
        };
        assert(trimmed[k] == row[l]);
    }
}

/// Whether effects focus no window.
pub open spec fn keeps_focus(effects: Seq<Effect>) -> bool {
    forall|i: int|
        0 <= i < effects.len() ==> !(#[trigger] effects[i] matches Effect::Do(
            Action::FocusWindow { .. },
        ))
}

/// Resizing windows changes nothing but their widths.
proof fn lemma_after_sizing(screen: Screen, list: Seq<u64>, columns: usize)
    ensures
        ({
            let then = screen.after(sizing(list, columns));
            &&& then.row == screen.row && then.active == screen.active && then.wide == screen.wide
            &&& resized(screen, then, list, columns)
        }),
    decreases list.len(),
{
    let steps = sizing(list, columns);
    if list.len() > 0 {
        let rest = list.drop_last();
        lemma_after_sizing(screen, rest, columns);
        assert(steps.drop_last() =~= sizing(rest, columns));
        let then = screen.after(steps);
        let before = screen.after(sizing(rest, columns));
        let last = list[list.len() - 1];
        assert(then.shares == before.shares.insert(last, columns));
        assert forall|id: u64| list.contains(id) implies #[trigger] then.shares.contains_key(id)
            && then.shares[id] == columns by {
            let k = choose|k: int| 0 <= k < list.len() && list[k] == id;
            if k < rest.len() {
                assert(rest[k] == id);
                assert(rest.contains(id));
                assert(before.shares.contains_key(id));
            }
        }
        assert forall|id: u64| !list.contains(id) implies #[trigger] then.shares.contains_key(id)
            == screen.shares.contains_key(id) && then.shares[id] == screen.shares[id] by {
            assert(list[list.len() - 1] != id);
            if rest.contains(id) {
                let k = choose|k: int| 0 <= k < rest.len() && rest[k] == id;
                assert(list[k] == id);
            }
            assert(before.shares.contains_key(id) == screen.shares.contains_key(id));
        }
    }
}

/// Whether the listed windows, and no others, were made one `columns`th wide.
pub open spec fn resized(screen: Screen, then: Screen, list: Seq<u64>, columns: usize) -> bool {
    &&& forall|id: u64|
        list.contains(id) ==> #[trigger] then.shares.contains_key(id) && then.shares[id] == columns
    &&& forall|id: u64|
        !list.contains(id) ==> #[trigger] then.shares.contains_key(id)
            == screen.shares.contains_key(id) && then.shares[id] == screen.shares[id]
}

/// What a screen says of the windows that it shows.
proof fn lemma_shown(screen: Screen, desk: Desk, tiled: Seq<WindowInfo>)
    requires
        screen.shows(desk, tiled),
    ensures
        all_placed(tiled),
        all_placed(ordered(tiled)),
        ordered(tiled).len() == tiled.len(),
        forall|i: int|
            0 <= i < tiled.len() ==> screen.seats(#[trigger] ordered(tiled)[i]) && tiled.contains(
                ordered(tiled)[i],
            ),
        forall|c: int, p: int|
            0 <= c < screen.row.len() && 0 <= p < screen.row[c].len() ==> exists|i: int|
                0 <= i < tiled.len() && (#[trigger] ordered(tiled)[i]).id == #[trigger] screen.row[c][p],
        forall|i: int|
            0 <= i < tiled.len() ==> (screen.wide.contains((#[trigger] ordered(tiled)[i]).id)
                <==> desk.is_maximized(ordered(tiled)[i])),
{
    let row = ordered(tiled);
    assert forall|i: int| 0 <= i < tiled.len() implies (#[trigger] tiled[i]).position is Some by {
        assert(screen.seats(tiled[i]));
    }
    lemma_ordered(tiled);
    lemma_same_windows(tiled);
    assert forall|i: int| 0 <= i < tiled.len() implies screen.seats(#[trigger] row[i])
        && tiled.contains(row[i]) && (screen.wide.contains(row[i].id) <==> desk.is_maximized(
        row[i],
    )) by {
        assert(row.contains(row[i]));
        let k = choose|k: int| 0 <= k < tiled.len() && tiled[k] == row[i];
        assert(screen.seats(tiled[k]));
    }
    assert forall|c: int, p: int|
        0 <= c < screen.row.len() && 0 <= p < screen.row[c].len() implies exists|i: int|
            0 <= i < tiled.len() && (#[trigger] row[i]).id == #[trigger] screen.row[c][p] by {
        let k = choose|k: int|
            0 <= k < tiled.len() && (#[trigger] tiled[k]).id == screen.row[c][p];
        assert(tiled.contains(tiled[k]));
        assert(row.contains(tiled[k]));
        let i = choose|i: int| 0 <= i < row.len() && row[i] == tiled[k];
        assert(row[i].id == screen.row[c][p]);
    }
}

/// Windows that bear one id are one window.
proof fn lemma_one_window(
    screen: Screen,
    desk: Desk,
    tiled: Seq<WindowInfo>,
    a: WindowInfo,
    b: WindowInfo,
)
    requires
        screen.shows(desk, tiled),
        tiled.contains(a),
        tiled.contains(b),
        a.id == b.id,
    ensures
        a == b,
{
    let i = choose|i: int| 0 <= i < tiled.len() && tiled[i] == a;
    let j = choose|j: int| 0 <= j < tiled.len() && tiled[j] == b;
    if i < j {
        assert(tiled[i].id != tiled[j].id);
    }
    if j < i {
        assert(tiled[j].id != tiled[i].id);
    }
}

/// The numbers from 1 up to `n`.
spec fn first_numbers(n: nat) -> Set<usize> {
    Set::new(|c: usize| 1 <= c <= n)
}

proof fn lemma_first_numbers(n: nat)
    requires
        n <= usize::MAX,
    ensures
        first_numbers(n).finite(),
        first_numbers(n).len() == n,
    decreases n,
{
    if n == 0 {
        assert(first_numbers(0) =~= Set::empty());
    } else {
        lemma_first_numbers((n - 1) as nat);
        assert(first_numbers(n) =~= first_numbers((n - 1) as nat).insert(n as usize));
        assert(!first_numbers((n - 1) as nat).contains(n as usize));
    }
}

/// A screen has as many columns as its windows stand in.
proof fn lemma_columns_shown(screen: Screen, desk: Desk, tiled: Seq<WindowInfo>)
    requires
        screen.shows(desk, tiled),
        screen.row.len() <= usize::MAX,
    ensures
        columns(ordered(tiled)).len() == screen.row.len(),
        columns(ordered(tiled)) == first_numbers(screen.row.len()),
{
    let row = ordered(tiled);
    lemma_shown(screen, desk, tiled);
    lemma_first_numbers(screen.row.len());
    assert forall|c: usize| columns(row).contains(c) <==> first_numbers(
        screen.row.len(),
    ).contains(c) by {
        lemma_columns(row, c);
        if columns(row).contains(c) {
            let i = choose|i: int| 0 <= i < row.len() && column(#[trigger] row[i]) == Some(c);
            assert(screen.seats(row[i]));
        }
        if 1 <= c <= screen.row.len() {
            assert(screen.row[c - 1].len() > 0);
            let i = choose|i: int|
                0 <= i < tiled.len() && (#[trigger] row[i]).id == screen.row[c - 1][0];
            lemma_same_column(screen, row[i], c - 1, 0);
        }
    }
    assert(columns(row) =~= first_numbers(screen.row.len()));
}

/// A window that bears the id at a place stands in that column.
proof fn lemma_same_column(screen: Screen, window: WindowInfo, c: int, p: int)
    requires
        screen.tidy(),
        screen.seats(window),
        0 <= c < screen.row.len(),
        0 <= p < screen.row[c].len(),
        screen.row[c][p] == window.id,
    ensures
        column(window) matches Some(col) && col == c + 1,
{
    match window.position {
        Some((col, place)) => {
            assert(screen.row[col - 1][place - 1] == screen.row[c][p]);
        },
        None => {},
    }
}

/// The row has no more columns than there are windows.
proof fn lemma_row_len(screen: Screen, desk: Desk, tiled: Seq<WindowInfo>, n: nat)
    requires
        screen.shows(desk, tiled),
        n <= screen.row.len(),
        n <= usize::MAX,
    ensures
        n <= tiled.len(),
{
    let row = ordered(tiled);
    lemma_shown(screen, desk, tiled);
    lemma_first_numbers(n);
    lemma_columns(row, 0);
    assert forall|c: usize| first_numbers(n).contains(c) implies columns(row).contains(c) by {
        lemma_columns(row, c);
        assert(screen.row[c - 1].len() > 0);
        let i = choose|i: int|
            0 <= i < tiled.len() && (#[trigger] row[i]).id == screen.row[c - 1][0];
        lemma_same_column(screen, row[i], c - 1, 0);
    }
    vstd::set_lib::lemma_len_subset(first_numbers(n), columns(row));
}

/// A screen fits the machine when its windows do.
proof fn lemma_row_fits(screen: Screen, desk: Desk, tiled: Seq<WindowInfo>)
    requires
        screen.shows(desk, tiled),
        tiled.len() <= usize::MAX,
    ensures
        screen.row.len() <= tiled.len(),
{
    if screen.row.len() > tiled.len() {
        if tiled.len() + 1 <= usize::MAX {
            lemma_row_len(screen, desk, tiled, tiled.len() + 1);
        } else {
            lemma_seats_fit(screen, desk, tiled);
        }
    }
}

/// Every column of a screen has a number that the machine can hold.
proof fn lemma_seats_fit(screen: Screen, desk: Desk, tiled: Seq<WindowInfo>)
    requires
        screen.shows(desk, tiled),
    ensures
        screen.row.len() <= usize::MAX,
{
    if screen.row.len() > usize::MAX {
        let c = usize::MAX as int;
        assert(screen.row[c].len() > 0);
        let i = choose|i: int| 0 <= i < tiled.len() && (#[trigger] tiled[i]).id == screen.row[c][0];
        assert(screen.seats(tiled[i]));
        lemma_same_column(screen, tiled[i], c, 0);
    }
}

/// A window alone in its column shares it with no other listed window, and the other way round.
#[verifier::spinoff_prover]
#[verifier::rlimit(40)]
proof fn lemma_alone(screen: Screen, desk: Desk, tiled: Seq<WindowInfo>, new: WindowInfo)
    requires
        screen.shows(desk, tiled),
        tiled.contains(new),
    ensures
        column(new) matches Some(col) && 1 <= col <= screen.row.len() && only_in(
            screen.row,
            col - 1,
            new.id,
        ) && (screen.row[col - 1].len() == 1 <==> height(
            without_id(ordered(tiled), new.id),
            col,
        ) == 0) && (screen.row[col - 1].len() == 1 ==> screen.row[col - 1] == seq![new.id]),
{
    let row = ordered(tiled);
    lemma_shown(screen, desk, tiled);
    let k = choose|k: int| 0 <= k < tiled.len() && tiled[k] == new;
    assert(screen.seats(tiled[k]));
    let (col, place) = new.position->0;
    let others = without_id(row, new.id);
    lemma_seated(screen, col - 1, place - 1);
    lemma_columns(others, col);
    if screen.row[col - 1].len() == 1 {
        assert(screen.row[col - 1] =~= seq![new.id]);
        if height(others, col) > 0 {
            let i = choose|i: int| 0 <= i < others.len() && column(#[trigger] others[i]) == Some(col);
            lemma_kept(row, new.id, i);
            let j = choose|j: int| 0 <= j < row.len() && row[j] == others[i];
            assert(screen.seats(row[j]));
        }
    } else {
        let p: int = if place == 1 {
            1
        } else {
            0
        };
        let x = screen.row[col - 1][p];
        assert(x != new.id);
        let i = choose|i: int|
            0 <= i < tiled.len() && (#[trigger] row[i]).id == screen.row[col - 1][p];
        assert(screen.seats(row[i]));
        lemma_same_column(screen, row[i], col - 1, p);
        lemma_keeps(row, new.id, i);
        let j = choose|j: int| 0 <= j < others.len() && others[j] == row[i];
        assert(column(others[j]) == Some(col));
    }
}

/// What is left when a window is left out was there before and bears another id.
proof fn lemma_kept(windows: Seq<WindowInfo>, id: u64, at: int)
    requires
        0 <= at < without_id(windows, id).len(),
    ensures
        windows.contains(without_id(windows, id)[at]),
        without_id(windows, id)[at].id != id,
    decreases windows.len(),
{
    reveal(Seq::filter);
    let rest = windows.drop_last();
    let last = windows.len() - 1;
    if at < without_id(rest, id).len() {
        lemma_kept(rest, id, at);
        let k = choose|k: int| 0 <= k < rest.len() && rest[k] == without_id(rest, id)[at];
        assert(windows[k] == rest[k]);
    } else {
        assert(windows[last] == without_id(windows, id)[at]);
    }
}

/// A window with another id is left when one is left out.
proof fn lemma_keeps(windows: Seq<WindowInfo>, id: u64, at: int)
    requires
        0 <= at < windows.len(),
        windows[at].id != id,
    ensures
        without_id(windows, id).contains(windows[at]),
    decreases windows.len(),
{
    reveal(Seq::filter);
    let rest = windows.drop_last();
    let last = windows.len() - 1;
    let all = without_id(windows, id);
    let fewer = without_id(rest, id);
    if at < last {
        lemma_keeps(rest, id, at);
        let k = choose|k: int| 0 <= k < fewer.len() && fewer[k] == rest[at];
        assert(all[k] == windows[at]);
    } else {
        assert(all[all.len() - 1] == windows[at]);
    }
}

/// A window that opens amid a row of more than one screenful goes to its end first. This is so exactly
/// when it is alone in its column and some column lies to the right of it. No column lies to the right
/// of it afterwards, everything else keeps its order, and the index that it is moved to is the number
/// of columns. Otherwise the window is settled as on a second look.
#[verifier::spinoff_prover]
#[verifier::rlimit(40)]
pub proof fn law_moved_to_the_end(
    screen: Screen,
    desk: Desk,
    id: u64,
    ws: u64,
    tiled: Seq<WindowInfo>,
    col: usize,
    focused: Option<u64>,
)
    requires
        0 < tiled.len() <= desk.max_tiles,
        screen.shows(desk, tiled),
        1 <= col <= screen.row.len(),
        screen.row[col - 1].contains(id),
        screen.acts_on(focused, id),
    ensures
        ({
            let start = screenful_start(tiled.len());
            let verdict = desk.arrival(id, ws, tiled, focused);
            let moves = tiled.len() > 6 && screen.row[col - 1].len() == 1 && col < screen.row.len();
            &&& verdict is Moved <==> moves
            &&& !moves ==> verdict == Verdict::Settled(
                desk.second_look(id, ws, start, tiled, focused),
            )
            &&& verdict matches Verdict::Moved { effects, start: behind } ==> {
                &&& behind == start
                &&& screen.after(effects) == (Screen {
                    row: screen.row.remove(col - 1).push(seq![id]),
                    ..screen
                })
                &&& effects.contains(
                    Effect::Do(
                        Action::MoveColumnToIndex { index: screen.row.len() as usize },
                    ),
                )
                &&& effects[0] == Effect::Log(Note::MovingToEnd { id })
                &&& focused is None || focused == Some(id) ==> keeps_focus(effects)
            }
        }),
{
    let row = ordered(tiled);
    let at = col - 1;
    lemma_shown(screen, desk, tiled);
    lemma_row_fits(screen, desk, tiled);
    lemma_columns_shown(screen, desk, tiled);
    let p = choose|p: int| 0 <= p < screen.row[at].len() && screen.row[at][p] == id;
    let k = choose|k: int| 0 <= k < tiled.len() && (#[trigger] row[k]).id == screen.row[at][p];
    lemma_same_column(screen, row[k], at, p);
    lemma_seated(screen, at, p);
    lemma_with_id(row, id);
    if with_id(row, id) is None {
        assert(row[k].id != id);
    }
    let new = with_id(row, id)->0;
    let l = choose|l: int| 0 <= l < row.len() && row[l] == new;
    assert(tiled.contains(row[l]) && tiled.contains(row[k]));
    lemma_one_window(screen, desk, tiled, row[k], new);
    lemma_alone(screen, desk, tiled, new);
    let further = exists|i: int|
        0 <= i < row.len() && (#[trigger] row[i]).position is Some && col < column(row[i])->0;
    if col < screen.row.len() {
        assert(screen.row[col as int].len() > 0);
        let i = choose|i: int|
            0 <= i < tiled.len() && (#[trigger] row[i]).id == screen.row[col as int][0];
        lemma_same_column(screen, row[i], col as int, 0);
        assert(row[i].position is Some && col < column(row[i])->0);
    }
    if further {
        let i = choose|i: int|
            0 <= i < row.len() && (#[trigger] row[i]).position is Some && col < column(row[i])->0;
        assert(screen.seats(row[i]));
    }
    let index = columns(row).len() as usize;
    lemma_after_moving(screen, at, id, index, focused);
    let step = Effect::Do(Action::MoveColumnToIndex { index });
    let effects = moving_to_end(id, index, focused);
    if screen.row[at].len() == 1 {
        assert(column_moved(screen.row, at, index) =~= screen.row.remove(at).push(seq![id]));
    }
    if focused is Some && focused != Some(id) {
        assert(effects[2] == step);
    } else {
        assert(effects[1] == step);
    }
}

/// The windows of the last screenful, of a row that starts it behind `start` windows.
pub open spec fn screenful(tiled: Seq<WindowInfo>, start: nat) -> Seq<WindowInfo> {
    ordered(tiled).skip(start as int)
}

/// The window of an id in a screenful of windows that a screen shows.
proof fn lemma_newcomer(
    screen: Screen,
    desk: Desk,
    tiled: Seq<WindowInfo>,
    start: nat,
    id: u64,
    at: int,
)
    requires
        screen.shows(desk, tiled),
        start <= tiled.len(),
        0 <= at < screenful(tiled, start).len(),
        screenful(tiled, start)[at].id == id,
    ensures
        with_id(screenful(tiled, start), id) == Some(screenful(tiled, start)[at]),
        tiled.contains(screenful(tiled, start)[at]),
        screen.seats(screenful(tiled, start)[at]),
        forall|k: int|
            0 <= k < screenful(tiled, start).len() && (#[trigger] screenful(tiled, start)[k]).id == id
                ==> screenful(tiled, start)[k] == screenful(tiled, start)[at],
        forall|k: int|
            0 <= k < screenful(tiled, start).len() ==> (screen.wide.contains(
                (#[trigger] screenful(tiled, start)[k]).id,
            ) <==> desk.is_maximized(screenful(tiled, start)[k])),
{
    let row = ordered(tiled);
    let group = screenful(tiled, start);
    lemma_shown(screen, desk, tiled);
    assert forall|k: int| 0 <= k < group.len() implies #[trigger] group[k] == row[start + k] by {}
    assert forall|k: int| 0 <= k < group.len() && (#[trigger] group[k]).id == id implies group[k]
        == group[at] by {
        assert(tiled.contains(row[start + k]) && tiled.contains(row[start + at]));
        lemma_one_window(screen, desk, tiled, group[k], group[at]);
    }
    assert(screen.seats(row[start + at]) && tiled.contains(row[start + at]));
    lemma_with_id(group, id);
    if with_id(group, id) is None {
        assert(group[at].id != id);
    }
    let found = with_id(group, id)->0;
    let k = choose|k: int| 0 <= k < group.len() && group[k] == found;
    assert(group[k].id == id);
}

/// Windows are not maximized when none of them is among the maximized ones.
proof fn lemma_none_maximized(desk: Desk, windows: Seq<WindowInfo>)
    requires
        forall|i: int| 0 <= i < windows.len() ==> !desk.is_maximized(#[trigger] windows[i]),
    ensures
        desk.maximized(windows).len() == 0,
    decreases windows.len(),
{
    reveal(Seq::filter);
    if windows.len() > 0 {
        let rest = windows.drop_last();
        assert forall|i: int| 0 <= i < rest.len() implies !desk.is_maximized(
            #[trigger] rest[i],
        ) by {
            assert(rest[i] == windows[i]);
        }
        assert(!desk.is_maximized(windows[windows.len() - 1]));
        lemma_none_maximized(desk, rest);
    }
}

/// A maximized window is among the maximized ones.
proof fn lemma_some_maximized(desk: Desk, windows: Seq<WindowInfo>, at: int)
    requires
        0 <= at < windows.len(),
        desk.is_maximized(windows[at]),
    ensures
        desk.maximized(windows).len() > 0,
    decreases windows.len(),
{
    reveal(Seq::filter);
    let rest = windows.drop_last();
    if at < rest.len() {
        assert(rest[at] == windows[at]);
        lemma_some_maximized(desk, rest, at);
    }
}

/// A window that comes to be the only one of its screenful is maximized, together with its column,
/// unless it is already. Nothing else changes.
#[verifier::spinoff_prover]
#[verifier::rlimit(40)]
pub proof fn law_sole_window_is_maximized(
    screen: Screen,
    desk: Desk,
    id: u64,
    ws: u64,
    tiled: Seq<WindowInfo>,
    start: nat,
    col: usize,
    focused: Option<u64>,
)
    requires
        screen.shows(desk, tiled),
        tiled.len() == start + 1,
        desk.intact(ordered(tiled).take(start as int)),
        ordered(tiled)[start as int].id == id,
        1 <= col <= screen.row.len(),
        screen.row[col - 1].contains(id),
        screen.acts_on(focused, id),
    ensures
        ({
            let outcome = desk.second_look(id, ws, start, tiled, focused);
            let then = screen.after(outcome.effects);
            &&& outcome.snap is None
            &&& screen.wide.contains(id) ==> outcome.effects.len() == 0
            &&& then.wide.contains(id)
            &&& !screen.wide.contains(id) ==> then == (Screen {
                wide: screen.wide.union(screen.row[col - 1].to_set()),
                ..screen
            }) && outcome.effects[0] == Effect::Log(Note::MaximizingSolo { id })
            &&& focused is None || focused == Some(id) ==> keeps_focus(outcome.effects)
        }),
{
    let group = screenful(tiled, start);
    lemma_shown(screen, desk, tiled);
    assert(group[0] == ordered(tiled)[start as int]);
    lemma_newcomer(screen, desk, tiled, start, id, 0);
    let mates = screen.row[col - 1];
    let p = choose|p: int| 0 <= p < mates.len() && mates[p] == id;
    lemma_seated(screen, col - 1, p);
    lemma_after_toggling(screen, col - 1, id, focused);
    lemma_after_logged(screen, Note::MaximizingSolo { id }, toggling(id, focused));
    assert(screen.after(Seq::empty()) == screen);
    assert(screen.row[col - 1].to_set().contains(id));
}

/// A window that comes to be the second one of its screenful has the first one, if it is maximized,
/// give its width up, together with its column. Nothing else changes; and nothing changes at all if the
/// first one is not maximized, or if the second one is.
#[verifier::spinoff_prover]
#[verifier::rlimit(40)]
pub proof fn law_second_window_splits(
    screen: Screen,
    desk: Desk,
    id: u64,
    ws: u64,
    tiled: Seq<WindowInfo>,
    start: nat,
    at: int,
    col: usize,
    focused: Option<u64>,
)
    requires
        screen.shows(desk, tiled),
        tiled.len() == start + 2,
        desk.intact(ordered(tiled).take(start as int)),
        at == 0 || at == 1,
        screenful(tiled, start)[at].id == id,
        1 <= col <= screen.row.len(),
        screen.row[col - 1].contains(screenful(tiled, start)[1 - at].id),
        screen.acts_on(focused, screenful(tiled, start)[1 - at].id),
    ensures
        ({
            let first = screenful(tiled, start)[1 - at].id;
            let outcome = desk.second_look(id, ws, start, tiled, focused);
            let splits = screen.wide.contains(first) && !screen.wide.contains(id);
            &&& outcome.snap is None
            &&& !splits ==> outcome.effects.len() == 0
            &&& splits ==> screen.after(outcome.effects) == (Screen {
                wide: screen.wide.difference(screen.row[col - 1].to_set()),
                ..screen
            }) && outcome.effects[0] == Effect::Log(Note::Collapsing { incumbent: first, id })
            &&& focused is None || focused == Some(first) ==> keeps_focus(outcome.effects)
        }),
{
    reveal(Seq::filter);
    reveal_with_fuel(Seq::filter, 3);
    let group = screenful(tiled, start);
    lemma_shown(screen, desk, tiled);
    lemma_newcomer(screen, desk, tiled, start, id, at);
    let first = group[1 - at].id;
    let mates = screen.row[col - 1];
    let p = choose|p: int| 0 <= p < mates.len() && mates[p] == first;
    lemma_seated(screen, col - 1, p);
    assert(screen.wide.contains(group[at].id) <==> desk.is_maximized(group[at]));
    assert(screen.wide.contains(group[1 - at].id) <==> desk.is_maximized(group[1 - at]));
    let keep = |w: WindowInfo| desk.is_maximized(w);
    assert(group.drop_last().drop_last() =~= Seq::empty());
    assert(group.drop_last().last() == group[0]);
    assert(group.last() == group[1]);
    if keep(group[1 - at]) && !keep(group[at]) {
        assert(group.filter(keep) =~= seq![group[1 - at]]);
    } else if !keep(group[1 - at]) && !keep(group[at]) {
        assert(group.filter(keep) =~= Seq::empty());
    }
    lemma_after_toggling(screen, col - 1, first, focused);
    lemma_after_logged(
        screen,
        Note::Collapsing { incumbent: first, id },
        toggling(first, focused),
    );
}

/// How far apart two columns are.
pub open spec fn gap(a: usize, b: usize) -> int {
    if a < b {
        b - a
    } else {
        a - b
    }
}

/// Whether a column is the one that a window of column `col` is stacked into: one that holds a single
/// one of the others, none such being nearer, nor as near and further right.
pub open spec fn nearest_single(others: Seq<WindowInfo>, col: usize, target: usize) -> bool {
    &&& height(others, target) == 1
    &&& forall|rival: usize| #[trigger]
        height(others, rival) == 1 && rival != target ==> gap(target, col) < gap(rival, col) || (gap(
            target,
            col,
        ) == gap(rival, col) && rival < target)
}

/// A nearest single column is the one that is chosen, and one is chosen when there is a single column.
proof fn lemma_nearest_single(others: Seq<WindowInfo>, col: usize)
    ensures
        match target_column(others, col) {
            Some(target) => nearest_single(others, col, target),
            None => forall|c: usize| #[trigger] height(others, c) != 1,
        },
{
    if exists|c: usize| #[trigger] height(others, c) == 1 {
        let c = choose|c: usize| #[trigger] height(others, c) == 1;
        lemma_best(others, col, c);
    }
    if exists|target: usize| is_target(others, col, target) {
        let target = choose|target: usize| is_target(others, col, target);
        assert(is_target(others, col, target));
    }
}

/// From any single column there is a best one.
proof fn lemma_best(others: Seq<WindowInfo>, col: usize, c: usize)
    requires
        height(others, c) == 1,
    ensures
        exists|target: usize| is_target(others, col, target),
    decreases columns_apart(c, col), usize::MAX - c,
{
    if !is_target(others, col, c) {
        let rival = choose|rival: usize| #[trigger]
            height(others, rival) == 1 && !(columns_apart(c, col) < columns_apart(rival, col) || (
            columns_apart(c, col) == columns_apart(rival, col) && rival <= c));
        lemma_best(others, col, rival);
    }
}

/// A third or later window that opens in a column of its own finds its place. If some column holds a
/// single one of the other windows of the screenful, it is stacked into the nearest such column, of two
/// equally near ones into the one to the right; otherwise it goes to the end of the row. Every other
/// window stays in the column that it was in. When the screenful has three columns or more then, each
/// of its windows, and no other, is made as wide as that number of columns calls for, and the snap
/// waits for just that. The focus ends up where it was, and nothing is maximized.
#[verifier::spinoff_prover]
#[verifier::rlimit(40)]
pub proof fn law_later_window_joins(
    screen: Screen,
    desk: Desk,
    id: u64,
    ws: u64,
    tiled: Seq<WindowInfo>,
    start: nat,
    at: int,
    col: usize,
    focused: Option<u64>,
)
    requires
        screen.shows(desk, tiled),
        start + 3 <= tiled.len() <= usize::MAX,
        desk.intact(ordered(tiled).take(start as int)),
        0 <= at < screenful(tiled, start).len(),
        screenful(tiled, start)[at].id == id,
        1 <= col <= screen.row.len(),
        screen.row[col - 1] == seq![id],
        forall|i: int|
            0 <= i < screenful(tiled, start).len() ==> !screen.wide.contains(
                (#[trigger] screenful(tiled, start)[i]).id,
            ),
        screen.acts_on(focused, id),
    ensures
        ({
            let group = screenful(tiled, start);
            let others = without_id(group, id);
            let outcome = desk.second_look(id, ws, start, tiled, focused);
            let then = screen.after(outcome.effects);
            let stacks = exists|c: usize| #[trigger] height(others, c) == 1;
            let count = columns(others).len() + if stacks {
                0nat
            } else {
                1
            };
            &&& stacks ==> exists|target: usize| #[trigger]
                nearest_single(others, col, target) && then.row == joined_row(
                    screen.row,
                    id,
                    col,
                    target,
                ) && outcome.effects[0] == Effect::Log(Note::Stacking { id, target }) && (gap(
                    target,
                    col,
                ) == 1 ==> keeps_focus(outcome.effects))
            &&& !stacks ==> then.row == screen.row.remove(col - 1).push(seq![id])
            &&& then.active == screen.active && then.wide == screen.wide
            &&& count < 3 ==> then.shares == screen.shares && outcome.snap is None
            &&& count >= 3 ==> resized(screen, then, ids(group), count as usize) && (outcome.snap
                matches Some(snap) && snap.ws == ws && snap.columns == count && snap.leftmost
                == group[0].id && snap.ids.len() == group.len() && forall|i: int|
                0 <= i < group.len() ==> snap.ids[i] == (#[trigger] group[i]).id)
            &&& focused is None || focused == Some(id) ==> keeps_focus(outcome.effects)
        }),
{
    let row = ordered(tiled);
    let earlier = row.take(start as int);
    let group = screenful(tiled, start);
    let others = without_id(group, id);
    lemma_shown(screen, desk, tiled);
    lemma_row_fits(screen, desk, tiled);
    lemma_newcomer(screen, desk, tiled, start, id, at);
    let new = group[at];
    assert(screen.row[col - 1][0] == id);
    lemma_same_column(screen, new, col - 1, 0);
    lemma_seated(screen, col - 1, 0);
    lemma_none_maximized(desk, group);
    lemma_alone_in_group(screen, desk, tiled, start, id, col);
    lemma_nearest_single(others, col);
    lemma_without_id(group, id);
    lemma_columns(others, col);
    assert(all_placed(earlier));
    law_intact_columns(desk, earlier);
    let outcome = desk.second_look(id, ws, start, tiled, focused);
    assert(outcome == desk.joining(ws, new, start, group, focused));
    let target = target_column(others, col);
    let last = start / 2 + columns(others).len() + 1;
    let moves = match target {
        Some(target) => stacking(id, col, target, focused),
        None => if col < last {
            moving_to_end(id, last as usize, focused)
        } else {
            Seq::empty()
        },
    };
    let midway = screen.after(moves);
    let stacks = exists|c: usize| #[trigger] height(others, c) == 1;
    match target {
        Some(target) => {
            assert(height(others, target) == 1);
            lemma_target_seated(screen, desk, tiled, start, id, target);
            law_stacking_lands_in_the_target(screen, id, col, target, focused);
            assert(midway == Screen { row: joined_row(screen.row, id, col, target), ..screen });
            assert(gap(target, col) == 1 ==> keeps_focus(moves));
        },
        None => {
            assert(!stacks);
            lemma_last_is_the_end(screen, desk, tiled, start, id, col);
            if col < last {
                lemma_after_moving(screen, col - 1, id, last as usize, focused);
            }
            assert(midway.row =~= screen.row.remove(col - 1).push(seq![id]));
            assert(midway == Screen { row: midway.row, ..screen });
        },
    }
    assert(stacks == (target is Some));
    assert(focused is None || focused == Some(id) ==> keeps_focus(moves));
    let count = columns(others).len() + if stacks {
        0nat
    } else {
        1
    };
    if count >= 3 {
        let shares = sharing(ws, group, count as usize);
        assert(outcome.effects == moves + shares.effects);
        lemma_after_sharing(midway, ws, group, count as usize);
        lemma_after_sum(screen, moves, shares.effects);
        lemma_focus_kept_throughout(moves, shares.effects);
        let then = screen.after(outcome.effects);
        assert(midway.shares == screen.shares);
        assert(then == midway.after(shares.effects));
        lemma_resized_alike(midway, screen, then, ids(group), count as usize);
        assert forall|i: int| 0 <= i < group.len() implies ids(group)[i] == (
        #[trigger] group[i]).id by {}
        assert(target is Some ==> outcome.effects[0] == moves[0]);
    } else {
        assert(outcome.effects == moves);
    }
}

/// What counts are the widths before.
proof fn lemma_resized_alike(a: Screen, b: Screen, then: Screen, list: Seq<u64>, columns: usize)
    requires
        a.shares == b.shares,
        resized(a, then, list, columns),
    ensures
        resized(b, then, list, columns),
{
}

/// Equal shares change nothing but widths and focus no window.
proof fn lemma_after_sharing(screen: Screen, ws: u64, group: Seq<WindowInfo>, columns: usize)
    ensures
        ({
            let effects = sharing(ws, group, columns).effects;
            let then = screen.after(effects);
            &&& then.row == screen.row && then.active == screen.active && then.wide == screen.wide
            &&& resized(screen, then, ids(group), columns)
            &&& keeps_focus(effects)
        }),
{
    lemma_after_sizing(screen, ids(group), columns);
    lemma_after_logged(
        screen,
        Note::SizingColumns { ws, columns },
        sizing(ids(group), columns),
    );
}

/// Steps focus no window when neither part of them does.
proof fn lemma_focus_kept_throughout(a: Seq<Effect>, b: Seq<Effect>)
    ensures
        keeps_focus(a) && keeps_focus(b) ==> keeps_focus(a + b),
{
    if keeps_focus(a) && keeps_focus(b) {
        assert forall|i: int| 0 <= i < (a + b).len() implies !(#[trigger] (a + b)[i] matches Effect::Do(
            Action::FocusWindow { .. },
        )) by {
            if i < a.len() {
                assert((a + b)[i] == a[i]);
            } else {
                assert((a + b)[i] == b[i - a.len()]);
            }
        }
    }
}

/// A window alone in its column shares it with no other of its screenful.
proof fn lemma_alone_in_group(
    screen: Screen,
    desk: Desk,
    tiled: Seq<WindowInfo>,
    start: nat,
    id: u64,
    col: usize,
)
    requires
        screen.shows(desk, tiled),
        start <= tiled.len(),
        1 <= col <= screen.row.len(),
        screen.row[col - 1] == seq![id],
    ensures
        height(without_id(screenful(tiled, start), id), col) == 0,
{
    let row = ordered(tiled);
    let group = screenful(tiled, start);
    let others = without_id(group, id);
    lemma_shown(screen, desk, tiled);
    lemma_columns(others, col);
    if height(others, col) > 0 {
        let i = choose|i: int| 0 <= i < others.len() && column(#[trigger] others[i]) == Some(col);
        lemma_kept(group, id, i);
        let j = choose|j: int| 0 <= j < group.len() && group[j] == others[i];
        assert(screen.seats(row[start + j]));
    }
}

/// A column that holds one of the others is a column of the row, and not the newcomer's.
proof fn lemma_target_seated(
    screen: Screen,
    desk: Desk,
    tiled: Seq<WindowInfo>,
    start: nat,
    id: u64,
    target: usize,
)
    requires
        screen.shows(desk, tiled),
        start <= tiled.len(),
        height(without_id(screenful(tiled, start), id), target) == 1,
    ensures
        1 <= target <= screen.row.len(),
{
    let row = ordered(tiled);
    let group = screenful(tiled, start);
    let others = without_id(group, id);
    lemma_shown(screen, desk, tiled);
    lemma_columns(others, target);
    let i = choose|i: int| 0 <= i < others.len() && column(#[trigger] others[i]) == Some(target);
    lemma_kept(group, id, i);
    let j = choose|j: int| 0 <= j < group.len() && group[j] == others[i];
    assert(screen.seats(row[start + j]));
}

/// Where a window goes that is to stand at the end is no less than the number of columns.
#[verifier::spinoff_prover]
#[verifier::rlimit(40)]
proof fn lemma_last_is_the_end(
    screen: Screen,
    desk: Desk,
    tiled: Seq<WindowInfo>,
    start: nat,
    id: u64,
    col: usize,
)
    requires
        screen.shows(desk, tiled),
        start <= tiled.len() <= usize::MAX,
        desk.intact(ordered(tiled).take(start as int)),
        1 <= col <= screen.row.len(),
        screen.row[col - 1] == seq![id],
    ensures
        screen.row.len() <= start / 2 + columns(without_id(screenful(tiled, start), id)).len() + 1,
{
    let row = ordered(tiled);
    let earlier = row.take(start as int);
    let group = screenful(tiled, start);
    let others = without_id(group, id);
    lemma_shown(screen, desk, tiled);
    lemma_row_fits(screen, desk, tiled);
    lemma_columns_shown(screen, desk, tiled);
    assert(all_placed(earlier));
    law_intact_columns(desk, earlier);
    let front = columns(earlier);
    let back = columns(others);
    lemma_columns(earlier, 0);
    lemma_columns(others, 0);
    assert forall|c: usize| columns(row).contains(c) implies front.union(back).insert(
        col,
    ).contains(c) by {
        lemma_columns(row, c);
        lemma_columns(earlier, c);
        lemma_columns(others, c);
        let i = choose|i: int| 0 <= i < row.len() && column(#[trigger] row[i]) == Some(c);
        if i < start {
            assert(earlier[i] == row[i]);
        } else {
            assert(group[i - start] == row[i]);
            if row[i].id == id {
                assert(screen.seats(row[i]));
                assert(screen.row[col - 1][0] == id);
                lemma_same_column(screen, row[i], col - 1, 0);
            } else {
                lemma_keeps(group, id, i - start);
                let j = choose|j: int| 0 <= j < others.len() && others[j] == group[i - start];
                assert(column(others[j]) == Some(c));
            }
        }
    }
    vstd::set_lib::lemma_len_subset(columns(row), front.union(back).insert(col));
    vstd::set_lib::lemma_len_union(front, back);
}

/// A window that is left over in the last screenful, in a column of its own, is maximized unless it is
/// already. Nothing else changes; and nothing changes at all if it shares its column.
#[verifier::spinoff_prover]
#[verifier::rlimit(40)]
pub proof fn law_left_over_is_maximized(
    screen: Screen,
    desk: Desk,
    id: u64,
    ws: u64,
    tiled: Seq<WindowInfo>,
    col: usize,
    focused: Option<u64>,
)
    requires
        0 < tiled.len() <= desk.max_tiles,
        screen.shows(desk, tiled),
        tiled.len() == screenful_start(tiled.len()) + 1,
        desk.intact(ordered(tiled).take(screenful_start(tiled.len()) as int)),
        ordered(tiled)[screenful_start(tiled.len()) as int].id == id,
        1 <= col <= screen.row.len(),
        screen.row[col - 1].contains(id),
        screen.acts_on(focused, id),
    ensures
        ({
            let outcome = desk.departure(ws, tiled, focused);
            let due = screen.row[col - 1].len() == 1 && !screen.wide.contains(id);
            &&& outcome.snap is None
            &&& !due ==> outcome.effects.len() == 0
            &&& due ==> screen.after(outcome.effects) == (Screen {
                wide: screen.wide.insert(id),
                ..screen
            }) && outcome.effects[0] == Effect::Log(Note::MaximizingSolo { id })
            &&& focused is None || focused == Some(id) ==> keeps_focus(outcome.effects)
        }),
{
    let row = ordered(tiled);
    let start = screenful_start(tiled.len());
    let group = screenful(tiled, start);
    let earlier = row.take(start as int);
    lemma_shown(screen, desk, tiled);
    assert(group[0] == row[start as int]);
    lemma_newcomer(screen, desk, tiled, start, id, 0);
    let mates = screen.row[col - 1];
    let p = choose|p: int| 0 <= p < mates.len() && mates[p] == id;
    lemma_seated(screen, col - 1, p);
    lemma_same_column(screen, group[0], col - 1, p);
    lemma_alone(screen, desk, tiled, group[0]);
    assert(height(earlier, col) == height(without_id(row, id), col)) by {
        reveal(Seq::filter);
        assert(row.drop_last() =~= earlier);
        assert forall|i: int| 0 <= i < earlier.len() implies (#[trigger] earlier[i]).id != id by {
            lemma_apart(screen, desk, tiled, i, start as int);
        }
        lemma_all_kept(earlier, id);
    }
    lemma_after_toggling(screen, col - 1, id, focused);
    lemma_after_logged(screen, Note::MaximizingSolo { id }, toggling(id, focused));
    if mates.len() == 1 {
        assert(mates.to_set() =~= set![id]);
        assert(screen.wide.union(mates.to_set()) =~= screen.wide.insert(id));
    }
}

/// Leaving out an id that nobody bears leaves all windows.
proof fn lemma_all_kept(windows: Seq<WindowInfo>, id: u64)
    requires
        forall|i: int| 0 <= i < windows.len() ==> (#[trigger] windows[i]).id != id,
    ensures
        without_id(windows, id) == windows,
    decreases windows.len(),
{
    reveal(Seq::filter);
    if windows.len() > 0 {
        let rest = windows.drop_last();
        assert forall|i: int| 0 <= i < rest.len() implies (#[trigger] rest[i]).id != id by {
            assert(rest[i] == windows[i]);
        }
        assert(windows[windows.len() - 1].id != id);
        lemma_all_kept(rest, id);
        assert(without_id(windows, id) =~= windows);
    } else {
        assert(without_id(windows, id) =~= windows);
    }
}

/// Windows at two places of a row bear two ids.
proof fn lemma_apart(screen: Screen, desk: Desk, tiled: Seq<WindowInfo>, i: int, j: int)
    requires
        screen.shows(desk, tiled),
        0 <= i < j < tiled.len(),
    ensures
        ordered(tiled)[i].id != ordered(tiled)[j].id,
{
    let row = ordered(tiled);
    lemma_shown(screen, desk, tiled);
    if row[i].id == row[j].id {
        assert(tiled.contains(row[i]) && tiled.contains(row[j]));
        lemma_one_window(screen, desk, tiled, row[i], row[j]);
        lemma_ordered(tiled);
        lemma_listed_once(tiled);
        tiled.lemma_multiset_has_no_duplicates();
        row.lemma_multiset_has_no_duplicates_conv();
    }
}

/// Windows with different ids are different windows.
proof fn lemma_listed_once(tiled: Seq<WindowInfo>)
    requires
        forall|i: int, j: int|
            0 <= i < j < tiled.len() ==> (#[trigger] tiled[i]).id != (#[trigger] tiled[j]).id,
    ensures
        tiled.no_duplicates(),
{
    assert forall|i: int, j: int| 0 <= i < tiled.len() && 0 <= j < tiled.len() && i != j implies
        tiled[i] != tiled[j] by {
        if i < j {
            assert(tiled[i].id != tiled[j].id);
        } else {
            assert(tiled[j].id != tiled[i].id);
        }
    }
}

/// A third or later window that is not stacked and that no earlier window shares a column with goes to
/// the last place of the row, by its number, and is left alone if it stands there.
#[verifier::spinoff_prover]
#[verifier::rlimit(40)]
pub proof fn law_end_of_the_row(
    screen: Screen,
    desk: Desk,
    id: u64,
    ws: u64,
    tiled: Seq<WindowInfo>,
    start: nat,
    at: int,
    col: usize,
    focused: Option<u64>,
)
    requires
        screen.shows(desk, tiled),
        start + 3 <= tiled.len() <= usize::MAX,
        desk.intact(ordered(tiled).take(start as int)),
        0 <= at < screenful(tiled, start).len(),
        screenful(tiled, start)[at].id == id,
        1 <= col <= screen.row.len(),
        screen.row[col - 1] == seq![id],
        forall|i: int|
            0 <= i < screenful(tiled, start).len() ==> !screen.wide.contains(
                (#[trigger] screenful(tiled, start)[i]).id,
            ),
        forall|i: int, j: int|
            0 <= i < start <= j < tiled.len() ==> column(#[trigger] ordered(tiled)[i]) != column(
                #[trigger] ordered(tiled)[j],
            ),
        forall|c: usize| #[trigger] height(without_id(screenful(tiled, start), id), c) != 1,
    ensures
        ({
            let effects = desk.second_look(id, ws, start, tiled, focused).effects;
            let index = screen.row.len() as usize;
            &&& col < index ==> effects.contains(Effect::Do(Action::MoveColumnToIndex { index }))
                && effects[0] == Effect::Log(Note::MovingToEnd { id })
            &&& forall|i: int|
                0 <= i < effects.len() ==> (#[trigger] effects[i] matches Effect::Do(
                    Action::MoveColumnToIndex { index: to },
                ) ==> col < index && to == index)
        }),
{
    let row = ordered(tiled);
    let earlier = row.take(start as int);
    let group = screenful(tiled, start);
    let others = without_id(group, id);
    lemma_shown(screen, desk, tiled);
    lemma_row_fits(screen, desk, tiled);
    lemma_columns_shown(screen, desk, tiled);
    lemma_newcomer(screen, desk, tiled, start, id, at);
    let new = group[at];
    assert(screen.row[col - 1][0] == id);
    lemma_same_column(screen, new, col - 1, 0);
    lemma_none_maximized(desk, group);
    lemma_alone_in_group(screen, desk, tiled, start, id, col);
    lemma_nearest_single(others, col);
    lemma_without_id(group, id);
    assert(all_placed(earlier));
    law_intact_columns(desk, earlier);
    let front = columns(earlier);
    let back = columns(others);
    lemma_columns(earlier, col);
    lemma_columns(others, col);
    lemma_columns(row, col);
    assert forall|c: usize| front.union(back).insert(col).contains(c) implies columns(
        row,
    ).contains(c) by {
        lemma_columns(row, c);
        lemma_columns(earlier, c);
        lemma_columns(others, c);
        if front.contains(c) {
            let i = choose|i: int| 0 <= i < earlier.len() && column(#[trigger] earlier[i]) == Some(c);
            assert(column(row[i]) == Some(c));
        } else if back.contains(c) {
            let i = choose|i: int| 0 <= i < others.len() && column(#[trigger] others[i]) == Some(c);
            lemma_kept(group, id, i);
            let j = choose|j: int| 0 <= j < group.len() && group[j] == others[i];
            assert(column(row[start + j]) == Some(c));
        } else {
            assert(column(row[start + at]) == Some(c));
        }
    }
    assert forall|c: usize| front.contains(c) implies !back.contains(c) && c != col by {
        lemma_columns(earlier, c);
        lemma_columns(others, c);
        let i = choose|i: int| 0 <= i < earlier.len() && column(#[trigger] earlier[i]) == Some(c);
        assert(column(row[i]) == Some(c));
        assert(column(row[start + at]) == Some(col));
        if back.contains(c) {
            let k = choose|k: int| 0 <= k < others.len() && column(#[trigger] others[k]) == Some(c);
            lemma_kept(group, id, k);
            let j = choose|j: int| 0 <= j < group.len() && group[j] == others[k];
            assert(column(row[start + j]) == Some(c));
        }
    }
    lemma_last_is_the_end(screen, desk, tiled, start, id, col);
    vstd::set_lib::lemma_set_disjoint_lens(front, back);
    vstd::set_lib::lemma_len_subset(front.union(back).insert(col), columns(row));
    let index = screen.row.len() as usize;
    let step = Effect::Do(Action::MoveColumnToIndex { index });
    let effects = desk.second_look(id, ws, start, tiled, focused).effects;
    if col < index {
        if focused is Some && focused != Some(id) {
            assert(effects[2] == step);
        } else {
            assert(effects[1] == step);
        }
    }
}

/// What is left alone on a second look: a row with a window that has no position, one whose earlier
/// screenfuls are not as they should be, a window that is not in the last screenful or that is
/// maximized, and, in a screenful of three or more, one that shares its column with another of them or
/// that stands among maximized ones.
#[verifier::spinoff_prover]
#[verifier::rlimit(40)]
pub proof fn law_left_alone(
    desk: Desk,
    id: u64,
    ws: u64,
    tiled: Seq<WindowInfo>,
    start: nat,
    at: int,
    k: int,
    focused: Option<u64>,
)
    requires
        start <= tiled.len(),
    ensures
        ({
            let outcome = desk.second_look(id, ws, start, tiled, focused);
            let group = screenful(tiled, start);
            let absent = forall|i: int| 0 <= i < group.len() ==> (#[trigger] group[i]).id != id;
            let found = 0 <= at < group.len() && group[at].id == id && forall|i: int|
                0 <= i < at ==> (#[trigger] group[i]).id != id;
            let alone = {
                ||| 0 <= k < tiled.len() && tiled[k].position is None
                ||| !desk.intact(ordered(tiled).take(start as int))
                ||| absent
                ||| found && desk.is_maximized(group[at])
                ||| found && group.len() >= 3 && 0 <= k < group.len() && desk.is_maximized(group[k])
                ||| found && group.len() >= 3 && 0 <= k < group.len() && group[k].id != id && column(
                    group[k],
                ) == column(group[at])
            };
            alone ==> outcome.effects.len() == 0 && outcome.snap is None
        }),
{
    let group = screenful(tiled, start);
    lemma_ordered(tiled);
    if 0 <= at < group.len() && group[at].id == id && (forall|i: int|
        0 <= i < at ==> (#[trigger] group[i]).id != id) {
        law_found_by_id(group, id, at);
        if group.len() >= 3 && 0 <= k < group.len() {
            if desk.is_maximized(group[k]) {
                lemma_some_maximized(desk, group, k);
            }
            if group[k].id != id && column(group[k]) == column(group[at]) && column(group[at])
                is Some {
                let others = without_id(group, id);
                lemma_keeps(group, id, k);
                let j = choose|j: int| 0 <= j < others.len() && others[j] == group[k];
                assert(column(others[j]) == column(group[at]));
                lemma_columns(others, column(group[at])->0);
            }
        }
    }
    if forall|i: int| 0 <= i < group.len() ==> (#[trigger] group[i]).id != id {
        law_not_found(group, id);
    }
}

/// A workspace with no windows, with more than are to be managed or with one that has no position is
/// left alone. On any other, an arrival that moves no window to the end of the row is settled as on a
/// second look.
pub proof fn law_managed_or_not(
    desk: Desk,
    id: u64,
    ws: u64,
    tiled: Seq<WindowInfo>,
    k: int,
    focused: Option<u64>,
)
    ensures
        ({
            let unmanaged = {
                ||| tiled.len() == 0
                ||| tiled.len() > desk.max_tiles
                ||| 0 <= k < tiled.len() && tiled[k].position is None
            };
            let gone = desk.departure(ws, tiled, focused);
            &&& unmanaged ==> (desk.arrival(id, ws, tiled, focused) matches Verdict::Settled(
                outcome,
            ) && outcome.effects.len() == 0 && outcome.snap is None)
            &&& unmanaged ==> gone.effects.len() == 0 && gone.snap is None
            &&& !desk.intact(ordered(tiled).take(screenful_start(tiled.len()) as int))
                ==> gone.effects.len() == 0 && gone.snap is None
        }),
        0 < tiled.len() <= desk.max_tiles && (forall|i: int|
            0 <= i < tiled.len() ==> (#[trigger] tiled[i]).position is Some) ==> (desk.arrival(
            id,
            ws,
            tiled,
            focused,
        ) matches Verdict::Settled(outcome) ==> outcome == desk.second_look(
            id,
            ws,
            screenful_start(tiled.len()),
            tiled,
            focused,
        )),
        tiled.len() <= 6 ==> desk.arrival(id, ws, tiled, focused) is Settled,
{
    let row = ordered(tiled);
    let start = screenful_start(tiled.len());
    let group = row.skip(start as int);
    lemma_ordered(tiled);
    lemma_with_id(row, id);
    if tiled.len() > 0 && with_id(row, id) is None {
        assert forall|i: int| 0 <= i < group.len() implies (#[trigger] group[i]).id != id by {
            assert(group[i] == row[start + i]);
        }
        law_not_found(group, id);
    }
}

} // verus!
