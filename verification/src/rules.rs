//! The tiling rules, as functions from what is known to what is to be done.
//!
//! The windows of a workspace form a row of columns. The row is cut into screenfuls of six windows.
//! All screenfuls but the last are left as they are, three columns of two windows each; the rules
//! shape the last one.
use crate::effect::{Action, Effect, Note, Outcome, SnapView, Trigger, Verdict};
use crate::fraction::{full_width, near_share, quotient_bits};
use crate::niri::{Known, News};
use crate::window::{
    all_placed, column, columns, height, ids, ordered, with_id, without_id, WindowInfo,
};
use vstd::prelude::*;

verus! {

/// How many windows make up a screenful.
pub const SCREENFUL: usize = 6;

/// How long to wait for windows to take on new widths, in nanoseconds.
pub const SNAP_TIMEOUT: u64 = 1_000_000_000;

/// A [`SnapView`] that is waited for, and until when.
pub struct Pending {
    pub snap: SnapView,
    pub expires: u64,
}

/// All that the rules depend on.
pub struct Desk {
    /// What the compositor's events have told.
    pub known: Known,
    /// The widths of the monitors, by the name of the output.
    pub monitors: Map<Seq<char>, u32>,
    /// How many windows to manage per workspace.
    pub max_tiles: usize,
    /// What is waited for.
    pub pending: Option<Pending>,
}

/// How many windows come before the last screenful.
pub open spec fn screenful_start(count: nat) -> nat {
    (((count - 1) / SCREENFUL as int) * SCREENFUL) as nat
}

/// Nothing to do.
pub open spec fn nothing() -> Outcome {
    Outcome { effects: Seq::empty(), snap: None }
}

/// Steps to log and carry out something, without waiting for anything.
pub open spec fn done(note: Note, steps: Seq<Effect>) -> Outcome {
    Outcome { effects: seq![Effect::Log(note)] + steps, snap: None }
}

/// `steps` with a window focused, after which the focus goes back to where it was. Nothing is
/// focused when the window has the focus or when no window has it.
pub open spec fn focusing(id: u64, focused: Option<u64>, steps: Seq<Effect>) -> Seq<Effect> {
    match focused {
        Some(back) => if back == id {
            steps
        } else {
            seq![Effect::Do(Action::FocusWindow { id })] + steps + seq![
                Effect::Do(Action::FocusWindow { id: back }),
            ]
        },
        None => steps,
    }
}

/// Toggles whether a window's column is maximized.
pub open spec fn toggling(id: u64, focused: Option<u64>) -> Seq<Effect> {
    focusing(id, focused, seq![Effect::Do(Action::MaximizeColumn)])
}

/// Makes each window one `columns`th wide.
pub open spec fn sizing(ids: Seq<u64>, columns: usize) -> Seq<Effect> {
    ids.map_values(|id: u64| Effect::Do(Action::SetWindowWidth { id, columns }))
}

/// Gives the windows of a screenful equal shares, and waits for them to take these on.
pub open spec fn sharing(ws: u64, group: Seq<WindowInfo>, columns: usize) -> Outcome {
    Outcome {
        effects: seq![Effect::Log(Note::SizingColumns { ws, columns })] + sizing(
            ids(group),
            columns,
        ),
        snap: Some(SnapView { ws, ids: ids(group), leftmost: group[0].id, columns }),
    }
}

/// Moves a window's column to the given place in the row.
pub open spec fn moving_to_end(id: u64, index: usize, focused: Option<u64>) -> Seq<Effect> {
    seq![Effect::Log(Note::MovingToEnd { id })] + focusing(
        id,
        focused,
        seq![Effect::Do(Action::MoveColumnToIndex { index })],
    )
}

/// How far apart two columns are.
pub open spec fn columns_apart(a: usize, b: usize) -> int {
    if a < b {
        b - a
    } else {
        a - b
    }
}

/// Whether `target` is where a window in column `col` is to be stacked: of the columns that hold a
/// single window the nearest, and of two equally near ones that to the right.
pub open spec fn is_target(others: Seq<WindowInfo>, col: usize, target: usize) -> bool {
    &&& height(others, target) == 1
    &&& forall|other: usize| #[trigger]
        height(others, other) == 1 ==> {
            ||| columns_apart(target, col) < columns_apart(other, col)
            ||| columns_apart(target, col) == columns_apart(other, col) && other <= target
        }
}

/// The column to stack a window of column `col` into, if there is one that holds a single window.
pub open spec fn target_column(others: Seq<WindowInfo>, col: usize) -> Option<usize> {
    if exists|target: usize| is_target(others, col, target) {
        Some(choose|target: usize| is_target(others, col, target))
    } else {
        None
    }
}

/// Stacks a window that is alone in column `col` into the target column.
pub open spec fn stacking(id: u64, col: usize, target: usize, focused: Option<u64>) -> Seq<Effect> {
    let right = Effect::Do(Action::ConsumeOrExpelWindowRight { id });
    let left = Effect::Do(Action::ConsumeOrExpelWindowLeft { id });
    seq![Effect::Log(Note::Stacking { id, target })] + (if target == col + 1 {
        seq![right]
    } else if target + 1 == col {
        seq![left]
    } else if col < target {
        focusing(
            id,
            focused,
            seq![Effect::Do(Action::MoveColumnToIndex { index: (target - 1) as usize }), right],
        )
    } else {
        focusing(
            id,
            focused,
            seq![Effect::Do(Action::MoveColumnToIndex { index: (target + 1) as usize }), left],
        )
    })
}

impl Desk {
    /// The width of the monitor that a window is on, if it is known.
    pub open spec fn monitor_of(self, window: WindowInfo) -> Option<u32> {
        match window.workspace_id {
            Some(ws) => if self.known.outputs.contains_key(ws) {
                match self.known.outputs[ws] {
                    Some(name) => if self.monitors.contains_key(name) {
                        Some(self.monitors[name])
                    } else {
                        None
                    },
                    None => None,
                }
            } else {
                None
            },
            None => None,
        }
    }

    /// How wide a window is as a fraction of its monitor, if the monitor is known.
    pub open spec fn width_fraction(self, window: WindowInfo) -> Option<u64> {
        match self.monitor_of(window) {
            Some(width) => Some(quotient_bits(window.tile_width, width)),
            None => None,
        }
    }

    /// Whether a window is known to take up the full width.
    pub open spec fn is_maximized(self, window: WindowInfo) -> bool {
        match self.width_fraction(window) {
            Some(fraction) => full_width(fraction),
            None => false,
        }
    }

    /// Whether a window is known to take up one `columns`th of the width.
    pub open spec fn has_share(self, window: WindowInfo, columns: nat) -> bool {
        match self.width_fraction(window) {
            Some(fraction) => near_share(fraction, columns),
            None => false,
        }
    }

    /// Whether every window is known to take up one `columns`th of the width.
    pub open spec fn all_share(self, windows: Seq<WindowInfo>, columns: nat) -> bool {
        forall|i: int| 0 <= i < windows.len() ==> self.has_share(#[trigger] windows[i], columns)
    }

    /// Of the shares from one half to one eighth, the largest that all the windows have.
    pub open spec fn common_share(self, windows: Seq<WindowInfo>, from: nat) -> Option<nat>
        decreases 9 - from,
    {
        if from > 8 {
            None
        } else if self.all_share(windows, from) {
            Some(from)
        } else {
            self.common_share(windows, from + 1)
        }
    }

    /// Whether `focused` can be the answer to which window has the focus.
    pub open spec fn may_be_focused(self, focused: Option<u64>) -> bool {
        match focused {
            Some(id) => exists|key: u64| #[trigger]
                self.known.windows.contains_key(key) && self.known.windows[key].is_focused
                    && self.known.windows[key].id == id,
            None => forall|key: u64| #[trigger]
                self.known.windows.contains_key(key) ==> !self.known.windows[key].is_focused,
        }
    }

    /// Whether a window has the focus and is tiled on the given workspace.
    pub open spec fn focused_tile(window: WindowInfo, ws: u64) -> bool {
        window.is_focused && window.workspace_id == Some(ws) && !window.is_floating
    }

    /// Whether `focused` can be the answer to which tiled window of a workspace has the focus.
    pub open spec fn may_be_focused_on(self, ws: u64, focused: Option<u64>) -> bool {
        match focused {
            Some(id) => exists|key: u64| #[trigger]
                self.known.windows.contains_key(key) && Desk::focused_tile(
                    self.known.windows[key],
                    ws,
                ) && self.known.windows[key].id == id,
            None => forall|key: u64| #[trigger]
                self.known.windows.contains_key(key) ==> !Desk::focused_tile(
                    self.known.windows[key],
                    ws,
                ),
        }
    }

    /// Whether screenfuls are shaped as they should be: every column holds two windows, and every
    /// window takes up a third of the width.
    pub open spec fn intact(self, earlier: Seq<WindowInfo>) -> bool {
        &&& forall|col: usize| #[trigger] height(earlier, col) > 0 ==> height(earlier, col) == 2
        &&& self.all_share(earlier, 3)
    }

    /// Maximizes a window unless it is.
    pub open spec fn maximizing(self, window: WindowInfo, focused: Option<u64>) -> Outcome {
        if self.is_maximized(window) {
            nothing()
        } else {
            done(Note::MaximizingSolo { id: window.id }, toggling(window.id, focused))
        }
    }

    /// Whether the rules have a say on a workspace with these tiled windows.
    pub open spec fn manages(self, tiled: Seq<WindowInfo>) -> bool {
        0 < tiled.len() <= self.max_tiles && all_placed(tiled)
    }

    /// What to do on a workspace that a window has left: a window left alone in the last screenful
    /// is maximized; otherwise, windows that share the width among another number of columns than
    /// there are get equal shares.
    pub open spec fn departure(
        self,
        ws: u64,
        tiled: Seq<WindowInfo>,
        focused: Option<u64>,
    ) -> Outcome {
        let row = ordered(tiled);
        let start = screenful_start(tiled.len()) as int;
        let earlier = row.take(start);
        let group = row.skip(start);
        let count = columns(group).len();
        if !self.manages(tiled) || !self.intact(earlier) {
            nothing()
        } else if group.len() == 1 {
            if height(earlier, column(group[0])->0) > 0 {
                nothing()
            } else {
                self.maximizing(group[0], focused)
            }
        } else {
            match self.common_share(group, 2) {
                Some(share) => if share != count {
                    sharing(ws, group, count as usize)
                } else {
                    nothing()
                },
                None => nothing(),
            }
        }
    }

    /// What to do about a window that arrived on a workspace. In a row of more than one screenful a
    /// window that opened a column of its own goes to the end of the row first.
    pub open spec fn arrival(
        self,
        id: u64,
        ws: u64,
        tiled: Seq<WindowInfo>,
        focused: Option<u64>,
    ) -> Verdict {
        let row = ordered(tiled);
        let start = screenful_start(tiled.len());
        let settled = Verdict::Settled(self.placement(id, ws, row, start, focused));
        if !self.manages(tiled) {
            Verdict::Settled(nothing())
        } else if tiled.len() > SCREENFUL {
            match with_id(row, id) {
                Some(new) => if leaves_gap(row, id, column(new)->0) {
                    Verdict::Moved {
                        effects: moving_to_end(id, columns(row).len() as usize, focused),
                        start,
                    }
                } else {
                    settled
                },
                None => Verdict::Settled(nothing()),
            }
        } else {
            settled
        }
    }

    /// What to do about a window that arrived, once the windows were fetched again.
    pub open spec fn second_look(
        self,
        id: u64,
        ws: u64,
        start: nat,
        tiled: Seq<WindowInfo>,
        focused: Option<u64>,
    ) -> Outcome {
        if all_placed(tiled) {
            self.placement(id, ws, ordered(tiled), start, focused)
        } else {
            nothing()
        }
    }

    /// How a window that arrived finds its place in the last screenful of a row.
    pub open spec fn placement(
        self,
        id: u64,
        ws: u64,
        row: Seq<WindowInfo>,
        start: nat,
        focused: Option<u64>,
    ) -> Outcome {
        let earlier = row.take(start as int);
        let group = row.skip(start as int);
        if !self.intact(earlier) {
            nothing()
        } else {
            match with_id(group, id) {
                Some(new) => if self.is_maximized(new) {
                    nothing()
                } else if group.len() == 1 {
                    self.maximizing(new, focused)
                } else if group.len() == 2 {
                    self.splitting(id, group, focused)
                } else {
                    self.joining(ws, new, earlier.len(), group, focused)
                },
                None => nothing(),
            }
        }
    }

    /// The maximized windows among the given ones.
    pub open spec fn maximized(self, windows: Seq<WindowInfo>) -> Seq<WindowInfo> {
        windows.filter(|w: WindowInfo| self.is_maximized(w))
    }

    /// A second window joins a maximized one, which gives up half of the width.
    pub open spec fn splitting(
        self,
        id: u64,
        group: Seq<WindowInfo>,
        focused: Option<u64>,
    ) -> Outcome {
        let maxed = self.maximized(group);
        if maxed.len() == 1 {
            done(
                Note::Collapsing { incumbent: maxed[0].id, id },
                toggling(maxed[0].id, focused),
            )
        } else {
            nothing()
        }
    }

    /// A third or later window joins a screenful: it is stacked onto a window that has a column to
    /// itself or, where there is none, goes to the end of the row. From three columns on all windows
    /// get equal shares.
    pub open spec fn joining(
        self,
        ws: u64,
        new: WindowInfo,
        before: nat,
        group: Seq<WindowInfo>,
        focused: Option<u64>,
    ) -> Outcome {
        let others = without_id(group, new.id);
        let col = column(new)->0;
        if self.maximized(group).len() > 0 || new.position is None || height(others, col) > 0 {
            nothing()
        } else {
            let target = target_column(others, col);
            let last = before / 2 + columns(others).len() + 1;
            let effects = match target {
                Some(target) => stacking(new.id, col, target, focused),
                None => if col < last {
                    moving_to_end(new.id, last as usize, focused)
                } else {
                    Seq::empty()
                },
            };
            let total = columns(others).len() + if target is None {
                1nat
            } else {
                0
            };
            if total >= 3 {
                let shares = sharing(ws, group, total as usize);
                Outcome { effects: effects + shares.effects, snap: shares.snap }
            } else {
                Outcome { effects, snap: None }
            }
        }
    }

    /// Whether all windows of a snap are still there.
    pub open spec fn all_present(self, ids: Seq<u64>) -> bool {
        forall|i: int| 0 <= i < ids.len() ==> self.known.windows.contains_key(#[trigger] ids[i])
    }

    /// Whether all windows of a snap have taken on their width.
    pub open spec fn all_resized(self, snap: SnapView) -> bool {
        forall|i: int|
            0 <= i < snap.ids.len() ==> self.has_share(
                self.known.windows[#[trigger] snap.ids[i]],
                snap.columns as nat,
            )
    }

    /// What is still waited for at a given time, and what to do now. `focused` is the tiled window
    /// of the workspace that has the focus.
    pub open spec fn snapping(self, now: u64, focused: Option<u64>) -> (
        Option<Pending>,
        Seq<Effect>,
    ) {
        match self.pending {
            Some(pending) => if now > pending.expires || !self.all_present(pending.snap.ids) {
                (None, Seq::empty())
            } else if self.all_resized(pending.snap) && focused is Some {
                let leftmost = pending.snap.leftmost;
                let start = seq![
                    Effect::Log(Note::Snapping),
                    Effect::Do(Action::FocusWindow { id: leftmost }),
                ];
                (
                    None,
                    if focused->0 == leftmost {
                        start
                    } else {
                        start.push(Effect::Do(Action::FocusWindow { id: focused->0 }))
                    },
                )
            } else {
                (self.pending, Seq::empty())
            },
            None => (None, Seq::empty()),
        }
    }

    /// What is waited for once effects were carried out, all of them if `sent`: the snap that came
    /// with them. Without one, or when not all could be sent, it is what was waited for before.
    pub open spec fn concluded(self, sent: bool, snap: Option<SnapView>, now: u64) -> Option<
        Pending,
    > {
        match snap {
            Some(snap) => if sent {
                Some(Pending { snap, expires: (now + SNAP_TIMEOUT) as u64 })
            } else {
                self.pending
            },
            None => self.pending,
        }
    }

    /// What a window that was opened or changed calls for.
    pub open spec fn opened(self, window: WindowInfo) -> Option<Trigger> {
        if window.is_floating {
            None
        } else if !self.known.windows.contains_key(window.id) {
            match window.workspace_id {
                Some(ws) => Some(Trigger::Arrived { id: window.id, ws }),
                None => None,
            }
        } else {
            let from = self.known.windows[window.id].workspace_id;
            if from == window.workspace_id {
                None
            } else {
                Some(Trigger::Moved { id: window.id, to: window.workspace_id, from })
            }
        }
    }

    /// What a window that was closed calls for.
    pub open spec fn closed(self, id: u64) -> Trigger {
        Trigger::Closed {
            from: if self.known.windows.contains_key(id) {
                self.known.windows[id].workspace_id
            } else {
                None
            },
        }
    }

    /// What an event calls for.
    pub open spec fn plan(self, news: News) -> Option<Trigger> {
        match news {
            News::WorkspacesChanged { .. } => Some(Trigger::OutputsMaybeChanged),
            News::WindowOpenedOrChanged { window } => self.opened(window),
            News::WindowClosed { id } => Some(self.closed(id)),
            _ => None,
        }
    }
}

/// Whether a window is alone in column `col` and other columns lie to the right of it.
pub open spec fn leaves_gap(row: Seq<WindowInfo>, id: u64, col: usize) -> bool {
    &&& height(without_id(row, id), col) == 0
    &&& exists|i: int|
        0 <= i < row.len() && (#[trigger] row[i]).position is Some && col < column(row[i])->0
}

} // verus!
