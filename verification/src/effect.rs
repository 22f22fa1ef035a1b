//! What the rules ask for: actions of the compositor and lines for the log.
use vstd::prelude::*;

verus! {

/// Something to ask of the compositor.
#[derive(Clone, Copy, Debug, PartialEq, Eq)]
pub enum Action {
    FocusWindow { id: u64 },
    /// Toggles the maximized state of the focused column.
    MaximizeColumn,
    /// Makes a window one `columns`th as wide as the working area.
    SetWindowWidth { id: u64, columns: usize },
    /// Moves the focused column to a place in the row, counted from 1.
    MoveColumnToIndex { index: usize },
    ConsumeOrExpelWindowLeft { id: u64 },
    ConsumeOrExpelWindowRight { id: u64 },
}

/// Something to log.
#[derive(Clone, Copy, Debug, PartialEq, Eq)]
pub enum Note {
    MaximizingSolo { id: u64 },
    SizingColumns { ws: u64, columns: usize },
    MovingToEnd { id: u64 },
    Collapsing { incumbent: u64, id: u64 },
    Stacking { id: u64, target: usize },
    Snapping,
}

/// A step to carry out. Steps are carried out in order.
#[derive(Clone, Copy, Debug, PartialEq, Eq)]
pub enum Effect {
    Log(Note),
    Do(Action),
}

/// Where to bring the view once windows have taken on new widths.
#[derive(Debug, PartialEq, Eq)]
pub struct Snap {
    /// The workspace that the windows are on.
    pub ws: u64,
    /// The windows that were resized.
    pub ids: Vec<u64>,
    /// The window at the start of the screenful.
    pub leftmost: u64,
    /// The windows were made one `columns`th wide.
    pub columns: usize,
}

/// A [`Snap`] with the ids as a sequence.
pub struct SnapView {
    pub ws: u64,
    pub ids: Seq<u64>,
    pub leftmost: u64,
    pub columns: usize,
}

impl View for Snap {
    type V = SnapView;

    open spec fn view(&self) -> SnapView {
        SnapView {
            ws: self.ws,
            ids: self.ids@,
            leftmost: self.leftmost,
            columns: self.columns,
        }
    }
}

/// What settling a workspace comes to.
#[derive(Debug, PartialEq, Eq)]
pub struct Settlement {
    pub effects: Vec<Effect>,
    /// What to wait for once the effects are carried out.
    pub snap: Option<Snap>,
}

/// A [`Settlement`] with its parts as mathematical values.
pub struct Outcome {
    pub effects: Seq<Effect>,
    pub snap: Option<SnapView>,
}

impl View for Settlement {
    type V = Outcome;

    open spec fn view(&self) -> Outcome {
        Outcome {
            effects: self.effects@,
            snap: match self.snap {
                Some(snap) => Some(snap@),
                None => None,
            },
        }
    }
}

/// What a newly arrived window calls for.
#[derive(Debug, PartialEq, Eq)]
pub enum Arrival {
    /// The workspace is settled once this is carried out.
    Settled(Settlement),
    /// Once the effects are carried out, the windows are to be fetched again. The last screenful
    /// starts behind `start` windows.
    Moved { effects: Vec<Effect>, start: usize },
}

/// An [`Arrival`] with its parts as mathematical values.
pub enum Verdict {
    Settled(Outcome),
    Moved { effects: Seq<Effect>, start: nat },
}

impl View for Arrival {
    type V = Verdict;

    open spec fn view(&self) -> Verdict {
        match *self {
            Arrival::Settled(settlement) => Verdict::Settled(settlement@),
            Arrival::Moved { effects, start } => Verdict::Moved {
                effects: effects@,
                start: start as nat,
            },
        }
    }
}

/// What an event calls for.
#[derive(Clone, Copy, Debug, PartialEq, Eq)]
pub enum Trigger {
    /// A window appeared on a workspace.
    Arrived { id: u64, ws: u64 },
    /// A window went from one workspace to another.
    Moved { id: u64, to: Option<u64>, from: Option<u64> },
    /// A window was closed.
    Closed { from: Option<u64> },
    /// Outputs may have come or gone.
    OutputsMaybeChanged,
}

/// One thing to do about a trigger.
#[derive(Clone, Copy, Debug, PartialEq, Eq)]
pub enum Task {
    SettleArrival { id: u64, ws: u64 },
    SettleDeparture { ws: u64 },
    RefreshMonitors,
}

/// What there is to do about a trigger, in order.
pub open spec fn tasks_for(trigger: Option<Trigger>, apply_on_move: bool) -> Seq<Task> {
    match trigger {
        Some(Trigger::Arrived { id, ws }) => seq![Task::SettleArrival { id, ws }],
        Some(Trigger::Moved { id, to, from }) => if apply_on_move {
            (match to {
                Some(ws) => seq![Task::SettleArrival { id, ws }],
                None => Seq::empty(),
            }) + (match from {
                Some(ws) => seq![Task::SettleDeparture { ws }],
                None => Seq::empty(),
            })
        } else {
            Seq::empty()
        },
        Some(Trigger::Closed { from: Some(ws) }) => seq![Task::SettleDeparture { ws }],
        Some(Trigger::Closed { from: None }) => Seq::empty(),
        Some(Trigger::OutputsMaybeChanged) => seq![Task::RefreshMonitors],
        None => Seq::empty(),
    }
}

/// What there is to do about a trigger, in order. Moves are only followed when `apply_on_move` says
/// so.
pub fn tasks(trigger: Option<Trigger>, apply_on_move: bool) -> (r: Vec<Task>)
    ensures
        r@ == tasks_for(trigger, apply_on_move),
{
    let mut list: Vec<Task> = Vec::new();
    match trigger {
        Some(Trigger::Arrived { id, ws }) => {
            list.push(Task::SettleArrival { id, ws });
        },
        Some(Trigger::Moved { id, to, from }) => {
            if apply_on_move {
                if let Some(ws) = to {
                    list.push(Task::SettleArrival { id, ws });
                }
                if let Some(ws) = from {
                    list.push(Task::SettleDeparture { ws });
                }
            }
        },
        Some(Trigger::Closed { from }) => {
            if let Some(ws) = from {
                list.push(Task::SettleDeparture { ws });
            }
        },
        Some(Trigger::OutputsMaybeChanged) => {
            list.push(Task::RefreshMonitors);
        },
        None => {},
    }
    assert(list@ =~= tasks_for(trigger, apply_on_move));
    list
}

/// Adds the steps of `more` behind those of `effects`.
pub(crate) fn extend(effects: &mut Vec<Effect>, more: &Vec<Effect>)
    ensures
        final(effects)@ == old(effects)@ + more@,
{
    let ghost before = effects@;
    let mut i: usize = 0;
    while i < more.len()
        invariant
            i <= more.len(),
            effects@ =~= before + more@.take(i as int),
        decreases more.len() - i,
    {
        effects.push(more[i]);
        i = i + 1;
    }
    assert(more@.take(i as int) =~= more@);
}

} // verus!
