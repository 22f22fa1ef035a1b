//! The auto-tiler: what it knows, and the rules applied to it.
use crate::basics::{gives, law_last_width, law_outputs_in_use};
use crate::effect::{Action, Effect, Note, Snap, Trigger};
use crate::fraction::{is_full_width, is_near_share, quotient_bits, width_ratio};
use crate::niri::{
    all_windows, apply, find_output, find_window, known, knows_cast, knows_layouts, lists,
    new_state, news_of, read_event, read_window, window_of, windows_of, News, Report,
};
use crate::rules::{Desk, Pending, SNAP_TIMEOUT};
use crate::window::{keep_tiled, same_workspace, tiled_on, WindowInfo};
use niri_ipc::state::EventStreamState;
use vstd::prelude::*;

verus! {

/// A [`Snap`] that is waited for.
pub struct PendingSnap {
    snap: Snap,
    /// When to stop waiting, on the clock of the program.
    expires: u64,
}

/// The auto-tiler.
pub struct Cleave {
    state: EventStreamState,
    monitors: Vec<(String, u32)>,
    max_tiles: usize,
    pending_snap: Option<PendingSnap>,
}

/// The widths of monitors by name. Of two with the same name the later one stays.
pub open spec fn widths(monitors: Seq<(String, u32)>) -> Map<Seq<char>, u32>
    decreases monitors.len(),
{
    if monitors.len() == 0 {
        Map::empty()
    } else {
        widths(monitors.drop_last()).insert(monitors.last().0@, monitors.last().1)
    }
}

/// The widths of those outputs that are in use.
pub open spec fn widths_in_use(outputs: Seq<(String, Option<u32>)>) -> Map<Seq<char>, u32>
    decreases outputs.len(),
{
    if outputs.len() == 0 {
        Map::empty()
    } else {
        let before = widths_in_use(outputs.drop_last());
        match outputs.last().1 {
            Some(width) => before.insert(outputs.last().0@, width),
            None => before,
        }
    }
}

/// What a reply lists.
pub open spec fn listed(windows: Seq<niri_ipc::Window>) -> Seq<WindowInfo> {
    windows.map_values(|w: niri_ipc::Window| window_of(w))
}

impl View for Cleave {
    type V = Desk;

    closed spec fn view(&self) -> Desk {
        Desk {
            known: known(self.state),
            monitors: widths(self.monitors@),
            max_tiles: self.max_tiles,
            pending: match self.pending_snap {
                Some(pending) => Some(Pending { snap: pending.snap@, expires: pending.expires }),
                None => None,
            },
        }
    }
}

impl Cleave {
    /// A tiler that manages up to `max_tiles` windows per workspace and knows nothing yet.
    pub fn new(max_tiles: usize) -> (r: Cleave)
        ensures
            r@.known.windows.is_empty(),
            r@.known.outputs.is_empty(),
            !r@.known.layouts,
            r@.known.casts == Set::<u64>::empty(),
            r@.monitors.is_empty(),
            r@.max_tiles == max_tiles,
            r@.pending is None,
    {
        Cleave { state: new_state(), monitors: Vec::new(), max_tiles, pending_snap: None }
    }

    /// How many windows are managed per workspace.
    pub fn max_tiles(&self) -> (r: usize)
        ensures
            r == self@.max_tiles,
    {
        self.max_tiles
    }

    /// The window with the given id.
    fn window(&self, id: u64) -> (r: Option<WindowInfo>)
        ensures
            match r {
                Some(window) => self@.known.windows.contains_key(id) && window
                    == self@.known.windows[id],
                None => !self@.known.windows.contains_key(id),
            },
    {
        match find_window(&self.state, id) {
            Some(window) => Some(read_window(window)),
            None => None,
        }
    }

    /// Whether an event refers only to what earlier events have told of. [`Cleave::apply`] takes no
    /// other.
    pub fn accepts(&self, event: &niri_ipc::Event) -> (r: bool)
        ensures
            r == self@.known.accepts(news_of(*event)),
    {
        match read_event(event) {
            Report::Workspace(id) => find_output(&self.state, id).is_some(),
            Report::Closed(id) => find_window(&self.state, id).is_some(),
            Report::Placed(list) => {
                proof {
                    if let News::WindowLayoutsChanged { changes } = news_of(*event) {
                        assert forall|i: int| 0 <= i < changes.len() implies (
                        #[trigger] changes[i]).0 == list@[i] by {}
                        if self@.all_present(list@) {
                            assert forall|i: int| 0 <= i < changes.len() implies
                                self@.known.windows.contains_key((#[trigger] changes[i]).0) by {
                                assert(self@.known.windows.contains_key(list@[i]));
                            }
                        } else {
                            let i = choose|i: int|
                                0 <= i < list@.len() && !self@.known.windows.contains_key(
                                    #[trigger] list@[i],
                                );
                            assert(!self@.known.windows.contains_key(changes[i].0));
                        }
                    }
                }
                self.all_known(&list)
            },
            Report::Switched => knows_layouts(&self.state),
            Report::Stopped(cast) => knows_cast(&self.state, cast),
            _ => true,
        }
    }

    /// Whether all of the windows are there.
    fn all_known(&self, list: &Vec<u64>) -> (r: bool)
        ensures
            r == self@.all_present(list@),
    {
        let mut i: usize = 0;
        while i < list.len()
            invariant
                i <= list.len(),
                forall|k: int| 0 <= k < i ==> self@.known.windows.contains_key(#[trigger] list@[k]),
            decreases list.len() - i,
        {
            if self.window(list[i]).is_none() {
                assert(!self@.known.windows.contains_key(list@[i as int]));
                return false;
            }
            i = i + 1;
        }
        true
    }

    /// Takes an event in.
    pub fn apply(&mut self, event: niri_ipc::Event)
        requires
            old(self)@.known.accepts(news_of(event)),
        ensures
            final(self)@ == (Desk {
                known: old(self)@.known.after(news_of(event)),
                ..old(self)@
            }),
    {
        apply(&mut self.state, event);
    }

    /// What an event calls for. It is to be asked before the event is taken in.
    pub fn plan(&self, event: &niri_ipc::Event) -> (r: Option<Trigger>)
        ensures
            r == self@.plan(news_of(*event)),
    {
        match read_event(event) {
            Report::Workspaces => Some(Trigger::OutputsMaybeChanged),
            Report::Opened(window) => self.opened(read_window(window)),
            Report::Closed(id) => Some(self.closed(id)),
            _ => None,
        }
    }

    /// Takes an event in and says what it calls for, going by what was known before.
    pub fn take_in(&mut self, event: niri_ipc::Event) -> (r: Option<Trigger>)
        requires
            old(self)@.known.accepts(news_of(event)),
        ensures
            r == old(self)@.plan(news_of(event)),
            final(self)@ == (Desk {
                known: old(self)@.known.after(news_of(event)),
                ..old(self)@
            }),
    {
        let trigger = self.plan(&event);
        self.apply(event);
        trigger
    }

    /// What a window that was opened or changed calls for.
    pub fn opened(&self, window: WindowInfo) -> (r: Option<Trigger>)
        ensures
            r == self@.opened(window),
    {
        if window.is_floating {
            return None;
        }
        match self.window(window.id) {
            Some(previous) => if same_workspace(previous.workspace_id, window.workspace_id) {
                None
            } else {
                Some(
                    Trigger::Moved {
                        id: window.id,
                        to: window.workspace_id,
                        from: previous.workspace_id,
                    },
                )
            },
            None => match window.workspace_id {
                Some(ws) => Some(Trigger::Arrived { id: window.id, ws }),
                None => None,
            },
        }
    }

    /// What a window that was closed calls for.
    pub fn closed(&self, id: u64) -> (r: Trigger)
        ensures
            r == self@.closed(id),
    {
        match self.window(id) {
            Some(window) => Trigger::Closed { from: window.workspace_id },
            None => Trigger::Closed { from: None },
        }
    }

    /// The windows of a reply that are tiled on a workspace. Any other reply lists none.
    pub fn fresh_tiled(reply: Option<Vec<niri_ipc::Window>>, ws_id: u64) -> (r: Vec<WindowInfo>)
        ensures
            r@ == (match reply {
                Some(windows) => tiled_on(listed(windows@), ws_id),
                None => Seq::empty(),
            }),
    {
        match reply {
            Some(windows) => {
                let mut all: Vec<WindowInfo> = Vec::new();
                let mut i: usize = 0;
                while i < windows.len()
                    invariant
                        i <= windows.len(),
                        all@ =~= listed(windows@.take(i as int)),
                    decreases windows.len() - i,
                {
                    all.push(read_window(&windows[i]));
                    i = i + 1;
                }
                assert(windows@.take(i as int) =~= windows@);
                keep_tiled(all.as_slice(), ws_id)
            },
            None => Vec::new(),
        }
    }

    /// Takes in which outputs there are and how wide those in use are. Any other reply changes
    /// nothing.
    pub fn refresh_monitors(&mut self, reply: Option<Vec<(String, Option<u32>)>>)
        ensures
            final(self)@ == (Desk {
                monitors: match reply {
                    Some(outputs) => widths_in_use(outputs@),
                    None => old(self)@.monitors,
                },
                ..old(self)@
            }),
            reply matches Some(outputs) ==> forall|name: Seq<char>| #[trigger]
                final(self)@.monitors.contains_key(name) <==> exists|i: int|
                    0 <= i < outputs@.len() && gives(#[trigger] outputs@[i], name) is Some,
            reply matches Some(outputs) ==> forall|name: Seq<char>, at: int|
                0 <= at < outputs@.len() && gives(#[trigger] outputs@[at], name) is Some && (
                forall|j: int|
                    at < j < outputs@.len() ==> gives(#[trigger] outputs@[j], name) is None)
                    ==> Some(#[trigger] final(self)@.monitors[name]) == gives(outputs@[at], name),
    {
        if let Some(outputs) = reply {
            let mut monitors: Vec<(String, u32)> = Vec::new();
            let mut i: usize = 0;
            while i < outputs.len()
                invariant
                    i <= outputs.len(),
                    widths(monitors@) == widths_in_use(outputs@.take(i as int)),
                decreases outputs.len() - i,
            {
                assert(outputs@.take(i + 1).drop_last() =~= outputs@.take(i as int));
                if let Some(width) = outputs[i].1 {
                    let ghost before = monitors@;
                    monitors.push((outputs[i].0.clone(), width));
                    assert(monitors@.drop_last() =~= before);
                }
                i = i + 1;
            }
            assert(outputs@.take(i as int) =~= outputs@);
            self.monitors = monitors;
            proof {
                assert forall|name: Seq<char>| #[trigger]
                    self@.monitors.contains_key(name) <==> exists|i: int|
                        0 <= i < outputs@.len() && gives(#[trigger] outputs@[i], name) is Some by {
                    law_outputs_in_use(outputs@, name);
                }
                assert forall|name: Seq<char>, at: int|
                    0 <= at < outputs@.len() && gives(#[trigger] outputs@[at], name) is Some && (
                    forall|j: int|
                        at < j < outputs@.len() ==> gives(#[trigger] outputs@[j], name)
                            is None) implies Some(#[trigger] self@.monitors[name]) == gives(
                    outputs@[at],
                    name,
                ) by {
                    law_last_width(outputs@, name, at);
                }
            }
        }
    }

    /// The names of the outputs in use, each once.
    pub fn monitor_names(&self) -> (r: Vec<String>)
        ensures
            forall|name: Seq<char>| #[trigger]
                self@.monitors.contains_key(name) <==> exists|i: int|
                    0 <= i < r.len() && (#[trigger] r@[i])@ == name,
            forall|i: int, j: int|
                0 <= i < j < r.len() ==> (#[trigger] r@[i])@ != (#[trigger] r@[j])@,
    {
        let mut names: Vec<String> = Vec::new();
        let mut i: usize = 0;
        while i < self.monitors.len()
            invariant
                i <= self.monitors.len(),
                forall|name: Seq<char>| #[trigger]
                    widths(self.monitors@.take(i as int)).contains_key(name) <==> exists|k: int|
                        0 <= k < names.len() && (#[trigger] names@[k])@ == name,
                forall|k: int, l: int|
                    0 <= k < l < names.len() ==> (#[trigger] names@[k])@ != (#[trigger] names@[l])@,
            decreases self.monitors.len() - i,
        {
            let name = &self.monitors[i].0;
            let ghost before = widths(self.monitors@.take(i as int));
            let ghost listed_before = names@;
            assert(self.monitors@.take(i + 1).drop_last() =~= self.monitors@.take(i as int));
            if !has_name(&names, name) {
                assert(!before.contains_key(name@));
                names.push(name.clone());
                proof {
                    assert forall|other: Seq<char>| #[trigger]
                        before.insert(name@, self.monitors@[i as int].1).contains_key(other)
                            <==> exists|k: int|
                            0 <= k < names.len() && (#[trigger] names@[k])@ == other by {
                        if before.contains_key(other) {
                            let k = choose|k: int|
                                0 <= k < listed_before.len() && (#[trigger] listed_before[k])@
                                    == other;
                            assert(names@[k]@ == other);
                        }
                        if other == name@ {
                            assert(names@[names.len() - 1]@ == other);
                        }
                        if exists|k: int|
                            0 <= k < names.len() && (#[trigger] names@[k])@ == other {
                            let k = choose|k: int|
                                0 <= k < names.len() && (#[trigger] names@[k])@ == other;
                            if k < listed_before.len() {
                                assert(listed_before[k]@ == other);
                            }
                        }
                    }
                }
            }
            i = i + 1;
        }
        assert(self.monitors@.take(i as int) =~= self.monitors@);
        names
    }

    /// The width of a monitor.
    fn monitor_width(&self, name: &String) -> (r: Option<u32>)
        ensures
            match r {
                Some(width) => self@.monitors.contains_key(name@) && width
                    == self@.monitors[name@],
                None => !self@.monitors.contains_key(name@),
            },
    {
        let mut i: usize = self.monitors.len();
        assert(self.monitors@.take(i as int) =~= self.monitors@);
        while i > 0
            invariant
                i <= self.monitors.len(),
                widths(self.monitors@).contains_key(name@) == widths(
                    self.monitors@.take(i as int),
                ).contains_key(name@),
                widths(self.monitors@).contains_key(name@) ==> widths(self.monitors@)[name@]
                    == widths(self.monitors@.take(i as int))[name@],
            decreases i,
        {
            i = i - 1;
            assert(self.monitors@.take(i + 1).drop_last() =~= self.monitors@.take(i as int));
            if self.monitors[i].0 == *name {
                return Some(self.monitors[i].1);
            }
        }
        None
    }

    /// How wide a window is as a fraction of its monitor, if the monitor is known: the bits of a
    /// double.
    pub fn width_fraction(&self, window: &WindowInfo) -> (r: Option<u64>)
        ensures
            match r {
                Some(fraction) => self@.monitor_of(*window) matches Some(width) && fraction
                    == quotient_bits(window.tile_width, width),
                None => self@.monitor_of(*window) is None,
            },
            r == self@.width_fraction(*window),
    {
        match window.workspace_id {
            Some(ws) => match find_output(&self.state, ws) {
                Some(Some(name)) => match self.monitor_width(&name) {
                    Some(width) => Some(width_ratio(window.tile_width, width)),
                    None => None,
                },
                _ => None,
            },
            None => None,
        }
    }

    /// Whether a window is known to take up the full width.
    pub fn is_maximized(&self, window: &WindowInfo) -> (r: bool)
        ensures
            r == self@.is_maximized(*window),
    {
        match self.width_fraction(window) {
            Some(fraction) => is_full_width(fraction),
            None => false,
        }
    }

    /// Whether a window is known to take up one `columns`th of the width.
    pub fn has_share(&self, window: &WindowInfo, columns: usize) -> (r: bool)
        ensures
            r == self@.has_share(*window, columns as nat),
    {
        match self.width_fraction(window) {
            Some(fraction) => is_near_share(fraction, columns),
            None => false,
        }
    }

    /// Whether every window is known to take up one `columns`th of the width.
    pub(crate) fn all_share(&self, windows: &[WindowInfo], columns: usize) -> (r: bool)
        ensures
            r == self@.all_share(windows@, columns as nat),
    {
        let mut i: usize = 0;
        while i < windows.len()
            invariant
                i <= windows.len(),
                forall|k: int|
                    0 <= k < i ==> self@.has_share(#[trigger] windows@[k], columns as nat),
            decreases windows.len() - i,
        {
            if !self.has_share(&windows[i], columns) {
                assert(!self@.has_share(windows@[i as int], columns as nat));
                return false;
            }
            i = i + 1;
        }
        true
    }

    /// The window that has the focus, if any.
    pub fn focused_id(&self) -> (r: Option<u64>)
        ensures
            self@.may_be_focused(r),
    {
        let list = all_windows(&self.state);
        let ghost keys = choose|keys: Seq<u64>| lists(keys, windows_of(self.state), list@);
        let mut i: usize = 0;
        while i < list.len()
            invariant
                i <= list.len(),
                lists(keys, windows_of(self.state), list@),
                forall|k: int| 0 <= k < i ==> !window_of(*#[trigger] list@[k]).is_focused,
            decreases list.len() - i,
        {
            let window = read_window(list[i]);
            if window.is_focused {
                proof {
                    let key = keys[i as int];
                    assert(window_of(*list@[i as int]) == windows_of(self.state)[key]);
                    assert(keys.to_set().contains(key));
                    assert(self@.known.windows.contains_key(key));
                }
                return Some(window.id);
            }
            i = i + 1;
        }
        proof {
            assert forall|key: u64| #[trigger]
                self@.known.windows.contains_key(key) implies !self@.known.windows[key].is_focused by {
                assert(keys.to_set().contains(key));
                let k = choose|k: int| 0 <= k < keys.len() && keys[k] == key;
                assert(window_of(*list@[k]) == windows_of(self.state)[key]);
            }
        }
        None
    }

    /// The tiled window of a workspace that has the focus, if any.
    pub fn focused_on(&self, ws: u64) -> (r: Option<u64>)
        ensures
            self@.may_be_focused_on(ws, r),
    {
        let list = all_windows(&self.state);
        let ghost keys = choose|keys: Seq<u64>| lists(keys, windows_of(self.state), list@);
        let mut i: usize = 0;
        while i < list.len()
            invariant
                i <= list.len(),
                lists(keys, windows_of(self.state), list@),
                forall|k: int|
                    0 <= k < i ==> !Desk::focused_tile(window_of(*#[trigger] list@[k]), ws),
            decreases list.len() - i,
        {
            let window = read_window(list[i]);
            if window.is_focused && same_workspace(window.workspace_id, Some(ws))
                && !window.is_floating {
                proof {
                    let key = keys[i as int];
                    assert(window_of(*list@[i as int]) == windows_of(self.state)[key]);
                    assert(keys.to_set().contains(key));
                    assert(self@.known.windows.contains_key(key));
                }
                return Some(window.id);
            }
            i = i + 1;
        }
        proof {
            assert forall|key: u64| #[trigger]
                self@.known.windows.contains_key(key) implies !Desk::focused_tile(
                self@.known.windows[key],
                ws,
            ) by {
                assert(keys.to_set().contains(key));
                let k = choose|k: int| 0 <= k < keys.len() && keys[k] == key;
                assert(window_of(*list@[k]) == windows_of(self.state)[key]);
            }
        }
        None
    }

    /// Whether all windows of a snap have taken on their width.
    fn all_resized(&self, snap: &Snap) -> (r: bool)
        requires
            self@.all_present(snap.ids@),
        ensures
            r == self@.all_resized(snap@),
    {
        let mut i: usize = 0;
        while i < snap.ids.len()
            invariant
                i <= snap.ids.len(),
                self@.all_present(snap.ids@),
                forall|k: int|
                    0 <= k < i ==> self@.has_share(
                        self@.known.windows[#[trigger] snap.ids@[k]],
                        snap.columns as nat,
                    ),
            decreases snap.ids.len() - i,
        {
            assert(self@.known.windows.contains_key(snap.ids@[i as int]));
            if let Some(window) = self.window(snap.ids[i]) {
                if !self.has_share(&window, snap.columns) {
                    proof {
                        let id = snap@.ids[i as int];
                        assert(!self@.has_share(self@.known.windows[id], snap.columns as nat));
                    }
                    return false;
                }
            }
            i = i + 1;
        }
        true
    }

    /// Starts waiting for windows to take on new widths. It is to be called once the effects that
    /// came with the snap are carried out. `now` is the time in nanoseconds.
    pub fn arm(&mut self, snap: Snap, now: u64)
        requires
            now + SNAP_TIMEOUT <= u64::MAX,
        ensures
            final(self)@ == (Desk {
                pending: Some(Pending { snap: snap@, expires: (now + SNAP_TIMEOUT) as u64 }),
                ..old(self)@
            }),
    {
        self.pending_snap = Some(PendingSnap { snap, expires: now + SNAP_TIMEOUT });
    }

    /// Starts waiting for what came with effects that were carried out. `sent` says whether all of
    /// them could be sent; if not, what is waited for stays. `now` is the time in nanoseconds.
    pub fn conclude(&mut self, sent: bool, snap: Option<Snap>, now: u64)
        requires
            sent && snap is Some ==> now + SNAP_TIMEOUT <= u64::MAX,
        ensures
            final(self)@ == (Desk {
                pending: old(self)@.concluded(
                    sent,
                    match snap {
                        Some(snap) => Some(snap@),
                        None => None,
                    },
                    now,
                ),
                ..old(self)@
            }),
    {
        if sent {
            if let Some(snap) = snap {
                self.arm(snap, now);
            }
        }
    }

    /// The workspace of the snap that is waited for.
    pub fn pending_workspace(&self) -> (r: Option<u64>)
        ensures
            r == (match self@.pending {
                Some(pending) => Some(pending.snap.ws),
                None => None,
            }),
    {
        match &self.pending_snap {
            Some(pending) => Some(pending.snap.ws),
            None => None,
        }
    }

    /// Once the windows that are waited for have taken on their widths, brings the view to the start
    /// of their screenful. `now` is the time in nanoseconds, and `focused` is the tiled window of the
    /// workspace that has the focus.
    pub fn snap_if_settled(&mut self, now: u64, focused: Option<u64>) -> (r: Vec<Effect>)
        ensures
            r@ == old(self)@.snapping(now, focused).1,
            final(self)@ == (Desk { pending: old(self)@.snapping(now, focused).0, ..old(self)@ }),
    {
        let mut effects: Vec<Effect> = Vec::new();
        let pending = match self.pending_snap.take() {
            Some(pending) => pending,
            None => {
                return effects;
            },
        };
        let ghost desk = old(self)@;
        assert(self@ == Desk { pending: None, ..desk });
        if now > pending.expires || !self.all_known(&pending.snap.ids) {
            assert(self@.all_present(pending.snap.ids@) == desk.all_present(pending.snap.ids@));
            return effects;
        }
        let resized = self.all_resized(&pending.snap);
        proof {
            assert forall|w: WindowInfo, n: nat| self@.has_share(w, n) == desk.has_share(w, n) by {}
            assert(resized == desk.all_resized(pending.snap@));
        }
        match focused {
            Some(focus) if resized => {
                let leftmost = pending.snap.leftmost;
                effects.push(Effect::Log(Note::Snapping));
                effects.push(Effect::Do(Action::FocusWindow { id: leftmost }));
                if focus != leftmost {
                    effects.push(Effect::Do(Action::FocusWindow { id: focus }));
                }
                assert(effects@ =~= desk.snapping(now, focused).1);
            },
            _ => {
                self.pending_snap = Some(pending);
            },
        }
        effects
    }

    /// Once the windows that are waited for have taken on their widths, brings the view to the start
    /// of their screenful. `now` is the time in nanoseconds.
    pub fn check_pending_snap(&mut self, now: u64) -> (r: Vec<Effect>)
        ensures
            match old(self)@.pending {
                Some(pending) => exists|focused: Option<u64>| #[trigger]
                    old(self)@.may_be_focused_on(pending.snap.ws, focused) && r@ == old(
                        self,
                    )@.snapping(now, focused).1 && final(self)@ == (Desk {
                        pending: old(self)@.snapping(now, focused).0,
                        ..old(self)@
                    }),
                None => r@ == Seq::<Effect>::empty() && final(self)@ == old(self)@,
            },
    {
        match self.pending_workspace() {
            Some(ws) => {
                let focused = self.focused_on(ws);
                self.snap_if_settled(now, focused)
            },
            None => Vec::new(),
        }
    }
}

/// Whether a name is among the given ones.
fn has_name(names: &Vec<String>, name: &String) -> (r: bool)
    ensures
        r <==> exists|k: int| 0 <= k < names.len() && (#[trigger] names@[k])@ == name@,
{
    let mut i: usize = 0;
    while i < names.len()
        invariant
            i <= names.len(),
            forall|k: int| 0 <= k < i ==> (#[trigger] names@[k])@ != name@,
        decreases names.len() - i,
    {
        if names[i] == *name {
            assert(names@[i as int]@ == name@);
            return true;
        }
        i = i + 1;
    }
    false
}

} // verus!
