//! What `niri_ipc` keeps track of, and what it is trusted to do.
//!
//! The compositor reports every change as an event, and `niri_ipc` folds the events into a state.
//! The state, the events and the windows in them stay the crate's own; what they hold is spoken of
//! here as plain values.
use crate::window::{Placement, WindowInfo};
use niri_ipc::state::{EventStreamState, EventStreamStatePart};
use vstd::prelude::*;

verus! {

/// `niri_ipc::Event`: something that the compositor reports.
#[verifier::external_type_specification]
#[verifier::external_body]
pub struct ExEvent(niri_ipc::Event);

/// `niri_ipc::Window`: a window as the compositor describes it.
#[verifier::external_type_specification]
#[verifier::external_body]
pub struct ExWindow(niri_ipc::Window);

/// `niri_ipc::state::EventStreamState`: what the events so far have told.
#[verifier::external_type_specification]
#[verifier::external_body]
pub struct ExEventStreamState(niri_ipc::state::EventStreamState);

/// An event, as far as it bears on the state. A workspace is its id and its output, a cast its id.
pub enum News {
    WorkspacesChanged { workspaces: Seq<(u64, Option<Seq<char>>)> },
    WorkspaceActivated { id: u64 },
    WorkspaceActiveWindowChanged { workspace_id: u64 },
    WindowsChanged { windows: Seq<WindowInfo> },
    WindowOpenedOrChanged { window: WindowInfo },
    WindowClosed { id: u64 },
    WindowFocusChanged { focused: Option<u64> },
    WindowLayoutsChanged { changes: Seq<(u64, Placement)> },
    KeyboardLayoutsChanged,
    KeyboardLayoutSwitched,
    CastsChanged { casts: Seq<u64> },
    CastStartedOrChanged { cast: u64 },
    CastStopped { cast: u64 },
    Other,
}

/// What a window of `niri_ipc` holds.
pub uninterp spec fn window_of(window: niri_ipc::Window) -> WindowInfo;

/// What an event of `niri_ipc` holds.
pub uninterp spec fn news_of(event: niri_ipc::Event) -> News;

/// The windows of a state, by id.
pub uninterp spec fn windows_of(state: niri_ipc::state::EventStreamState) -> Map<u64, WindowInfo>;

/// The outputs that the workspaces of a state are on, by workspace id.
pub uninterp spec fn outputs_of(state: niri_ipc::state::EventStreamState) -> Map<u64, Option<Seq<char>>>;

/// Whether a state knows the keyboard layouts.
pub uninterp spec fn layouts_known(state: niri_ipc::state::EventStreamState) -> bool;

/// The ids of the screencasts of a state.
pub uninterp spec fn casts_of(state: niri_ipc::state::EventStreamState) -> Set<u64>;

/// Windows keyed by their ids. Of two with the same id the later one stays.
pub open spec fn keyed(windows: Seq<WindowInfo>) -> Map<u64, WindowInfo>
    decreases windows.len(),
{
    if windows.len() == 0 {
        Map::empty()
    } else {
        keyed(windows.drop_last()).insert(windows.last().id, windows.last())
    }
}

/// Outputs keyed by the ids of their workspaces. Of two with the same id the later one stays.
pub open spec fn keyed_outputs(workspaces: Seq<(u64, Option<Seq<char>>)>) -> Map<
    u64,
    Option<Seq<char>>,
>
    decreases workspaces.len(),
{
    if workspaces.len() == 0 {
        Map::empty()
    } else {
        keyed_outputs(workspaces.drop_last()).insert(workspaces.last().0, workspaces.last().1)
    }
}

/// Windows after some of them were placed anew, one after the other.
pub open spec fn replaced(windows: Map<u64, WindowInfo>, changes: Seq<(u64, Placement)>) -> Map<
    u64,
    WindowInfo,
>
    decreases changes.len(),
{
    if changes.len() == 0 {
        windows
    } else {
        let before = replaced(windows, changes.drop_last());
        let (id, placement) = changes.last();
        before.insert(
            id,
            WindowInfo {
                position: placement.position,
                tile_width: placement.tile_width,
                ..before[id]
            },
        )
    }
}

/// The windows once an event has been taken in.
pub open spec fn windows_after(windows: Map<u64, WindowInfo>, news: News) -> Map<u64, WindowInfo> {
    match news {
        News::WindowsChanged { windows: all } => keyed(all),
        News::WindowOpenedOrChanged { window } => {
            let all = windows.insert(window.id, window);
            if window.is_focused {
                all.map_values(
                    |w: WindowInfo|
                        if w.id == window.id {
                            w
                        } else {
                            WindowInfo { is_focused: false, ..w }
                        },
                )
            } else {
                all
            }
        },
        News::WindowClosed { id } => windows.remove(id),
        News::WindowFocusChanged { focused } => windows.map_values(
            |w: WindowInfo| WindowInfo { is_focused: focused == Some(w.id), ..w },
        ),
        News::WindowLayoutsChanged { changes } => replaced(windows, changes),
        _ => windows,
    }
}

/// What a state knows.
pub struct Known {
    /// The windows, by id.
    pub windows: Map<u64, WindowInfo>,
    /// The outputs that the workspaces are on, by workspace id.
    pub outputs: Map<u64, Option<Seq<char>>>,
    /// Whether the keyboard layouts are known.
    pub layouts: bool,
    /// The ids of the screencasts.
    pub casts: Set<u64>,
}

/// What a state of `niri_ipc` knows.
pub open spec fn known(state: niri_ipc::state::EventStreamState) -> Known {
    Known {
        windows: windows_of(state),
        outputs: outputs_of(state),
        layouts: layouts_known(state),
        casts: casts_of(state),
    }
}

impl Known {
    /// Whether all that an event refers to is known.
    pub open spec fn accepts(self, news: News) -> bool {
        match news {
            News::WorkspaceActivated { id } => self.outputs.contains_key(id),
            News::WorkspaceActiveWindowChanged { workspace_id } => self.outputs.contains_key(
                workspace_id,
            ),
            News::WindowClosed { id } => self.windows.contains_key(id),
            News::WindowLayoutsChanged { changes } => forall|i: int|
                0 <= i < changes.len() ==> self.windows.contains_key((#[trigger] changes[i]).0),
            News::KeyboardLayoutSwitched => self.layouts,
            News::CastStopped { cast } => self.casts.contains(cast),
            _ => true,
        }
    }

    /// What is known once an event has been taken in.
    pub open spec fn after(self, news: News) -> Known {
        Known {
            windows: windows_after(self.windows, news),
            outputs: match news {
                News::WorkspacesChanged { workspaces } => keyed_outputs(workspaces),
                _ => self.outputs,
            },
            layouts: self.layouts || news is KeyboardLayoutsChanged,
            casts: match news {
                News::CastsChanged { casts } => casts.to_set(),
                News::CastStartedOrChanged { cast } => self.casts.insert(cast),
                News::CastStopped { cast } => self.casts.remove(cast),
                _ => self.casts,
            },
        }
    }
}

/// `EventStreamState::default`: a state that knows no window, workspace, keyboard layout or cast.
#[verifier::external_body]
pub(crate) fn new_state() -> (state: EventStreamState)
    ensures
        windows_of(state).is_empty(),
        outputs_of(state).is_empty(),
        !layouts_known(state),
        casts_of(state) == Set::<u64>::empty(),
{
    EventStreamState::default()
}

/// `EventStreamState::apply`: takes an event in, after which the state knows what [`Known::after`]
/// says. It panics on an event that refers to a window, a workspace, keyboard layouts or a cast that
/// the state does not know.
#[verifier::external_body]
pub(crate) fn apply(state: &mut EventStreamState, event: niri_ipc::Event)
    requires
        known(*old(state)).accepts(news_of(event)),
    ensures
        known(*final(state)) == known(*old(state)).after(news_of(event)),
{
    let _ = state.apply(event);
}

/// An event, as far as the rules act on it and as far as it refers to what must be known.
pub enum Report<'a> {
    /// The workspaces were reported anew.
    Workspaces,
    /// Something happened on this workspace.
    Workspace(u64),
    /// This window was opened or changed.
    Opened(&'a niri_ipc::Window),
    /// The window with this id was closed.
    Closed(u64),
    /// The windows with these ids were placed anew.
    Placed(Vec<u64>),
    /// Another of the known keyboard layouts was chosen.
    Switched,
    /// The screencast with this id stopped.
    Stopped(u64),
    Other,
}

/// Whether a report says what an event holds.
pub open spec fn reports(report: Report<'_>, news: News) -> bool {
    match news {
        News::WorkspacesChanged { .. } => report is Workspaces,
        News::WorkspaceActivated { id } => report == Report::Workspace(id),
        News::WorkspaceActiveWindowChanged { workspace_id } => report == Report::Workspace(
            workspace_id,
        ),
        News::WindowOpenedOrChanged { window } => report matches Report::Opened(raw) && window_of(
            *raw,
        ) == window,
        News::WindowClosed { id } => report == Report::Closed(id),
        News::WindowLayoutsChanged { changes } => report matches Report::Placed(ids) && ids@
            == changes.map_values(|change: (u64, Placement)| change.0),
        News::KeyboardLayoutSwitched => report is Switched,
        News::CastStopped { cast } => report == Report::Stopped(cast),
        _ => report is Other,
    }
}

/// Tells the variants of `niri_ipc::Event` apart and picks the fields that matter: what comes back is
/// what the event holds, as far as [`Report`] goes.
#[verifier::external_body]
pub(crate) fn read_event(event: &niri_ipc::Event) -> (report: Report<'_>)
    ensures
        reports(report, news_of(*event)),
{
    match event {
        niri_ipc::Event::WorkspacesChanged { .. } => Report::Workspaces,
        niri_ipc::Event::WorkspaceActivated { id, .. } => Report::Workspace(*id),
        niri_ipc::Event::WorkspaceActiveWindowChanged { workspace_id, .. } => Report::Workspace(*workspace_id),
        niri_ipc::Event::WindowOpenedOrChanged { window } => Report::Opened(window),
        niri_ipc::Event::WindowClosed { id } => Report::Closed(*id),
        niri_ipc::Event::WindowLayoutsChanged { changes } => Report::Placed(changes.iter().map(|c| c.0).collect()),
        niri_ipc::Event::KeyboardLayoutSwitched { .. } => Report::Switched,
        niri_ipc::Event::CastStopped { stream_id } => Report::Stopped(*stream_id),
        _ => Report::Other,
    }
}

/// Picks the fields of `niri_ipc::Window` that the rules read.
#[verifier::external_body]
pub(crate) fn read_window(window: &niri_ipc::Window) -> (r: WindowInfo)
    ensures
        r == window_of(*window),
{
    WindowInfo {
        id: window.id,
        workspace_id: window.workspace_id,
        is_focused: window.is_focused,
        is_floating: window.is_floating,
        position: window.layout.pos_in_scrolling_layout,
        tile_width: window.layout.tile_size.0.to_bits(),
    }
}

/// `HashMap::get` on the windows of a state: the window with the given id, if there is one.
#[verifier::external_body]
pub(crate) fn find_window(state: &EventStreamState, id: u64) -> (r: Option<&niri_ipc::Window>)
    ensures
        match r {
            Some(window) => windows_of(*state).contains_key(id) && window_of(*window) == windows_of(
                *state,
            )[id],
            None => !windows_of(*state).contains_key(id),
        },
{
    state.windows.windows.get(&id)
}

/// Whether `list` holds the values of `windows`, each key's once, in the order of `ids`.
pub open spec fn lists(ids: Seq<u64>, windows: Map<u64, WindowInfo>, list: Seq<&niri_ipc::Window>) -> bool {
    &&& ids.no_duplicates()
    &&& ids.to_set() == windows.dom()
    &&& ids.len() == list.len()
    &&& forall|i: int| 0 <= i < ids.len() ==> window_of(*#[trigger] list[i]) == windows[ids[i]]
}

/// `HashMap::values` on the windows of a state: each window once, in no particular order.
#[verifier::external_body]
pub(crate) fn all_windows(state: &EventStreamState) -> (r: Vec<&niri_ipc::Window>)
    ensures
        exists|ids: Seq<u64>| lists(ids, windows_of(*state), r@),
{
    state.windows.windows.values().collect()
}

/// `HashMap::get` on the workspaces of a state, reduced to the workspace's output.
#[verifier::external_body]
pub(crate) fn find_output(state: &EventStreamState, workspace: u64) -> (r: Option<Option<String>>)
    ensures
        match r {
            Some(output) => outputs_of(*state).contains_key(workspace) && outputs_of(
                *state,
            )[workspace] == (match output {
                Some(name) => Some(name@),
                None => None,
            }),
            None => !outputs_of(*state).contains_key(workspace),
        },
{
    state.workspaces.workspaces.get(&workspace).map(|ws| ws.output.clone())
}

/// `Option::is_some` on the keyboard layouts of a state: whether they are known.
#[verifier::external_body]
pub(crate) fn knows_layouts(state: &EventStreamState) -> (r: bool)
    ensures
        r == layouts_known(*state),
{
    state.keyboard_layouts.keyboard_layouts.is_some()
}

/// `HashMap::contains_key` on the screencasts of a state: whether there is one with the given id.
#[verifier::external_body]
pub(crate) fn knows_cast(state: &EventStreamState, cast: u64) -> (r: bool)
    ensures
        r == casts_of(*state).contains(cast),
{
    state.casts.casts.contains_key(&cast)
}

} // verus!
