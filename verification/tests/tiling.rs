use cleave::cleave::Cleave;
use cleave::effect::{tasks, Action, Arrival, Effect, Note, Settlement, Snap, Task, Trigger};
use cleave::fraction::NOT_A_NUMBER;
use cleave::settle::stacking_target;
use cleave::window::WindowInfo;
use niri_ipc::{
    Cast, CastKind, CastTarget, Event, KeyboardLayouts, Timestamp, Window, WindowLayout, Workspace,
};

const FULL: f64 = 1200.0;
const HALF: f64 = 600.0;
const THIRD: f64 = 400.0;
const SECOND: u64 = 1_000_000_000;

fn layout(position: Option<(usize, usize)>, width: f64) -> WindowLayout {
    WindowLayout {
        pos_in_scrolling_layout: position,
        tile_size: (width, 700.0),
        window_size: (1, 1),
        tile_pos_in_workspace_view: None,
        window_offset_in_tile: (0.0, 0.0),
    }
}

fn raw(id: u64, workspace_id: Option<u64>, position: Option<(usize, usize)>, width: f64) -> Window {
    Window {
        id,
        title: None,
        app_id: None,
        pid: None,
        workspace_id,
        is_focused: false,
        is_floating: false,
        is_urgent: false,
        layout: layout(position, width),
        focus_timestamp: None,
    }
}

/// A window on workspace 1.
fn tile(id: u64, col: usize, place: usize, width: f64) -> WindowInfo {
    WindowInfo {
        id,
        workspace_id: Some(1),
        is_focused: false,
        is_floating: false,
        position: Some((col, place)),
        tile_width: width.to_bits(),
    }
}

fn workspace(id: u64, output: Option<&str>) -> Workspace {
    Workspace {
        id,
        idx: 1,
        name: None,
        output: output.map(|name| name.to_string()),
        is_urgent: false,
        is_active: true,
        is_focused: true,
        active_window_id: None,
    }
}

/// A tiler that knows three workspaces: one on a monitor that is 1200 wide, one on an output that is
/// off, and one on no output.
fn tiler(max_tiles: usize) -> Cleave {
    let mut tiler = Cleave::new(max_tiles);
    tiler.apply(Event::WorkspacesChanged {
        workspaces: vec![workspace(1, Some("DP-1")), workspace(2, Some("HDMI-1")), workspace(3, None)],
    });
    tiler.refresh_monitors(Some(vec![
        ("DP-1".to_string(), Some(1200)),
        ("HDMI-1".to_string(), None),
    ]));
    tiler
}

fn open(tiler: &mut Cleave, window: Window) {
    tiler.apply(Event::WindowOpenedOrChanged { window });
}

/// A tiler in which window `id` has the focus.
fn tiler_focused_on(max_tiles: usize, id: u64) -> Cleave {
    let mut tiler = tiler(max_tiles);
    let mut window = raw(id, Some(1), Some((1, 1)), FULL);
    window.is_focused = true;
    open(&mut tiler, window);
    tiler
}

fn focus(id: u64) -> Effect {
    Effect::Do(Action::FocusWindow { id })
}

fn maximize() -> Effect {
    Effect::Do(Action::MaximizeColumn)
}

fn to_index(index: usize) -> Effect {
    Effect::Do(Action::MoveColumnToIndex { index })
}

fn left(id: u64) -> Effect {
    Effect::Do(Action::ConsumeOrExpelWindowLeft { id })
}

fn right(id: u64) -> Effect {
    Effect::Do(Action::ConsumeOrExpelWindowRight { id })
}

fn log(note: Note) -> Effect {
    Effect::Log(note)
}

fn only(effects: Vec<Effect>) -> Settlement {
    Settlement { effects, snap: None }
}

fn nothing() -> Settlement {
    only(vec![])
}

/// The steps that make windows of workspace 1 one `columns`th wide.
fn sizing(ids: &[u64], columns: usize) -> Vec<Effect> {
    let mut effects = vec![log(Note::SizingColumns { ws: 1, columns })];
    for &id in ids {
        effects.push(Effect::Do(Action::SetWindowWidth { id, columns }));
    }
    effects
}

fn snap(ids: &[u64], columns: usize) -> Option<Snap> {
    Some(Snap { ws: 1, ids: ids.to_vec(), leftmost: ids[0], columns })
}

/// Six windows in three columns of two, a third wide each.
fn screenful() -> Vec<WindowInfo> {
    vec![
        tile(1, 1, 1, THIRD),
        tile(2, 1, 2, THIRD),
        tile(3, 2, 1, THIRD),
        tile(4, 2, 2, THIRD),
        tile(5, 3, 1, THIRD),
        tile(6, 3, 2, THIRD),
    ]
}

fn with(mut windows: Vec<WindowInfo>, more: &[WindowInfo]) -> Vec<WindowInfo> {
    windows.extend_from_slice(more);
    windows
}

#[test]
fn the_first_window_is_maximized() {
    let tiler = tiler(6);
    assert_eq!(
        tiler.settle_arrival(7, 1, vec![tile(7, 1, 1, HALF)]),
        Arrival::Settled(only(vec![log(Note::MaximizingSolo { id: 7 }), maximize()])),
    );
    assert_eq!(
        tiler.settle_arrival(7, 1, vec![tile(7, 1, 1, FULL)]),
        Arrival::Settled(nothing()),
    );
}

#[test]
fn the_focus_goes_back_to_where_it_was() {
    let tiler = tiler_focused_on(6, 9);
    assert_eq!(tiler.focused_id(), Some(9));
    assert_eq!(
        tiler.settle_arrival(7, 1, vec![tile(7, 1, 1, HALF)]),
        Arrival::Settled(only(vec![
            log(Note::MaximizingSolo { id: 7 }),
            focus(7),
            maximize(),
            focus(9),
        ])),
    );
    assert_eq!(
        tiler.settle_arrival(9, 1, vec![tile(9, 1, 1, HALF)]),
        Arrival::Settled(only(vec![log(Note::MaximizingSolo { id: 9 }), maximize()])),
    );
}

#[test]
fn the_second_window_splits_the_screen() {
    let tiler = tiler_focused_on(6, 2);
    assert_eq!(
        tiler.settle_arrival(2, 1, vec![tile(2, 2, 1, HALF), tile(1, 1, 1, FULL)]),
        Arrival::Settled(only(vec![
            log(Note::Collapsing { incumbent: 1, id: 2 }),
            focus(1),
            maximize(),
            focus(2),
        ])),
    );
    assert_eq!(
        tiler.settle_arrival(2, 1, vec![tile(2, 2, 1, HALF), tile(1, 1, 1, HALF)]),
        Arrival::Settled(nothing()),
    );
    assert_eq!(
        tiler.settle_arrival(2, 1, vec![tile(2, 2, 1, FULL), tile(1, 1, 1, FULL)]),
        Arrival::Settled(nothing()),
    );
}

#[test]
fn the_third_window_is_stacked_onto_the_second() {
    let tiler = tiler(6);
    assert_eq!(
        tiler.settle_arrival(3, 1, vec![tile(1, 1, 1, HALF), tile(2, 2, 1, HALF), tile(3, 3, 1, HALF)]),
        Arrival::Settled(only(vec![log(Note::Stacking { id: 3, target: 2 }), left(3)])),
    );
}

#[test]
fn of_two_equally_near_columns_the_right_one_is_chosen() {
    let tiler = tiler(6);
    assert_eq!(
        tiler.settle_arrival(3, 1, vec![tile(1, 1, 1, HALF), tile(3, 2, 1, HALF), tile(2, 3, 1, HALF)]),
        Arrival::Settled(only(vec![log(Note::Stacking { id: 3, target: 3 }), right(3)])),
    );
}

#[test]
fn the_fourth_window_is_stacked_onto_the_one_that_is_alone() {
    let others = vec![tile(1, 1, 1, HALF), tile(2, 2, 1, HALF), tile(3, 2, 2, HALF)];
    let tiler = tiler_focused_on(6, 3);
    assert_eq!(
        tiler.settle_arrival(4, 1, with(others.clone(), &[tile(4, 3, 1, HALF)])),
        Arrival::Settled(only(vec![
            log(Note::Stacking { id: 4, target: 1 }),
            focus(4),
            to_index(2),
            left(4),
            focus(3),
        ])),
    );
    let mirrored = vec![tile(4, 1, 1, HALF), tile(1, 2, 1, HALF), tile(2, 2, 2, HALF), tile(3, 3, 1, HALF)];
    assert_eq!(
        tiler.settle_arrival(4, 1, mirrored),
        Arrival::Settled(only(vec![
            log(Note::Stacking { id: 4, target: 3 }),
            focus(4),
            to_index(2),
            right(4),
            focus(3),
        ])),
    );
}

#[test]
fn the_fifth_window_goes_to_the_end_and_all_get_a_third() {
    let others = vec![
        tile(1, 1, 1, HALF),
        tile(2, 1, 2, HALF),
        tile(3, 3, 1, HALF),
        tile(4, 3, 2, HALF),
    ];
    let tiler = tiler(6);
    let mut effects = vec![log(Note::MovingToEnd { id: 5 }), to_index(3)];
    effects.extend(sizing(&[1, 2, 5, 3, 4], 3));
    assert_eq!(
        tiler.settle_arrival(5, 1, with(others, &[tile(5, 2, 1, HALF)])),
        Arrival::Settled(Settlement { effects, snap: snap(&[1, 2, 5, 3, 4], 3) }),
    );
    let in_place = vec![
        tile(1, 1, 1, HALF),
        tile(2, 1, 2, HALF),
        tile(3, 2, 1, HALF),
        tile(4, 2, 2, HALF),
        tile(5, 3, 1, HALF),
    ];
    assert_eq!(
        tiler.settle_arrival(5, 1, in_place),
        Arrival::Settled(Settlement {
            effects: sizing(&[1, 2, 3, 4, 5], 3),
            snap: snap(&[1, 2, 3, 4, 5], 3),
        }),
    );
}

#[test]
fn the_sixth_window_completes_the_screenful() {
    let others: Vec<WindowInfo> = screenful().into_iter().take(5).collect();
    let mut effects = vec![log(Note::Stacking { id: 6, target: 3 }), left(6)];
    effects.extend(sizing(&[1, 2, 3, 4, 5, 6], 3));
    assert_eq!(
        tiler(6).settle_arrival(6, 1, with(others, &[tile(6, 4, 1, THIRD)])),
        Arrival::Settled(Settlement { effects, snap: snap(&[1, 2, 3, 4, 5, 6], 3) }),
    );
}

#[test]
fn the_seventh_window_starts_a_screenful() {
    assert_eq!(
        tiler(8).settle_arrival(7, 1, with(screenful(), &[tile(7, 4, 1, THIRD)])),
        Arrival::Settled(only(vec![log(Note::MaximizingSolo { id: 7 }), maximize()])),
    );
}

#[test]
fn the_eighth_window_splits_the_second_screenful() {
    assert_eq!(
        tiler(8).settle_arrival(8, 1, with(screenful(), &[tile(7, 4, 1, FULL), tile(8, 5, 1, HALF)])),
        Arrival::Settled(only(vec![log(Note::Collapsing { incumbent: 7, id: 8 }), maximize()])),
    );
}

#[test]
fn a_window_that_opens_amid_a_full_row_goes_to_its_end_first() {
    let tiler = tiler(8);
    let mut row = screenful();
    for window in row.iter_mut().skip(4) {
        window.position = window.position.map(|(_, place)| (4, place));
    }
    assert_eq!(
        tiler.settle_arrival(7, 1, with(row, &[tile(7, 3, 1, HALF)])),
        Arrival::Moved { effects: vec![log(Note::MovingToEnd { id: 7 }), to_index(4)], start: 6 },
    );
    assert_eq!(
        tiler.resettle_arrival(7, 1, 6, with(screenful(), &[tile(7, 4, 1, HALF)])),
        only(vec![log(Note::MaximizingSolo { id: 7 }), maximize()]),
    );
    assert_eq!(
        tiler.resettle_arrival(7, 1, 6, screenful()),
        nothing(),
    );
    let unplaced = WindowInfo { position: None, ..tile(7, 1, 1, HALF) };
    assert_eq!(tiler.resettle_arrival(7, 1, 6, vec![unplaced]), nothing());
}

#[test]
fn an_eleventh_window_goes_behind_the_columns_of_both_screenfuls() {
    let more = [
        tile(7, 4, 1, HALF),
        tile(8, 4, 2, HALF),
        tile(9, 5, 1, HALF),
        tile(10, 5, 2, HALF),
        tile(11, 6, 1, HALF),
    ];
    let ids = [7, 8, 9, 10, 11];
    assert_eq!(
        tiler(12).settle_arrival(11, 1, with(screenful(), &more)),
        Arrival::Settled(Settlement { effects: sizing(&ids, 3), snap: snap(&ids, 3) }),
    );
}

#[test]
fn a_window_beyond_the_limit_is_left_alone() {
    let tiler = tiler(2);
    let three = vec![tile(1, 1, 1, HALF), tile(2, 2, 1, HALF), tile(3, 3, 1, HALF)];
    assert_eq!(tiler.settle_arrival(3, 1, three.clone()), Arrival::Settled(nothing()));
    assert_eq!(tiler.settle_departure(1, three), nothing());
    assert_eq!(tiler.settle_arrival(3, 1, vec![]), Arrival::Settled(nothing()));
    assert_eq!(tiler.settle_departure(1, vec![]), nothing());
}

#[test]
fn while_an_earlier_screenful_is_not_intact_nothing_is_done() {
    let tiler = tiler(8);
    let mut too_wide = screenful();
    too_wide[2].tile_width = HALF.to_bits();
    assert!(!tiler.earlier_groups_intact(&too_wide));
    assert_eq!(
        tiler.settle_arrival(7, 1, with(too_wide.clone(), &[tile(7, 4, 1, HALF)])),
        Arrival::Settled(nothing()),
    );
    assert_eq!(tiler.settle_departure(1, with(too_wide, &[tile(7, 4, 1, HALF)])), nothing());
    let mut apart = screenful();
    apart[5].position = Some((4, 1));
    assert!(!tiler.earlier_groups_intact(&apart));
    assert!(tiler.earlier_groups_intact(&screenful()));
    assert!(tiler.earlier_groups_intact(&[]));
    assert_eq!(
        tiler.settle_arrival(7, 1, with(apart, &[tile(7, 5, 1, HALF)])),
        Arrival::Settled(nothing()),
    );
}

#[test]
fn a_maximized_window_in_a_larger_screenful_is_respected() {
    let tiler = tiler(6);
    let group = vec![tile(1, 1, 1, FULL), tile(2, 2, 1, HALF), tile(3, 3, 1, HALF)];
    assert_eq!(tiler.settle_arrival(3, 1, group), Arrival::Settled(nothing()));
    let group = vec![tile(1, 1, 1, HALF), tile(2, 2, 1, HALF), tile(3, 3, 1, FULL)];
    assert_eq!(tiler.settle_arrival(3, 1, group), Arrival::Settled(nothing()));
}

#[test]
fn a_window_that_opens_into_a_column_stays_there() {
    let group = vec![tile(1, 1, 1, HALF), tile(2, 2, 1, HALF), tile(3, 2, 2, HALF)];
    assert_eq!(tiler(6).settle_arrival(3, 1, group), Arrival::Settled(nothing()));
}

#[test]
fn a_window_that_is_not_listed_is_ignored() {
    let group = vec![tile(1, 1, 1, HALF), tile(2, 2, 1, HALF)];
    assert_eq!(tiler(6).settle_arrival(9, 1, group), Arrival::Settled(nothing()));
    let row = with(screenful(), &[tile(7, 4, 1, HALF)]);
    assert_eq!(tiler(8).settle_arrival(9, 1, row), Arrival::Settled(nothing()));
}

#[test]
fn a_window_without_a_position_stops_the_rules() {
    let unplaced = WindowInfo { position: None, ..tile(2, 1, 1, HALF) };
    let group = vec![tile(1, 1, 1, HALF), unplaced];
    assert_eq!(tiler(6).settle_arrival(1, 1, group.clone()), Arrival::Settled(nothing()));
    assert_eq!(tiler(6).settle_departure(1, group), nothing());
}

#[test]
fn a_window_left_alone_is_maximized() {
    let tiler = tiler_focused_on(6, 1);
    assert_eq!(
        tiler.settle_departure(1, vec![tile(1, 2, 1, HALF)]),
        only(vec![log(Note::MaximizingSolo { id: 1 }), maximize()]),
    );
    assert_eq!(tiler.settle_departure(1, vec![tile(1, 2, 1, FULL)]), nothing());
}

#[test]
fn the_window_left_over_in_the_second_screenful_is_maximized() {
    let tiler = tiler(8);
    assert_eq!(
        tiler.settle_departure(1, with(screenful(), &[tile(7, 4, 1, HALF)])),
        only(vec![log(Note::MaximizingSolo { id: 7 }), maximize()]),
    );
}

#[test]
fn the_last_window_in_a_column_of_an_earlier_screenful_is_left_alone() {
    // Window 7 sits below windows 5 and 6.
    let tiler = tiler(8);
    assert_eq!(tiler.settle_departure(1, with(screenful(), &[tile(7, 3, 3, THIRD)])), nothing());
}

#[test]
fn windows_that_remain_share_the_width_anew() {
    let tiler = tiler(6);
    let four = vec![
        tile(1, 1, 1, THIRD),
        tile(2, 1, 2, THIRD),
        tile(3, 2, 1, THIRD),
        tile(4, 2, 2, THIRD),
    ];
    assert_eq!(
        tiler.settle_departure(1, four),
        Settlement { effects: sizing(&[1, 2, 3, 4], 2), snap: snap(&[1, 2, 3, 4], 2) },
    );
    let stacked = vec![tile(2, 1, 2, HALF), tile(1, 1, 1, HALF)];
    assert_eq!(
        tiler.settle_departure(1, stacked),
        Settlement { effects: sizing(&[1, 2], 1), snap: snap(&[1, 2], 1) },
    );
}

#[test]
fn windows_with_the_shares_they_should_have_stay() {
    let tiler = tiler(6);
    let five: Vec<WindowInfo> = screenful().into_iter().take(5).collect();
    assert_eq!(tiler.settle_departure(1, five), nothing());
    assert_eq!(tiler.settle_departure(1, vec![tile(1, 1, 1, HALF), tile(2, 2, 1, HALF)]), nothing());
    // Neither equal shares nor anything known of the width.
    assert_eq!(tiler.settle_departure(1, vec![tile(1, 1, 1, HALF), tile(2, 2, 1, THIRD)]), nothing());
    let nowhere = |id: u64| WindowInfo { workspace_id: Some(3), ..tile(id, 1, id as usize, HALF) };
    assert_eq!(tiler.settle_departure(3, vec![nowhere(1), nowhere(2)]), nothing());
}

#[test]
fn the_largest_common_share_is_found() {
    let tiler = tiler(6);
    assert_eq!(tiler.largest_common_share(&[tile(1, 1, 1, HALF), tile(2, 2, 1, 580.0)]), Some(2));
    assert_eq!(tiler.largest_common_share(&[tile(1, 1, 1, 150.0)]), Some(7));
    assert_eq!(tiler.largest_common_share(&[tile(1, 1, 1, 110.0)]), Some(8));
    assert_eq!(tiler.largest_common_share(&[tile(1, 1, 1, 100.0)]), None);
    assert_eq!(tiler.largest_common_share(&[tile(1, 1, 1, FULL)]), None);
    assert_eq!(tiler.largest_common_share(&[tile(1, 1, 1, HALF), tile(2, 2, 1, THIRD)]), None);
}

#[test]
fn five_equal_columns_may_be_taken_for_four() {
    // Each is 0.22 of the width, which is within 0.04 of one quarter as well as of one fifth.
    let group: Vec<WindowInfo> = (1..=5).map(|id| tile(id, id as usize, 1, 264.0)).collect();
    let ids = [1, 2, 3, 4, 5];
    assert_eq!(
        tiler(6).settle_departure(1, group),
        Settlement { effects: sizing(&ids, 5), snap: snap(&ids, 5) },
    );
}

#[test]
fn the_nearest_single_column_is_the_target() {
    let others = [tile(1, 1, 1, HALF), tile(2, 3, 1, HALF), tile(3, 3, 2, HALF), tile(4, 6, 1, HALF)];
    assert_eq!(stacking_target(&others, 2), Some(1));
    assert_eq!(stacking_target(&others, 5), Some(6));
    assert_eq!(stacking_target(&others, 4), Some(6));
    assert_eq!(stacking_target(&others[1..3], 4), None);
    assert_eq!(stacking_target(&[tile(1, 1, 1, HALF), tile(2, 5, 1, HALF)], 3), Some(5));
}

#[test]
fn widths_are_fractions_of_the_monitor_of_the_workspace() {
    let mut tiler = tiler(6);
    let window = tile(1, 1, 1, HALF);
    assert_eq!(tiler.width_fraction(&window), Some(0.5f64.to_bits()));
    assert!(tiler.has_share(&window, 2));
    assert!(!tiler.is_maximized(&window));
    assert!(tiler.is_maximized(&tile(1, 1, 1, 961.0)));
    assert!(!tiler.is_maximized(&tile(1, 1, 1, 960.0)));
    for workspace_id in [Some(2), Some(3), Some(4), None] {
        let elsewhere = WindowInfo { workspace_id, ..tile(1, 1, 1, FULL) };
        assert_eq!(tiler.width_fraction(&elsewhere), None);
        assert!(!tiler.is_maximized(&elsewhere));
        assert!(!tiler.has_share(&elsewhere, 1));
    }
    tiler.refresh_monitors(None);
    assert_eq!(tiler.width_fraction(&window), Some(0.5f64.to_bits()));
    tiler.refresh_monitors(Some(vec![("DP-1".to_string(), Some(600)), ("HDMI-1".to_string(), Some(1200))]));
    assert_eq!(tiler.width_fraction(&window), Some(1f64.to_bits()));
    let elsewhere = WindowInfo { workspace_id: Some(2), ..window };
    assert_eq!(tiler.width_fraction(&elsewhere), Some(0.5f64.to_bits()));
    tiler.refresh_monitors(Some(vec![]));
    assert_eq!(tiler.width_fraction(&window), None);
}

#[test]
fn fractions_are_quotients_however_large() {
    let mut tiler = tiler(6);
    let fraction = |tiler: &Cleave, width: f64| tiler.width_fraction(&tile(1, 1, 1, width));
    assert_eq!(fraction(&tiler, 3000.0), Some(2.5f64.to_bits()));
    assert_eq!(fraction(&tiler, 1e-100), Some((1e-100f64 / 1200.0).to_bits()));
    assert_eq!(fraction(&tiler, f64::NAN), Some(NOT_A_NUMBER));
    assert!(!tiler.is_maximized(&tile(1, 1, 1, f64::NAN)));
    assert!(tiler.is_maximized(&tile(1, 1, 1, 3000.0)));
    tiler.refresh_monitors(Some(vec![("DP-1".to_string(), Some(0))]));
    assert_eq!(fraction(&tiler, 1.0), Some(f64::INFINITY.to_bits()));
    assert_eq!(fraction(&tiler, 0.0), Some(NOT_A_NUMBER));
}

#[test]
fn a_monitor_is_named_once() {
    let mut tiler = tiler(6);
    tiler.refresh_monitors(Some(vec![
        ("DP-1".to_string(), Some(1)),
        ("DP-2".to_string(), Some(2)),
        ("DP-1".to_string(), Some(600)),
    ]));
    assert_eq!(tiler.monitor_names(), vec!["DP-1".to_string(), "DP-2".to_string()]);
    assert_eq!(tiler.width_fraction(&tile(1, 1, 1, HALF)), Some(1f64.to_bits()));
}

#[test]
fn earlier_screenfuls_are_not_touched() {
    let more = [
        tile(7, 4, 1, HALF),
        tile(8, 4, 2, HALF),
        tile(9, 5, 1, HALF),
        tile(10, 6, 1, HALF),
    ];
    let arrival = tiler(12).settle_arrival(10, 1, with(screenful(), &more));
    let Arrival::Settled(settlement) = arrival else {
        panic!("the window stands at the end of the row");
    };
    assert_eq!(settlement.effects, vec![log(Note::Stacking { id: 10, target: 5 }), left(10)]);
    let more = [tile(7, 4, 1, THIRD), tile(8, 4, 2, THIRD)];
    assert_eq!(
        tiler(12).settle_departure(1, with(screenful(), &more)),
        Settlement { effects: sizing(&[7, 8], 1), snap: snap(&[7, 8], 1) },
    );
}

#[test]
fn an_event_is_planned_by_what_was_known_before_it() {
    let mut tiler = tiler(6);
    let opened = || Event::WindowOpenedOrChanged { window: raw(5, Some(1), None, HALF) };
    assert_eq!(tiler.take_in(opened()), Some(Trigger::Arrived { id: 5, ws: 1 }));
    assert_eq!(tiler.take_in(opened()), None);
    let moved = Event::WindowOpenedOrChanged { window: raw(5, Some(2), None, HALF) };
    assert_eq!(tiler.take_in(moved), Some(Trigger::Moved { id: 5, to: Some(2), from: Some(1) }));
    assert_eq!(
        tiler.take_in(Event::WindowClosed { id: 5 }),
        Some(Trigger::Closed { from: Some(2) }),
    );
    assert!(!tiler.accepts(&Event::WindowClosed { id: 5 }));
}

#[test]
fn the_monitors_in_use_are_named() {
    let mut tiler = tiler(6);
    assert_eq!(tiler.monitor_names(), vec!["DP-1".to_string()]);
    assert_eq!(tiler.max_tiles(), 6);
    tiler.refresh_monitors(Some(vec![]));
    assert!(tiler.monitor_names().is_empty());
    assert!(Cleave::new(1).monitor_names().is_empty());
}

#[test]
fn the_tiled_windows_of_a_workspace_are_picked_from_a_reply() {
    let mut floating = raw(2, Some(1), None, HALF);
    floating.is_floating = true;
    let mut focused = raw(5, Some(1), None, THIRD);
    focused.is_focused = true;
    let reply = vec![
        raw(1, Some(1), Some((2, 3)), HALF),
        floating,
        raw(3, Some(2), Some((1, 1)), HALF),
        raw(4, None, None, HALF),
        focused,
    ];
    let expected = vec![
        tile(1, 2, 3, HALF),
        WindowInfo { position: None, is_focused: true, ..tile(5, 1, 1, THIRD) },
    ];
    assert_eq!(Cleave::fresh_tiled(Some(reply), 1), expected);
    assert_eq!(Cleave::fresh_tiled(None, 1), vec![]);
}

#[test]
fn a_new_window_arrives() {
    let tiler = tiler(6);
    let opened = |window: Window| tiler.plan(&Event::WindowOpenedOrChanged { window });
    assert_eq!(opened(raw(5, Some(1), None, HALF)), Some(Trigger::Arrived { id: 5, ws: 1 }));
    assert_eq!(opened(raw(5, None, None, HALF)), None);
    let mut floating = raw(5, Some(1), None, HALF);
    floating.is_floating = true;
    assert_eq!(opened(floating), None);
}

#[test]
fn a_window_arrives_once() {
    let mut tiler = tiler(6);
    let event = Event::WindowOpenedOrChanged { window: raw(5, Some(1), None, HALF) };
    assert!(tiler.plan(&event).is_some());
    tiler.apply(event.clone());
    assert_eq!(tiler.plan(&event), None);
}

#[test]
fn a_window_that_changes_workspace_has_moved() {
    let mut tiler = tiler(6);
    open(&mut tiler, raw(5, Some(1), None, HALF));
    let changed = |workspace_id| {
        tiler.plan(&Event::WindowOpenedOrChanged { window: raw(5, workspace_id, None, HALF) })
    };
    assert_eq!(changed(Some(1)), None);
    assert_eq!(changed(Some(2)), Some(Trigger::Moved { id: 5, to: Some(2), from: Some(1) }));
    assert_eq!(changed(None), Some(Trigger::Moved { id: 5, to: None, from: Some(1) }));
}

#[test]
fn a_closed_window_leaves_its_workspace_and_is_forgotten() {
    let mut tiler = tiler(6);
    open(&mut tiler, raw(5, Some(1), None, HALF));
    let event = Event::WindowClosed { id: 5 };
    assert_eq!(tiler.plan(&event), Some(Trigger::Closed { from: Some(1) }));
    assert!(tiler.accepts(&event));
    tiler.apply(event.clone());
    assert_eq!(tiler.plan(&event), Some(Trigger::Closed { from: None }));
    assert!(!tiler.accepts(&event));
    let again = Event::WindowOpenedOrChanged { window: raw(5, Some(2), None, HALF) };
    assert_eq!(tiler.plan(&again), Some(Trigger::Arrived { id: 5, ws: 2 }));
}

#[test]
fn other_events_call_for_nothing() {
    let tiler = tiler(6);
    assert_eq!(
        tiler.plan(&Event::WorkspacesChanged { workspaces: vec![] }),
        Some(Trigger::OutputsMaybeChanged),
    );
    assert_eq!(tiler.plan(&Event::WindowFocusChanged { id: Some(1) }), None);
    assert_eq!(tiler.plan(&Event::WindowsChanged { windows: vec![raw(1, Some(1), None, HALF)] }), None);
    assert_eq!(tiler.plan(&Event::WorkspaceActivated { id: 1, focused: true }), None);
    assert_eq!(tiler.plan(&Event::OverviewOpenedOrClosed { is_open: true }), None);
}

#[test]
fn events_about_something_unknown_are_not_accepted() {
    let mut tiler = tiler(6);
    open(&mut tiler, raw(5, Some(1), None, HALF));
    assert!(tiler.accepts(&Event::WorkspaceActivated { id: 3, focused: true }));
    assert!(!tiler.accepts(&Event::WorkspaceActivated { id: 4, focused: true }));
    let active = |workspace_id| Event::WorkspaceActiveWindowChanged { workspace_id, active_window_id: None };
    assert!(tiler.accepts(&active(2)));
    assert!(!tiler.accepts(&active(9)));
    let placed = |ids: &[u64]| Event::WindowLayoutsChanged {
        changes: ids.iter().map(|&id| (id, layout(None, HALF))).collect(),
    };
    assert!(tiler.accepts(&placed(&[])));
    assert!(tiler.accepts(&placed(&[5, 5])));
    assert!(!tiler.accepts(&placed(&[5, 6])));
    assert!(tiler.accepts(&Event::WorkspaceUrgencyChanged { id: 99, urgent: true }));
    assert!(tiler.accepts(&Event::WindowUrgencyChanged { id: 99, urgent: true }));
    assert!(tiler.accepts(&Event::WindowFocusChanged { id: Some(99) }));
    let seen = Event::WindowFocusTimestampChanged {
        id: 99,
        focus_timestamp: Some(Timestamp { secs: 1, nanos: 2 }),
    };
    assert!(tiler.accepts(&seen));
}

#[test]
fn a_keyboard_layout_is_switched_only_among_known_ones() {
    let mut tiler = tiler(6);
    let switched = Event::KeyboardLayoutSwitched { idx: 1 };
    assert!(!tiler.accepts(&switched));
    tiler.apply(Event::KeyboardLayoutsChanged {
        keyboard_layouts: KeyboardLayouts { names: vec!["us".to_string()], current_idx: 0 },
    });
    assert!(tiler.accepts(&switched));
    tiler.apply(switched.clone());
    assert!(tiler.accepts(&switched));
}

fn cast(stream_id: u64) -> Cast {
    Cast {
        stream_id,
        session_id: 1,
        kind: CastKind::PipeWire,
        target: CastTarget::Nothing {},
        is_dynamic_target: false,
        is_active: true,
        pid: None,
        pw_node_id: None,
    }
}

#[test]
fn a_cast_stops_once() {
    let mut tiler = tiler(6);
    let stopped = |stream_id| Event::CastStopped { stream_id };
    assert!(!tiler.accepts(&stopped(4)));
    tiler.apply(Event::CastStartedOrChanged { cast: cast(4) });
    assert!(tiler.accepts(&stopped(4)));
    tiler.apply(stopped(4));
    assert!(!tiler.accepts(&stopped(4)));
    tiler.apply(Event::CastsChanged { casts: vec![cast(7), cast(8)] });
    assert!(tiler.accepts(&stopped(8)));
    assert!(!tiler.accepts(&stopped(4)));
}

#[test]
fn workspaces_are_reported_anew() {
    let mut tiler = tiler(6);
    let window = tile(1, 1, 1, HALF);
    tiler.apply(Event::WorkspacesChanged { workspaces: vec![workspace(5, Some("DP-1"))] });
    assert_eq!(tiler.width_fraction(&window), None);
    assert!(!tiler.accepts(&Event::WorkspaceActivated { id: 1, focused: false }));
    let there = WindowInfo { workspace_id: Some(5), ..window };
    assert_eq!(tiler.width_fraction(&there), Some(0.5f64.to_bits()));
}

#[test]
fn the_focus_is_followed() {
    let mut tiler = tiler(6);
    assert_eq!(tiler.focused_id(), None);
    tiler.apply(Event::WindowsChanged {
        windows: vec![raw(1, Some(1), None, HALF), raw(2, Some(2), None, HALF)],
    });
    assert_eq!(tiler.focused_id(), None);
    let mut window = raw(3, Some(1), None, HALF);
    window.is_focused = true;
    open(&mut tiler, window);
    assert_eq!(tiler.focused_id(), Some(3));
    assert_eq!(tiler.focused_on(1), Some(3));
    assert_eq!(tiler.focused_on(2), None);
    tiler.apply(Event::WindowFocusChanged { id: Some(2) });
    assert_eq!(tiler.focused_id(), Some(2));
    assert_eq!(tiler.focused_on(1), None);
    assert_eq!(tiler.focused_on(2), Some(2));
    let mut window = raw(4, Some(1), None, HALF);
    window.is_focused = true;
    window.is_floating = true;
    open(&mut tiler, window);
    assert_eq!(tiler.focused_id(), Some(4));
    assert_eq!(tiler.focused_on(1), None);
    assert_eq!(tiler.focused_on(2), None);
    tiler.apply(Event::WindowFocusChanged { id: None });
    assert_eq!(tiler.focused_id(), None);
}

/// A tiler that waits for windows 1 and 2 of workspace 1 to become half as wide as the monitor, with
/// the focus on window 2.
fn waiting(now: u64) -> Cleave {
    let mut tiler = tiler(6);
    open(&mut tiler, raw(1, Some(1), Some((1, 1)), THIRD));
    let mut window = raw(2, Some(1), Some((2, 1)), THIRD);
    window.is_focused = true;
    open(&mut tiler, window);
    tiler.arm(Snap { ws: 1, ids: vec![1, 2], leftmost: 1, columns: 2 }, now);
    tiler
}

fn resize(tiler: &mut Cleave, id: u64, width: f64) {
    tiler.apply(Event::WindowLayoutsChanged { changes: vec![(id, layout(Some((id as usize, 1)), width))] });
}

#[test]
fn the_view_is_snapped_once_the_windows_are_resized() {
    let mut tiler = waiting(5);
    assert_eq!(tiler.pending_workspace(), Some(1));
    assert_eq!(tiler.check_pending_snap(6), vec![]);
    resize(&mut tiler, 1, HALF);
    assert_eq!(tiler.check_pending_snap(7), vec![]);
    assert_eq!(tiler.pending_workspace(), Some(1));
    resize(&mut tiler, 2, HALF);
    assert_eq!(tiler.check_pending_snap(8), vec![log(Note::Snapping), focus(1), focus(2)]);
    assert_eq!(tiler.pending_workspace(), None);
    assert_eq!(tiler.check_pending_snap(9), vec![]);
}

#[test]
fn what_is_waited_for_is_replaced_once_all_steps_are_sent() {
    let next = || Some(Snap { ws: 3, ids: vec![2], leftmost: 2, columns: 3 });
    let mut tiler = waiting(5);
    tiler.conclude(false, next(), 6);
    assert_eq!(tiler.pending_workspace(), Some(1));
    tiler.conclude(true, None, 6);
    assert_eq!(tiler.pending_workspace(), Some(1));
    tiler.conclude(true, next(), 6);
    assert_eq!(tiler.pending_workspace(), Some(3));
    let mut tiler = waiting(5);
    tiler.conclude(true, Some(Snap { ws: 1, ids: vec![2], leftmost: 2, columns: 3 }), 6);
    assert_eq!(tiler.check_pending_snap(SECOND + 6), vec![log(Note::Snapping), focus(2)]);
}

#[test]
fn the_focus_stays_on_the_leftmost_window() {
    let mut tiler = waiting(5);
    resize(&mut tiler, 1, HALF);
    resize(&mut tiler, 2, HALF);
    tiler.apply(Event::WindowFocusChanged { id: Some(1) });
    assert_eq!(tiler.check_pending_snap(8), vec![log(Note::Snapping), focus(1)]);
}

#[test]
fn a_snap_is_given_up_when_its_time_is_up() {
    let mut tiler = waiting(5);
    resize(&mut tiler, 1, HALF);
    resize(&mut tiler, 2, HALF);
    assert_eq!(tiler.check_pending_snap(SECOND + 6), vec![]);
    assert_eq!(tiler.pending_workspace(), None);
    let mut tiler = waiting(5);
    resize(&mut tiler, 1, HALF);
    resize(&mut tiler, 2, HALF);
    assert_eq!(tiler.check_pending_snap(SECOND + 5).len(), 3);
}

#[test]
fn a_snap_is_given_up_when_a_window_is_gone() {
    let mut tiler = waiting(5);
    tiler.apply(Event::WindowClosed { id: 1 });
    assert_eq!(tiler.check_pending_snap(6), vec![]);
    assert_eq!(tiler.pending_workspace(), None);
}

#[test]
fn a_snap_waits_for_the_focus_to_be_on_the_workspace() {
    let mut tiler = waiting(5);
    resize(&mut tiler, 1, HALF);
    resize(&mut tiler, 2, HALF);
    tiler.apply(Event::WindowFocusChanged { id: None });
    assert_eq!(tiler.check_pending_snap(6), vec![]);
    assert_eq!(tiler.pending_workspace(), Some(1));
    tiler.apply(Event::WindowFocusChanged { id: Some(2) });
    assert_eq!(tiler.check_pending_snap(7).len(), 3);
}

#[test]
fn without_a_snap_there_is_nothing_to_check() {
    let mut tiler = tiler(6);
    assert_eq!(tiler.check_pending_snap(0), vec![]);
    assert_eq!(tiler.snap_if_settled(0, Some(1)), vec![]);
}

#[test]
fn moves_are_followed_on_request() {
    let moved = |to, from| Some(Trigger::Moved { id: 5, to, from });
    assert_eq!(
        tasks(moved(Some(1), Some(2)), true),
        vec![Task::SettleArrival { id: 5, ws: 1 }, Task::SettleDeparture { ws: 2 }],
    );
    assert_eq!(tasks(moved(Some(1), None), true), vec![Task::SettleArrival { id: 5, ws: 1 }]);
    assert_eq!(tasks(moved(None, Some(2)), true), vec![Task::SettleDeparture { ws: 2 }]);
    assert_eq!(tasks(moved(Some(1), Some(2)), false), vec![]);
}

#[test]
fn everything_else_is_followed_regardless() {
    for apply_on_move in [true, false] {
        assert_eq!(
            tasks(Some(Trigger::Arrived { id: 5, ws: 1 }), apply_on_move),
            vec![Task::SettleArrival { id: 5, ws: 1 }],
        );
        assert_eq!(
            tasks(Some(Trigger::Closed { from: Some(1) }), apply_on_move),
            vec![Task::SettleDeparture { ws: 1 }],
        );
        assert_eq!(tasks(Some(Trigger::Closed { from: None }), apply_on_move), vec![]);
        assert_eq!(
            tasks(Some(Trigger::OutputsMaybeChanged), apply_on_move),
            vec![Task::RefreshMonitors],
        );
        assert_eq!(tasks(None, apply_on_move), vec![]);
    }
}
