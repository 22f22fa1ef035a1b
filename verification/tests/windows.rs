use cleave::window::{
    column_height, distinct_columns, exclude_id, find_id, keep_tiled, sorted_by_position, window_ids,
    WindowInfo,
};

fn at(id: u64, position: Option<(usize, usize)>) -> WindowInfo {
    WindowInfo {
        id,
        workspace_id: Some(1),
        is_focused: false,
        is_floating: false,
        position,
        tile_width: 0,
    }
}

fn order(windows: Vec<WindowInfo>) -> Option<Vec<u64>> {
    sorted_by_position(windows).map(|sorted| window_ids(&sorted))
}

#[test]
fn windows_are_ordered_by_column_and_place() {
    let windows = vec![
        at(1, Some((3, 1))),
        at(2, Some((1, 2))),
        at(3, Some((2, 1))),
        at(4, Some((1, 1))),
        at(5, Some((3, 2))),
    ];
    assert_eq!(order(windows), Some(vec![4, 2, 3, 1, 5]));
    assert_eq!(order(vec![]), Some(vec![]));
}

#[test]
fn windows_at_one_position_keep_their_order() {
    let windows = vec![
        at(9, Some((2, 1))),
        at(5, Some((1, 1))),
        at(7, Some((2, 1))),
        at(3, Some((1, 1))),
        at(8, Some((2, 1))),
    ];
    assert_eq!(order(windows), Some(vec![5, 3, 9, 7, 8]));
}

#[test]
fn a_window_without_a_position_spoils_the_order() {
    assert_eq!(order(vec![at(1, Some((1, 1))), at(2, None)]), None);
    assert_eq!(order(vec![at(1, None)]), None);
}

#[test]
fn the_first_window_with_an_id_is_found() {
    let windows = vec![at(1, Some((1, 1))), at(2, Some((2, 1))), at(2, Some((3, 1)))];
    assert_eq!(find_id(&windows, 2), Some(windows[1]));
    assert_eq!(find_id(&windows, 3), None);
    assert_eq!(window_ids(&exclude_id(&windows, 2)), vec![1]);
    assert_eq!(exclude_id(&windows, 7), windows);
}

#[test]
fn columns_are_counted() {
    let windows = vec![at(1, Some((4, 1))), at(2, Some((2, 1))), at(3, Some((4, 2))), at(4, None)];
    let mut columns = distinct_columns(&windows);
    columns.sort();
    assert_eq!(columns, vec![2, 4]);
    assert_eq!(column_height(&windows, 4), 2);
    assert_eq!(column_height(&windows, 2), 1);
    assert_eq!(column_height(&windows, 3), 0);
}

#[test]
fn only_tiled_windows_of_the_workspace_are_kept() {
    let here = at(1, Some((1, 1)));
    let floating = WindowInfo { id: 2, is_floating: true, ..here };
    let elsewhere = WindowInfo { id: 3, workspace_id: Some(2), ..here };
    let nowhere = WindowInfo { id: 4, workspace_id: None, ..here };
    let unplaced = at(5, None);
    let all = vec![here, floating, elsewhere, nowhere, unplaced];
    assert_eq!(keep_tiled(&all, 1), vec![here, unplaced]);
    assert_eq!(keep_tiled(&all, 9), vec![]);
}
