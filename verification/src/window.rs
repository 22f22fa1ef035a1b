//! Windows as the tiling rules see them: their order along the row and the columns they form.
use vstd::prelude::*;

verus! {

/// A window, reduced to what the tiling rules read.
#[derive(Clone, Copy, Debug, PartialEq, Eq)]
pub struct WindowInfo {
    /// The compositor's id of the window.
    pub id: u64,
    /// The workspace that the window is on, if any.
    pub workspace_id: Option<u64>,
    pub is_focused: bool,
    pub is_floating: bool,
    /// Column and place within the column, if the window is part of the scrolling layout. Both count
    /// from 1.
    pub position: Option<(usize, usize)>,
    /// The bits of the double that is the width of the window's tile.
    pub tile_width: u64,
}

/// Where a window sits and how wide it is.
#[derive(Clone, Copy, Debug, PartialEq, Eq)]
pub struct Placement {
    pub position: Option<(usize, usize)>,
    pub tile_width: u64,
}

/// The column that a window is in.
pub open spec fn column(window: WindowInfo) -> Option<usize> {
    match window.position {
        Some((col, _)) => Some(col),
        None => None,
    }
}

/// Whether every window has a position.
pub open spec fn all_placed(windows: Seq<WindowInfo>) -> bool {
    forall|i: int| 0 <= i < windows.len() ==> (#[trigger] windows[i]).position is Some
}

/// Whether `a` comes before `b` in the row: in a column further left, or higher up in the same one.
pub open spec fn precedes(a: WindowInfo, b: WindowInfo) -> bool {
    let (col_a, row_a) = a.position->0;
    let (col_b, row_b) = b.position->0;
    col_a < col_b || (col_a == col_b && row_a < row_b)
}

/// `windows` with `window` added in front of those at the end that it precedes.
pub open spec fn inserted(windows: Seq<WindowInfo>, window: WindowInfo) -> Seq<WindowInfo>
    decreases windows.len(),
{
    if windows.len() == 0 || !precedes(window, windows.last()) {
        windows.push(window)
    } else {
        inserted(windows.drop_last(), window).push(windows.last())
    }
}

/// The windows in the order of their positions. Those at one position keep the order they had.
pub open spec fn ordered(windows: Seq<WindowInfo>) -> Seq<WindowInfo>
    decreases windows.len(),
{
    if windows.len() == 0 {
        windows
    } else {
        inserted(ordered(windows.drop_last()), windows.last())
    }
}

/// The first window with the given id.
pub open spec fn with_id(windows: Seq<WindowInfo>, id: u64) -> Option<WindowInfo>
    decreases windows.len(),
{
    if windows.len() == 0 {
        None
    } else if windows.first().id == id {
        Some(windows.first())
    } else {
        with_id(windows.drop_first(), id)
    }
}

/// The windows other than the one with the given id.
pub open spec fn without_id(windows: Seq<WindowInfo>, id: u64) -> Seq<WindowInfo> {
    windows.filter(|w: WindowInfo| w.id != id)
}

/// The columns that the windows are in.
pub open spec fn columns(windows: Seq<WindowInfo>) -> Set<usize>
    decreases windows.len(),
{
    if windows.len() == 0 {
        Set::empty()
    } else {
        match column(windows.last()) {
            Some(col) => columns(windows.drop_last()).insert(col),
            None => columns(windows.drop_last()),
        }
    }
}

/// How many of the windows are in the given column.
pub open spec fn height(windows: Seq<WindowInfo>, col: usize) -> nat
    decreases windows.len(),
{
    if windows.len() == 0 {
        0
    } else {
        height(windows.drop_last(), col) + if column(windows.last()) == Some(col) {
            1nat
        } else {
            0
        }
    }
}

/// The ids of the windows.
pub open spec fn ids(windows: Seq<WindowInfo>) -> Seq<u64> {
    windows.map_values(|w: WindowInfo| w.id)
}

/// The windows among the given ones that are tiled on a workspace.
pub open spec fn tiled_on(windows: Seq<WindowInfo>, ws: u64) -> Seq<WindowInfo> {
    windows.filter(|w: WindowInfo| w.workspace_id == Some(ws) && !w.is_floating)
}

/// A column is one of the windows' columns when a window is in it.
pub proof fn lemma_columns(windows: Seq<WindowInfo>, col: usize)
    ensures
        columns(windows).finite(),
        columns(windows).contains(col) <==> height(windows, col) > 0,
        height(windows, col) > 0 <==> exists|i: int|
            0 <= i < windows.len() && column(#[trigger] windows[i]) == Some(col),
        columns(windows).len() <= windows.len(),
    decreases windows.len(),
{
    if windows.len() > 0 {
        let rest = windows.drop_last();
        lemma_columns(rest, col);
        if height(rest, col) > 0 {
            let i = choose|i: int| 0 <= i < rest.len() && column(#[trigger] rest[i]) == Some(col);
            assert(windows[i] == rest[i]);
        }
        if exists|i: int| 0 <= i < windows.len() && column(#[trigger] windows[i]) == Some(col) {
            let i = choose|i: int|
                0 <= i < windows.len() && column(#[trigger] windows[i]) == Some(col);
            if i < rest.len() {
                assert(rest[i] == windows[i]);
            }
        }
    }
}

/// Inserting a window keeps the others.
proof fn lemma_inserted(windows: Seq<WindowInfo>, window: WindowInfo)
    ensures
        inserted(windows, window).len() == windows.len() + 1,
        inserted(windows, window).to_multiset() == windows.to_multiset().insert(window),
    decreases windows.len(),
{
    broadcast use vstd::seq_lib::group_to_multiset_ensures;

    if windows.len() > 0 && precedes(window, windows.last()) {
        lemma_inserted(windows.drop_last(), window);
        assert(windows.drop_last().push(windows.last()) =~= windows);
        assert(windows.drop_last().to_multiset().insert(window).insert(windows.last())
            =~= windows.drop_last().to_multiset().insert(windows.last()).insert(window));
    }
}

/// Ordering windows keeps them all.
pub proof fn lemma_ordered(windows: Seq<WindowInfo>)
    ensures
        ordered(windows).len() == windows.len(),
        ordered(windows).to_multiset() == windows.to_multiset(),
        all_placed(windows) ==> all_placed(ordered(windows)),
    decreases windows.len(),
{
    broadcast use vstd::seq_lib::group_to_multiset_ensures;

    if windows.len() > 0 {
        let rest = windows.drop_last();
        lemma_ordered(rest);
        lemma_inserted(ordered(rest), windows.last());
        assert(rest.push(windows.last()) =~= windows);
    }
    if all_placed(windows) {
        let row = ordered(windows);
        assert forall|i: int| 0 <= i < row.len() implies (#[trigger] row[i]).position is Some by {
            assert(row.contains(row[i]));
            assert(row.to_multiset().contains(row[i]));
            assert(windows.to_multiset().contains(row[i]));
            assert(windows.contains(row[i]));
        }
    }
}

/// A window that is found is one of the windows and has the id.
pub proof fn lemma_with_id(windows: Seq<WindowInfo>, id: u64)
    ensures
        match with_id(windows, id) {
            Some(found) => found.id == id && windows.contains(found),
            None => forall|i: int| 0 <= i < windows.len() ==> (#[trigger] windows[i]).id != id,
        },
    decreases windows.len(),
{
    if windows.len() > 0 {
        let rest = windows.drop_first();
        if windows.first().id == id {
            assert(windows.contains(windows[0]));
        } else {
            lemma_with_id(rest, id);
            match with_id(rest, id) {
                Some(found) => {
                    let k = choose|k: int| 0 <= k < rest.len() && rest[k] == found;
                    assert(windows[k + 1] == found);
                },
                None => {
                    assert forall|i: int| 0 <= i < windows.len() implies (
                    #[trigger] windows[i]).id != id by {
                        if i > 0 {
                            assert(rest[i - 1] == windows[i]);
                        }
                    }
                },
            }
        }
    }
}

/// Leaving a window out leaves fewer.
pub proof fn lemma_without_id(windows: Seq<WindowInfo>, id: u64)
    ensures
        without_id(windows, id).len() <= windows.len(),
        with_id(windows, id) is Some ==> without_id(windows, id).len() < windows.len(),
    decreases windows.len(),
{
    reveal(Seq::filter);
    if windows.len() > 0 {
        let rest = windows.drop_last();
        lemma_without_id(rest, id);
        lemma_with_id(windows, id);
        lemma_with_id(rest, id);
        if with_id(windows, id) is Some && windows.last().id != id {
            let found = with_id(windows, id)->0;
            let k = choose|k: int| 0 <= k < windows.len() && windows[k] == found;
            assert(rest[k].id == id);
        }
    }
}

/// Where a window goes among windows in order: behind the last one that it does not precede.
proof fn lemma_inserted_at(windows: Seq<WindowInfo>, window: WindowInfo, at: int)
    requires
        0 <= at <= windows.len(),
        at > 0 ==> !precedes(window, windows[at - 1]),
        forall|k: int| at <= k < windows.len() ==> precedes(window, #[trigger] windows[k]),
    ensures
        inserted(windows, window) == windows.insert(at, window),
    decreases windows.len() - at,
{
    if at < windows.len() {
        let rest = windows.drop_last();
        assert(precedes(window, windows[windows.len() - 1]));
        assert forall|k: int| at <= k < rest.len() implies precedes(window, #[trigger] rest[k]) by {
            assert(rest[k] == windows[k]);
        }
        lemma_inserted_at(rest, window, at);
        assert(rest.insert(at, window).push(windows.last()) =~= windows.insert(at, window));
    } else {
        assert(windows.push(window) =~= windows.insert(at, window));
    }
}

/// Whether `a` comes before `b` in the row.
fn is_before(a: &WindowInfo, b: &WindowInfo) -> (r: bool)
    requires
        a.position is Some,
        b.position is Some,
    ensures
        r == precedes(*a, *b),
{
    match (a.position, b.position) {
        (Some((col_a, row_a)), Some((col_b, row_b))) => col_a < col_b || (col_a == col_b && row_a
            < row_b),
        _ => false,
    }
}

/// The windows in the order of their positions, or nothing when one of them has none.
pub fn sorted_by_position(tiled: Vec<WindowInfo>) -> (r: Option<Vec<WindowInfo>>)
    ensures
        match r {
            Some(sorted) => all_placed(tiled@) && sorted@ == ordered(tiled@),
            None => !all_placed(tiled@),
        },
{
    let mut sorted: Vec<WindowInfo> = Vec::new();
    let mut next: usize = 0;
    while next < tiled.len()
        invariant
            next <= tiled.len(),
            sorted@ == ordered(tiled@.take(next as int)),
            all_placed(tiled@.take(next as int)),
            all_placed(sorted@),
        decreases tiled.len() - next,
    {
        let window = tiled[next];
        if window.position.is_none() {
            return None;
        }
        let mut at: usize = sorted.len();
        while at > 0 && is_before(&window, &sorted[at - 1])
            invariant
                at <= sorted.len(),
                window.position is Some,
                all_placed(sorted@),
                forall|k: int| at <= k < sorted.len() ==> precedes(window, #[trigger] sorted@[k]),
            decreases at,
        {
            at = at - 1;
        }
        proof {
            lemma_inserted_at(sorted@, window, at as int);
            let more = tiled@.take(next + 1);
            assert(more.drop_last() =~= tiled@.take(next as int));
            assert forall|i: int| 0 <= i < more.len() implies (#[trigger] more[i]).position is Some by {
                if i < next {
                    assert(more[i] == tiled@.take(next as int)[i]);
                }
            }
        }
        sorted.insert(at, window);
        next = next + 1;
    }
    assert(tiled@.take(next as int) =~= tiled@);
    Some(sorted)
}

/// The first window with the given id.
pub fn find_id(windows: &[WindowInfo], id: u64) -> (r: Option<WindowInfo>)
    ensures
        r == with_id(windows@, id),
{
    let mut i: usize = 0;
    assert(windows@.skip(0) =~= windows@);
    while i < windows.len()
        invariant
            i <= windows.len(),
            with_id(windows@, id) == with_id(windows@.skip(i as int), id),
        decreases windows.len() - i,
    {
        if windows[i].id == id {
            return Some(windows[i]);
        }
        assert(windows@.skip(i as int).drop_first() =~= windows@.skip(i + 1));
        i = i + 1;
    }
    None
}

/// The windows other than the one with the given id.
pub fn exclude_id(windows: &[WindowInfo], id: u64) -> (r: Vec<WindowInfo>)
    ensures
        r@ == without_id(windows@, id),
{
    let mut others: Vec<WindowInfo> = Vec::new();
    let ghost keep = |w: WindowInfo| w.id != id;
    let mut i: usize = 0;
    proof {
        reveal(Seq::filter);
    }
    while i < windows.len()
        invariant
            i <= windows.len(),
            keep == (|w: WindowInfo| w.id != id),
            others@ == windows@.take(i as int).filter(keep),
        decreases windows.len() - i,
    {
        proof {
            reveal(Seq::filter);
            assert(windows@.take(i + 1).drop_last() =~= windows@.take(i as int));
        }
        if windows[i].id != id {
            others.push(windows[i]);
        }
        i = i + 1;
    }
    assert(windows@.take(i as int) =~= windows@);
    others
}

/// How many of the windows are in the given column.
pub fn column_height(windows: &[WindowInfo], col: usize) -> (r: usize)
    ensures
        r == height(windows@, col),
        r <= windows.len(),
{
    let mut count: usize = 0;
    let mut i: usize = 0;
    while i < windows.len()
        invariant
            count <= i <= windows.len(),
            count == height(windows@.take(i as int), col),
        decreases windows.len() - i,
    {
        assert(windows@.take(i + 1).drop_last() =~= windows@.take(i as int));
        if let Some((c, _)) = windows[i].position {
            if c == col {
                count = count + 1;
            }
        }
        i = i + 1;
    }
    assert(windows@.take(i as int) =~= windows@);
    count
}

/// The columns that the windows are in, each once.
pub fn distinct_columns(windows: &[WindowInfo]) -> (r: Vec<usize>)
    ensures
        r@.no_duplicates(),
        r@.to_set() == columns(windows@),
        r.len() == columns(windows@).len(),
        r.len() <= windows.len(),
{
    let mut seen: Vec<usize> = Vec::new();
    let mut i: usize = 0;
    assert(seen@.to_set() =~= Set::empty());
    while i < windows.len()
        invariant
            i <= windows.len(),
            seen.len() <= i,
            seen@.no_duplicates(),
            seen@.to_set() == columns(windows@.take(i as int)),
        decreases windows.len() - i,
    {
        assert(windows@.take(i + 1).drop_last() =~= windows@.take(i as int));
        if let Some((col, _)) = windows[i].position {
            let known = has_column(&seen, col);
            if known {
                assert(seen@.to_set().insert(col) =~= seen@.to_set()) by {
                    assert(seen@.to_set().contains(col));
                }
            } else {
                let ghost before = seen@;
                seen.push(col);
                proof {
                    before.lemma_push_to_set_commute(col);
                }
            }
        }
        i = i + 1;
    }
    proof {
        assert(windows@.take(i as int) =~= windows@);
        seen@.unique_seq_to_set();
    }
    seen
}

/// Whether a column is among the given ones.
fn has_column(cols: &Vec<usize>, col: usize) -> (r: bool)
    ensures
        r == cols@.contains(col),
{
    let mut i: usize = 0;
    while i < cols.len()
        invariant
            i <= cols.len(),
            forall|k: int| 0 <= k < i ==> cols@[k] != col,
        decreases cols.len() - i,
    {
        if cols[i] == col {
            return true;
        }
        i = i + 1;
    }
    false
}

/// The ids of the windows.
pub fn window_ids(windows: &[WindowInfo]) -> (r: Vec<u64>)
    ensures
        r@ == ids(windows@),
{
    let mut list: Vec<u64> = Vec::new();
    let mut i: usize = 0;
    while i < windows.len()
        invariant
            i <= windows.len(),
            list@ =~= ids(windows@.take(i as int)),
        decreases windows.len() - i,
    {
        list.push(windows[i].id);
        i = i + 1;
    }
    assert(windows@.take(i as int) =~= windows@);
    list
}

/// Whether two workspace ids are the same.
pub(crate) fn same_workspace(a: Option<u64>, b: Option<u64>) -> (r: bool)
    ensures
        r == (a == b),
{
    match (a, b) {
        (Some(a), Some(b)) => a == b,
        (None, None) => true,
        _ => false,
    }
}

/// The windows among the given ones that are tiled on a workspace.
pub fn keep_tiled(windows: &[WindowInfo], ws: u64) -> (r: Vec<WindowInfo>)
    ensures
        r@ == tiled_on(windows@, ws),
{
    let mut kept: Vec<WindowInfo> = Vec::new();
    let ghost keep = |w: WindowInfo| w.workspace_id == Some(ws) && !w.is_floating;
    let mut i: usize = 0;
    proof {
        reveal(Seq::filter);
    }
    while i < windows.len()
        invariant
            i <= windows.len(),
            keep == (|w: WindowInfo| w.workspace_id == Some(ws) && !w.is_floating),
            kept@ == windows@.take(i as int).filter(keep),
        decreases windows.len() - i,
    {
        proof {
            reveal(Seq::filter);
            assert(windows@.take(i + 1).drop_last() =~= windows@.take(i as int));
        }
        if same_workspace(windows[i].workspace_id, Some(ws)) && !windows[i].is_floating {
            kept.push(windows[i]);
        }
        i = i + 1;
    }
    assert(windows@.take(i as int) =~= windows@);
    kept
}

} // verus!
