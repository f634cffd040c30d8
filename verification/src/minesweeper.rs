//! The minesweeper: the mine field with its flood, and the game that is
//! played on it with the keyboard.

use crate::game::Game;
use crate::key::Key;
use crate::screen::{Character, ScreenBuffer};
use rand::seq::SliceRandom;
use vstd::prelude::*;

verus! {

/// One cell of the mine field.
#[derive(Clone, Copy, Debug, PartialEq, Eq, Structural)]
pub struct Cell {
    pub is_mine: bool,
    pub is_revealed: bool,
    pub adjacent_mines: usize,
    pub is_flagged: bool,
}

/// The cell that lies `k` places on from the top left neighbour of the cell
/// at column `x` of line `y`, line by line; `None` where `k` stands for the
/// cell itself or for a place outside the field.
pub open spec fn neighbour_at(x: int, y: int, width: int, height: int, k: int) -> Option<
    (usize, usize),
> {
    let nx = x + k % 3 - 1;
    let ny = y + k / 3 - 1;
    if k != 4 && 0 <= nx < width && 0 <= ny < height {
        Some((nx as usize, ny as usize))
    } else {
        None
    }
}

/// The neighbours of the cell at column `x` of line `y` among the first `k`
/// places around it.
pub open spec fn neighbours_upto(x: int, y: int, width: int, height: int, k: nat) -> Seq<
    (usize, usize),
>
    decreases k,
{
    if k == 0 {
        Seq::empty()
    } else {
        let before = neighbours_upto(x, y, width, height, (k - 1) as nat);
        match neighbour_at(x, y, width, height, k - 1) {
            Some(place) => before.push(place),
            None => before,
        }
    }
}

/// The neighbours of the cell at column `x` of line `y`, as column and
/// line: the cells of the field that touch it, corners included, from the
/// line above to the line below and in each line from left to right.
pub open spec fn neighbours(x: int, y: int, width: int, height: int) -> Seq<(usize, usize)> {
    neighbours_upto(x, y, width, height, 9)
}

/// Whether two different cells touch, corners included.
pub open spec fn touches(x: int, y: int, other_x: int, other_y: int) -> bool {
    &&& x - 1 <= other_x <= x + 1
    &&& y - 1 <= other_y <= y + 1
    &&& !(other_x == x && other_y == y)
}

/// The neighbours of a cell are the cells of the field that touch it, each
/// of them once.
pub proof fn lemma_neighbours(x: int, y: int, width: int, height: int)
    requires
        0 <= x < width <= usize::MAX,
        0 <= y < height <= usize::MAX,
    ensures
        neighbours(x, y, width, height).len() <= 8,
        forall|i: int|
            #![trigger neighbours(x, y, width, height)[i]]
            0 <= i < neighbours(x, y, width, height).len() ==> {
                let place = neighbours(x, y, width, height)[i];
                place.0 < width && place.1 < height && touches(x, y, place.0 as int, place.1 as int)
            },
        forall|other_x: int, other_y: int|
            0 <= other_x < width && 0 <= other_y < height && touches(x, y, other_x, other_y)
                ==> neighbours(x, y, width, height).contains((other_x as usize, other_y as usize)),
{
    lemma_neighbours_upto(x, y, width, height, 9);
    let all = neighbours(x, y, width, height);
    assert forall|other_x: int, other_y: int|
        0 <= other_x < width && 0 <= other_y < height && touches(
            x,
            y,
            other_x,
            other_y,
        ) implies all.contains((other_x as usize, other_y as usize)) by {
        let k = (other_y - y + 1) * 3 + (other_x - x + 1);
        assert(0 <= k < 9 && k != 4);
        assert(neighbour_at(x, y, width, height, k) == Some((other_x as usize, other_y as usize)));
    }
}

/// What `lemma_neighbours` says, of the first `k` places.
proof fn lemma_neighbours_upto(x: int, y: int, width: int, height: int, k: nat)
    requires
        0 <= x < width <= usize::MAX,
        0 <= y < height <= usize::MAX,
        k <= 9,
    ensures
        neighbours_upto(x, y, width, height, k).len() <= k,
        k > 4 ==> neighbours_upto(x, y, width, height, k).len() < k,
        forall|i: int|
            #![trigger neighbours_upto(x, y, width, height, k)[i]]
            0 <= i < neighbours_upto(x, y, width, height, k).len() ==> {
                let place = neighbours_upto(x, y, width, height, k)[i];
                place.0 < width && place.1 < height && touches(x, y, place.0 as int, place.1 as int)
            },
        forall|j: int|
            0 <= j < k ==> (#[trigger] neighbour_at(x, y, width, height, j) matches Some(place)
                ==> neighbours_upto(x, y, width, height, k).contains(place)),
    decreases k,
{
    if k > 0 {
        let before = neighbours_upto(x, y, width, height, (k - 1) as nat);
        let now = neighbours_upto(x, y, width, height, k);
        lemma_neighbours_upto(x, y, width, height, (k - 1) as nat);
        assert forall|j: int| 0 <= j < k implies (#[trigger] neighbour_at(
            x,
            y,
            width,
            height,
            j,
        ) matches Some(place) ==> now.contains(place)) by {
            if let Some(place) = neighbour_at(x, y, width, height, j) {
                if j < k - 1 {
                    assert(before.contains(place));
                    let i = choose|i: int| 0 <= i < before.len() && before[i] == place;
                    assert(now[i] == place);
                } else {
                    assert(now[now.len() - 1] == place);
                }
            }
        }
    }
}

/// How many of the cells at `places` have their entry in `mines` set; `mines`
/// has an entry for each cell of the field, line by line.
pub open spec fn count_at(mines: Seq<bool>, width: int, places: Seq<(usize, usize)>) -> nat
    decreases places.len(),
{
    if places.len() == 0 {
        0
    } else {
        let before = count_at(mines, width, places.drop_last());
        if mines[places.last().1 * width + places.last().0] {
            before + 1
        } else {
            before
        }
    }
}

/// How many neighbours of the cell at column `x` of line `y` hold a mine.
pub open spec fn adjacent_mines_at(mines: Seq<bool>, width: int, height: int, x: int, y: int) -> nat {
    count_at(mines, width, neighbours(x, y, width, height))
}

/// No more of the cells at `places` are counted than there are places.
pub proof fn lemma_count_at_bound(mines: Seq<bool>, width: int, places: Seq<(usize, usize)>)
    ensures
        count_at(mines, width, places) <= places.len(),
    decreases places.len(),
{
    if places.len() > 0 {
        lemma_count_at_bound(mines, width, places.drop_last());
    }
}

/// A cell of a field `width` wide and `height` high has its place in the
/// field's line-by-line order.
pub proof fn lemma_index_in_field(x: int, y: int, width: int, height: int)
    requires
        0 <= x < width,
        0 <= y < height,
    ensures
        0 <= y * width + x < width * height,
        y * width + x == width * y + x,
{
    assert(y * width + x < width * height) by (nonlinear_arith)
        requires
            0 <= x < width,
            0 <= y < height,
    ;
    assert(0 <= y * width) by (nonlinear_arith)
        requires
            0 <= y,
            0 <= width,
    ;
    assert(y * width == width * y) by (nonlinear_arith);
}

/// Different cells of a line-by-line field stand at different places.
pub proof fn lemma_index_apart(x: int, y: int, other_x: int, other_y: int, width: int)
    requires
        0 <= x < width,
        0 <= other_x < width,
        0 <= y,
        0 <= other_y,
        !(x == other_x && y == other_y),
    ensures
        y * width + x != other_y * width + other_x,
{
    if y < other_y {
        assert(y * width + x < other_y * width + other_x) by (nonlinear_arith)
            requires
                0 <= x < width,
                0 <= other_x,
                0 <= y < other_y,
        ;
    } else if other_y < y {
        assert(other_y * width + other_x < y * width + x) by (nonlinear_arith)
            requires
                0 <= other_x < width,
                0 <= x,
                0 <= other_y < y,
        ;
    }
}

/// The cells around the cell at column `x` of line `y` of a field `width`
/// wide and `height` high.
pub fn adjacent_cells_coord(x: usize, y: usize, width: usize, height: usize) -> (places: Vec<
    (usize, usize),
>)
    requires
        x < width,
        y < height,
    ensures
        places@ == neighbours(x as int, y as int, width as int, height as int),
{
    let mut places: Vec<(usize, usize)> = Vec::new();
    let mut k: usize = 0;
    while k < 9
        invariant
            k <= 9,
            x < width,
            y < height,
            places@ == neighbours_upto(x as int, y as int, width as int, height as int, k as nat),
        decreases 9 - k,
    {
        let dx = k % 3;
        let dy = k / 3;
        let in_columns = if dx == 0 {
            x >= 1
        } else {
            dx - 1 < width - x
        };
        let in_lines = if dy == 0 {
            y >= 1
        } else {
            dy - 1 < height - y
        };
        if k != 4 && in_columns && in_lines {
            places.push((x + dx - 1, y + dy - 1));
        }
        k += 1;
    }
    places
}

/// How many entries of `flags` are set.
pub open spec fn count_true(flags: Seq<bool>) -> nat
    decreases flags.len(),
{
    if flags.len() == 0 {
        0
    } else if flags.last() {
        count_true(flags.drop_last()) + 1
    } else {
        count_true(flags.drop_last())
    }
}

/// No more entries are set than there are entries.
pub proof fn lemma_count_true_bound(flags: Seq<bool>)
    ensures
        count_true(flags) <= flags.len(),
    decreases flags.len(),
{
    if flags.len() > 0 {
        lemma_count_true_bound(flags.drop_last());
    }
}

/// Changing one entry changes the count by that entry.
pub proof fn lemma_count_true_update(flags: Seq<bool>, i: int, value: bool)
    requires
        0 <= i < flags.len(),
    ensures
        count_true(flags.update(i, value)) + (if flags[i] {
            1nat
        } else {
            0nat
        }) == count_true(flags) + (if value {
            1nat
        } else {
            0nat
        }),
    decreases flags.len(),
{
    let changed = flags.update(i, value);
    if i == flags.len() - 1 {
        assert(changed.drop_last() =~= flags.drop_last());
    } else {
        lemma_count_true_update(flags.drop_last(), i, value);
        assert(changed.drop_last() =~= flags.drop_last().update(i, value));
    }
}

/// The count goes by what the entries are, not by their order.
pub proof fn lemma_count_true_by_multiset(flags: Seq<bool>)
    ensures
        count_true(flags) == flags.to_multiset().count(true),
    decreases flags.len(),
{
    broadcast use vstd::multiset::group_multiset_axioms;

    if flags.len() == 0 {
        flags.to_multiset_ensures();
        assert(flags.to_multiset().len() == 0);
    } else {
        lemma_count_true_by_multiset(flags.drop_last());
        vstd::seq_lib::to_multiset_build(flags.drop_last(), flags.last());
        assert(flags.drop_last().push(flags.last()) =~= flags);
    }
}

/// For each cell, whether it holds a mine.
pub open spec fn mines_of(cells: Seq<Cell>) -> Seq<bool> {
    Seq::new(cells.len(), |i: int| cells[i].is_mine)
}

/// For each cell, whether it bears a flag.
pub open spec fn flagged_of(cells: Seq<Cell>) -> Seq<bool> {
    Seq::new(cells.len(), |i: int| cells[i].is_flagged)
}

/// For each cell, whether it is revealed.
pub open spec fn revealed_of(cells: Seq<Cell>) -> Seq<bool> {
    Seq::new(cells.len(), |i: int| cells[i].is_revealed)
}

/// Puts the entries in a random order. Trusted: `shuffle` of
/// `rand::seq::SliceRandom` with the generator of `rand::thread_rng`, which
/// only exchanges entries, so that what comes out holds what went in.
#[verifier::external_body]
fn shuffle(flags: &mut Vec<bool>)
    ensures
        final(flags)@.to_multiset() == old(flags)@.to_multiset(),
{
    flags.shuffle(&mut rand::thread_rng());
}

/// Whether `after` is the field `before` with more of it revealed, and
/// nothing else changed: the cells hold the same mines, counts and flags,
/// what was revealed still is, and what is newly revealed bears no flag.
pub open spec fn grown(before: &Board, after: &Board) -> bool {
    &&& after.width() == before.width()
    &&& after.height() == before.height()
    &&& after.cells().len() == before.cells().len()
    &&& forall|i: int|
        0 <= i < before.cells().len() ==> {
            let cell = #[trigger] after.cells()[i];
            let was = before.cells()[i];
            &&& cell.is_mine == was.is_mine
            &&& cell.adjacent_mines == was.adjacent_mines
            &&& cell.is_flagged == was.is_flagged
            &&& was.is_revealed ==> cell.is_revealed
            &&& cell.is_revealed && !was.is_revealed ==> !was.is_flagged
        }
}

/// Whether the cell at column `x` of line `y` has been opened up between
/// `before` and `after`: it is newly revealed, holds no mine, and none of
/// its neighbours holds one.
pub open spec fn opened(before: &Board, after: &Board, x: int, y: int) -> bool {
    &&& !before.cell(x, y).is_revealed
    &&& after.cell(x, y).is_revealed
    &&& !after.cell(x, y).is_mine
    &&& after.cell(x, y).adjacent_mines == 0
}

/// Whether every neighbour of the cell at column `x` of line `y` is
/// revealed or bears a flag.
pub open spec fn surrounded(board: &Board, x: int, y: int) -> bool {
    forall|k: int|
        #![trigger neighbours(x, y, board.width(), board.height())[k]]
        0 <= k < neighbours(x, y, board.width(), board.height()).len() ==> {
            let place = neighbours(x, y, board.width(), board.height())[k];
            board.cell(place.0 as int, place.1 as int).is_revealed || board.cell(
                place.0 as int,
                place.1 as int,
            ).is_flagged
        }
}

/// Whether `after` is `before` with more of it revealed, as far as that
/// goes: wherever a cell has been opened up, its neighbours that bear no
/// flag are revealed too.
pub open spec fn uncovered(before: &Board, after: &Board) -> bool {
    &&& grown(before, after)
    &&& forall|x: int, y: int|
        0 <= x < after.width() && 0 <= y < after.height() && #[trigger] opened(before, after, x, y)
            ==> surrounded(after, x, y)
}

/// Whether the field holds as many cells as its size says.
pub open spec fn sized(board: &Board) -> bool {
    &&& 0 <= board.width()
    &&& 0 <= board.height()
    &&& board.cells().len() == board.width() * board.height()
}

/// What `grown` says holds of the cell at column `x` of line `y`.
pub proof fn lemma_grown_at(before: &Board, after: &Board, x: int, y: int)
    requires
        sized(before),
        grown(before, after),
        0 <= x < before.width(),
        0 <= y < before.height(),
    ensures
        after.cell(x, y).is_mine == before.cell(x, y).is_mine,
        after.cell(x, y).adjacent_mines == before.cell(x, y).adjacent_mines,
        after.cell(x, y).is_flagged == before.cell(x, y).is_flagged,
        before.cell(x, y).is_revealed ==> after.cell(x, y).is_revealed,
        after.cell(x, y).is_revealed && !before.cell(x, y).is_revealed ==> !before.cell(
            x,
            y,
        ).is_flagged,
{
    lemma_index_in_field(x, y, before.width(), before.height());
    assert(after.cells()[after.index(x, y)].is_mine == before.cells()[before.index(x, y)].is_mine);
}

/// A field that has grown twice has grown.
pub proof fn lemma_grown_twice(first: &Board, second: &Board, third: &Board)
    requires
        grown(first, second),
        grown(second, third),
    ensures
        grown(first, third),
{
    assert forall|i: int| 0 <= i < first.cells().len() implies {
        let cell = #[trigger] third.cells()[i];
        let was = first.cells()[i];
        &&& cell.is_mine == was.is_mine
        &&& cell.adjacent_mines == was.adjacent_mines
        &&& cell.is_flagged == was.is_flagged
        &&& was.is_revealed ==> cell.is_revealed
        &&& cell.is_revealed && !was.is_revealed ==> !was.is_flagged
    } by {
        assert(second.cells()[i].is_mine == first.cells()[i].is_mine);
    }
}

/// A cell whose neighbours are all revealed or flagged stays so while the
/// field grows.
pub proof fn lemma_surrounded_stays(before: &Board, after: &Board, x: int, y: int)
    requires
        sized(before),
        before.width() <= usize::MAX,
        before.height() <= usize::MAX,
        grown(before, after),
        0 <= x < before.width(),
        0 <= y < before.height(),
        surrounded(before, x, y),
    ensures
        surrounded(after, x, y),
{
    let around = neighbours(x, y, before.width(), before.height());
    lemma_neighbours(x, y, before.width(), before.height());
    assert forall|k: int| 0 <= k < around.len() implies {
        let place = #[trigger] around[k];
        after.cell(place.0 as int, place.1 as int).is_revealed || after.cell(
            place.0 as int,
            place.1 as int,
        ).is_flagged
    } by {
        let place = around[k];
        lemma_grown_at(before, after, place.0 as int, place.1 as int);
    }
}

/// What is left to show once more of a field has been uncovered: the field
/// has grown since `first`, and whatever has been opened up since, but for
/// the cell at column `x` of line `y`, has its neighbours revealed or
/// flagged.
pub open spec fn uncovered_but(first: &Board, after: &Board, x: int, y: int) -> bool {
    &&& grown(first, after)
    &&& forall|cx: int, cy: int|
        0 <= cx < after.width() && 0 <= cy < after.height() && !(cx == x && cy == y)
            && #[trigger] opened(first, after, cx, cy) ==> surrounded(after, cx, cy)
}

/// Uncovering more keeps what has been uncovered.
pub proof fn lemma_uncovered_more(first: &Board, second: &Board, third: &Board, x: int, y: int)
    requires
        sized(first),
        first.width() <= usize::MAX,
        first.height() <= usize::MAX,
        uncovered_but(first, second, x, y),
        uncovered(second, third),
    ensures
        uncovered_but(first, third, x, y),
{
    lemma_grown_twice(first, second, third);
    assert forall|cx: int, cy: int|
        0 <= cx < third.width() && 0 <= cy < third.height() && !(cx == x && cy == y)
            && #[trigger] opened(first, third, cx, cy) implies surrounded(third, cx, cy) by {
        lemma_grown_at(first, second, cx, cy);
        lemma_grown_at(second, third, cx, cy);
        if second.cell(cx, cy).is_revealed {
            assert(opened(first, second, cx, cy));
            lemma_surrounded_stays(second, third, cx, cy);
        } else {
            assert(opened(second, third, cx, cy));
        }
    }
}

/// A field that has been uncovered twice has been uncovered.
pub proof fn lemma_uncovered_twice(first: &Board, second: &Board, third: &Board)
    requires
        sized(first),
        first.width() <= usize::MAX,
        first.height() <= usize::MAX,
        uncovered(first, second),
        uncovered(second, third),
    ensures
        uncovered(first, third),
{
    assert(uncovered_but(first, second, -1, -1));
    lemma_uncovered_more(first, second, third, -1, -1);
}

/// Whether the flood may pass over the cell at `place`: it lies in the
/// field, is hidden, and bears no flag.
pub open spec fn route_cell(board: &Board, place: (int, int)) -> bool {
    &&& 0 <= place.0 < board.width()
    &&& 0 <= place.1 < board.height()
    &&& !board.cell(place.0, place.1).is_revealed
    &&& !board.cell(place.0, place.1).is_flagged
}

/// Whether the flood goes on from the cell at `from` to the cell at `to`:
/// the first holds no mine, has no mine around it, and touches the second.
pub open spec fn route_step(board: &Board, from: (int, int), to: (int, int)) -> bool {
    &&& !board.cell(from.0, from.1).is_mine
    &&& board.cell(from.0, from.1).adjacent_mines == 0
    &&& touches(from.0, from.1, to.0, to.1)
}

/// Whether `path` is a way that the flood takes over `board`: a row of
/// hidden cells without flags, each touching the next, and each but the
/// last without a mine in it or around it.
pub open spec fn route(board: &Board, path: Seq<(int, int)>) -> bool {
    &&& path.len() > 0
    &&& forall|i: int| 0 <= i < path.len() ==> route_cell(board, #[trigger] path[i])
    &&& forall|i: int|
        0 <= i < path.len() - 1 ==> route_step(board, #[trigger] path[i], path[i + 1])
}

/// Whether the flood that starts at column `x` of line `y` of `board`
/// gets to column `to_x` of line `to_y`.
pub open spec fn reachable(board: &Board, x: int, y: int, to_x: int, to_y: int) -> bool {
    exists|path: Seq<(int, int)>|
        #[trigger] route(board, path) && path[0] == (x, y) && path.last() == (to_x, to_y)
}

/// Whether the cell at column `x` of line `y` has been revealed between
/// `before` and `after`.
pub open spec fn newly(before: &Board, after: &Board, x: int, y: int) -> bool {
    !before.cell(x, y).is_revealed && after.cell(x, y).is_revealed
}

/// A way of the flood over a field is a way over the field as it was
/// before more of it was revealed.
pub proof fn lemma_route_older(first: &Board, later: &Board, path: Seq<(int, int)>)
    requires
        sized(first),
        grown(first, later),
        route(later, path),
    ensures
        route(first, path),
{
    assert forall|i: int| 0 <= i < path.len() implies route_cell(first, #[trigger] path[i]) by {
        assert(route_cell(later, path[i]));
        lemma_grown_at(first, later, path[i].0, path[i].1);
    }
    assert forall|i: int| 0 <= i < path.len() - 1 implies route_step(
        first,
        #[trigger] path[i],
        path[i + 1],
    ) by {
        assert(route_cell(later, path[i]));
        assert(route_step(later, path[i], path[i + 1]));
        lemma_grown_at(first, later, path[i].0, path[i].1);
    }
}

/// A way of the flood may be entered from a cell that the flood goes on
/// from.
pub proof fn lemma_route_prepend(board: &Board, start: (int, int), path: Seq<(int, int)>)
    requires
        route(board, path),
        route_cell(board, start),
        route_step(board, start, path[0]),
    ensures
        route(board, seq![start] + path),
        (seq![start] + path)[0] == start,
        (seq![start] + path).last() == path.last(),
{
    let longer = seq![start] + path;
    assert forall|i: int| 0 <= i < longer.len() implies route_cell(board, #[trigger] longer[i]) by {
        if i > 0 {
            assert(longer[i] == path[i - 1]);
            assert(route_cell(board, path[i - 1]));
        }
    }
    assert forall|i: int| 0 <= i < longer.len() - 1 implies route_step(
        board,
        #[trigger] longer[i],
        longer[i + 1],
    ) by {
        if i > 0 {
            assert(longer[i] == path[i - 1]);
            assert(longer[i + 1] == path[i]);
            assert(route_step(board, path[i - 1], path[i - 1 + 1]));
        } else {
            assert(longer[1] == path[0]);
        }
    }
}

/// Where the flood has run, it has got to the end of each of its ways: once
/// the first cell of a way is revealed, so is the last.
pub proof fn lemma_route_revealed(before: &Board, after: &Board, path: Seq<(int, int)>)
    requires
        sized(before),
        before.width() <= usize::MAX,
        before.height() <= usize::MAX,
        uncovered(before, after),
        route(before, path),
        after.cell(path[0].0, path[0].1).is_revealed,
    ensures
        after.cell(path.last().0, path.last().1).is_revealed,
    decreases path.len(),
{
    if path.len() > 1 {
        let shorter = path.drop_last();
        assert forall|i: int| 0 <= i < shorter.len() implies route_cell(
            before,
            #[trigger] shorter[i],
        ) by {
            assert(route_cell(before, path[i]));
        }
        assert forall|i: int| 0 <= i < shorter.len() - 1 implies route_step(
            before,
            #[trigger] shorter[i],
            shorter[i + 1],
        ) by {
            assert(route_step(before, path[i], path[i + 1]));
        }
        lemma_route_revealed(before, after, shorter);
        let from = path[path.len() - 2];
        let to = path.last();
        assert(shorter.last() == from);
        assert(route_cell(before, from));
        assert(route_cell(before, to));
        assert(route_step(before, from, path[path.len() - 2 + 1]));
        lemma_grown_at(before, after, from.0, from.1);
        lemma_grown_at(before, after, to.0, to.1);
        assert(opened(before, after, from.0, from.1));
        assert(surrounded(after, from.0, from.1));
        lemma_neighbours(from.0, from.1, before.width(), before.height());
        let around = neighbours(from.0, from.1, before.width(), before.height());
        assert(around.contains((to.0 as usize, to.1 as usize)));
        let k = choose|k: int| 0 <= k < around.len() && around[k] == (to.0 as usize, to.1 as usize);
        assert(around[k].0 == to.0 && around[k].1 == to.1);
    }
}

/// Whether the flood that starts at one of the neighbours of the cell at
/// column `x` of line `y` gets to column `to_x` of line `to_y`.
pub open spec fn reachable_around(board: &Board, x: int, y: int, to_x: int, to_y: int) -> bool {
    exists|k: int|
        #![trigger neighbours(x, y, board.width(), board.height())[k]]
        0 <= k < neighbours(x, y, board.width(), board.height()).len() && reachable(
            board,
            neighbours(x, y, board.width(), board.height())[k].0 as int,
            neighbours(x, y, board.width(), board.height())[k].1 as int,
            to_x,
            to_y,
        )
}

/// Whether every cell that has been revealed between `before` and `after`
/// is one that the flood from column `x` of line `y` gets to.
pub open spec fn justified(before: &Board, after: &Board, x: int, y: int) -> bool {
    forall|cx: int, cy: int|
        0 <= cx < before.width() && 0 <= cy < before.height() && #[trigger] newly(
            before,
            after,
            cx,
            cy,
        ) ==> reachable(before, x, y, cx, cy)
}

/// Whether every cell that has been revealed between `before` and `after`
/// is one that the flood from a neighbour of the cell at column `x` of line
/// `y` gets to.
pub open spec fn justified_around(before: &Board, after: &Board, x: int, y: int) -> bool {
    forall|cx: int, cy: int|
        0 <= cx < before.width() && 0 <= cy < before.height() && #[trigger] newly(
            before,
            after,
            cx,
            cy,
        ) ==> reachable_around(before, x, y, cx, cy)
}

/// What has been revealed in two goes has been revealed in the first, or
/// is what the flood of the second go gets to over the field as it was
/// before the first.
pub proof fn lemma_justified_older(
    first: &Board,
    second: &Board,
    third: &Board,
    from_x: int,
    from_y: int,
)
    requires
        sized(first),
        grown(first, second),
        grown(second, third),
        justified(second, third, from_x, from_y),
    ensures
        forall|cx: int, cy: int|
            0 <= cx < first.width() && 0 <= cy < first.height() && #[trigger] newly(
                first,
                third,
                cx,
                cy,
            ) ==> newly(first, second, cx, cy) || reachable(first, from_x, from_y, cx, cy),
{
    assert forall|cx: int, cy: int|
        0 <= cx < first.width() && 0 <= cy < first.height() && #[trigger] newly(
            first,
            third,
            cx,
            cy,
        ) implies newly(first, second, cx, cy) || reachable(first, from_x, from_y, cx, cy) by {
        lemma_grown_at(first, second, cx, cy);
        if !second.cell(cx, cy).is_revealed {
            assert(newly(second, third, cx, cy));
            let path = choose|path: Seq<(int, int)>|
                #[trigger] route(second, path) && path[0] == (from_x, from_y) && path.last() == (
                    cx,
                    cy,
                );
            lemma_route_older(first, second, path);
        }
    }
}

/// What the flood from a neighbour has revealed, the flood from the cell
/// itself has got to.
pub proof fn lemma_justified_more(
    first: &Board,
    second: &Board,
    third: &Board,
    x: int,
    y: int,
    next_x: int,
    next_y: int,
)
    requires
        sized(first),
        grown(first, second),
        grown(second, third),
        justified(first, second, x, y),
        justified(second, third, next_x, next_y),
        route_cell(first, (x, y)),
        route_step(first, (x, y), (next_x, next_y)),
    ensures
        justified(first, third, x, y),
{
    lemma_justified_older(first, second, third, next_x, next_y);
    assert forall|cx: int, cy: int|
        0 <= cx < first.width() && 0 <= cy < first.height() && #[trigger] newly(
            first,
            third,
            cx,
            cy,
        ) implies reachable(first, x, y, cx, cy) by {
        if !newly(first, second, cx, cy) {
            let path = choose|path: Seq<(int, int)>|
                #[trigger] route(first, path) && path[0] == (next_x, next_y) && path.last() == (
                    cx,
                    cy,
                );
            lemma_route_prepend(first, (x, y), path);
            assert(route(first, seq![(x, y)] + path));
        }
    }
}

/// What the flood from one neighbour has revealed, the flood from the
/// neighbours has got to.
pub proof fn lemma_justified_around_more(
    first: &Board,
    second: &Board,
    third: &Board,
    x: int,
    y: int,
    k: int,
)
    requires
        sized(first),
        grown(first, second),
        grown(second, third),
        justified_around(first, second, x, y),
        0 <= k < neighbours(x, y, first.width(), first.height()).len(),
        justified(
            second,
            third,
            neighbours(x, y, first.width(), first.height())[k].0 as int,
            neighbours(x, y, first.width(), first.height())[k].1 as int,
        ),
    ensures
        justified_around(first, third, x, y),
{
    let place = neighbours(x, y, first.width(), first.height())[k];
    lemma_justified_older(first, second, third, place.0 as int, place.1 as int);
}

/// The flood reveals what it gets to, and nothing else. Where a field has
/// been uncovered from the cell at column `x` of line `y`, and nothing is
/// newly revealed but what the flood from there gets to, the newly revealed
/// cells are the cells that the flood gets to.
pub proof fn lemma_flood_exact(before: &Board, after: &Board, x: int, y: int)
    requires
        sized(before),
        before.width() <= usize::MAX,
        before.height() <= usize::MAX,
        uncovered(before, after),
        justified(before, after, x, y),
        route_cell(before, (x, y)) ==> after.cell(x, y).is_revealed,
    ensures
        forall|cx: int, cy: int|
            0 <= cx < before.width() && 0 <= cy < before.height() ==> (#[trigger] newly(
                before,
                after,
                cx,
                cy,
            ) <==> reachable(before, x, y, cx, cy)),
{
    assert forall|cx: int, cy: int|
        0 <= cx < before.width() && 0 <= cy < before.height() && reachable(
            before,
            x,
            y,
            cx,
            cy,
        ) implies #[trigger] newly(before, after, cx, cy) by {
        let path = choose|path: Seq<(int, int)>|
            #[trigger] route(before, path) && path[0] == (x, y) && path.last() == (cx, cy);
        assert(route_cell(before, path[0]));
        assert(route_cell(before, path[path.len() - 1]));
        lemma_route_revealed(before, after, path);
    }
}

/// The chord reveals what the flood from the neighbours gets to, and
/// nothing else.
pub proof fn lemma_chord_exact(before: &Board, after: &Board, x: int, y: int)
    requires
        sized(before),
        before.width() <= usize::MAX,
        before.height() <= usize::MAX,
        0 <= x < before.width(),
        0 <= y < before.height(),
        uncovered(before, after),
        justified_around(before, after, x, y),
        surrounded(after, x, y),
    ensures
        forall|cx: int, cy: int|
            0 <= cx < before.width() && 0 <= cy < before.height() ==> (#[trigger] newly(
                before,
                after,
                cx,
                cy,
            ) <==> reachable_around(before, x, y, cx, cy)),
{
    let around = neighbours(x, y, before.width(), before.height());
    lemma_neighbours(x, y, before.width(), before.height());
    assert forall|cx: int, cy: int|
        0 <= cx < before.width() && 0 <= cy < before.height() && reachable_around(
            before,
            x,
            y,
            cx,
            cy,
        ) implies #[trigger] newly(before, after, cx, cy) by {
        let k = choose|k: int|
            #![trigger around[k]]
            0 <= k < around.len() && reachable(
                before,
                around[k].0 as int,
                around[k].1 as int,
                cx,
                cy,
            );
        let place = around[k];
        let path = choose|path: Seq<(int, int)>|
            #[trigger] route(before, path) && path[0] == (place.0 as int, place.1 as int)
                && path.last() == (cx, cy);
        assert(route_cell(before, path[0]));
        assert(route_cell(before, path[path.len() - 1]));
        lemma_grown_at(before, after, place.0 as int, place.1 as int);
        lemma_route_revealed(before, after, path);
    }
}

/// The mine field: `width` by `height` cells, line by line.
pub struct Board {
    width: usize,
    height: usize,
    cells: Vec<Cell>,
    safe_cells: usize,
    revealed_cells: usize,
    revealed_mine: bool,
}

impl Board {
    /// How many cells a line has.
    pub closed spec fn width(&self) -> int {
        self.width as int
    }

    /// How many lines the field has.
    pub closed spec fn height(&self) -> int {
        self.height as int
    }

    /// The cells, line by line.
    pub closed spec fn cells(&self) -> Seq<Cell> {
        self.cells@
    }

    /// Where the cell at column `x` of line `y` stands among the cells.
    pub open spec fn index(&self, x: int, y: int) -> int {
        y * self.width() + x
    }

    /// The cell at column `x` of line `y`.
    pub open spec fn cell(&self, x: int, y: int) -> Cell {
        self.cells()[self.index(x, y)]
    }

    /// How many cells hold a mine.
    pub open spec fn mine_count(&self) -> nat {
        count_true(mines_of(self.cells()))
    }

    /// How many cells are revealed.
    pub open spec fn revealed_count(&self) -> nat {
        count_true(revealed_of(self.cells()))
    }

    /// Whether a mine has been revealed.
    pub open spec fn mine_revealed(&self) -> bool {
        exists|i: int|
            0 <= i < self.cells().len() && (#[trigger] self.cells()[i]).is_revealed
                && self.cells()[i].is_mine
    }

    /// Whether as many cells are revealed as hold no mine.
    pub open spec fn cleared(&self) -> bool {
        self.revealed_count() + self.mine_count() >= self.cells().len()
    }

    /// Whether each cell knows how many of its neighbours hold a mine.
    pub open spec fn counts_right(&self) -> bool {
        forall|x: int, y: int|
            0 <= x < self.width() && 0 <= y < self.height() ==> (#[trigger] self.cell(
                x,
                y,
            )).adjacent_mines == adjacent_mines_at(
                mines_of(self.cells()),
                self.width(),
                self.height(),
                x,
                y,
            )
    }

    /// The field's invariant: it holds `width` times `height` cells, each
    /// cell knows how many of its neighbours hold a mine, and the field's
    /// own counts are those of its cells.
    pub closed spec fn wf(&self) -> bool {
        &&& self.width * self.height == self.cells@.len()
        &&& self.counts_right()
        &&& self.safe_cells + self.mine_count() == self.cells@.len()
        &&& self.revealed_cells == self.revealed_count()
        &&& self.revealed_mine == self.mine_revealed()
    }

    /// A field of the invariant holds `width` times `height` cells, and
    /// each of them knows how many of its neighbours hold a mine.
    pub proof fn lemma_size(&self)
        requires
            self.wf(),
        ensures
            sized(self),
            self.width() <= usize::MAX,
            self.height() <= usize::MAX,
            self.counts_right(),
    {
    }

    /// A new field of `width` by `height` cells, `mines` of which hold a
    /// mine, at places chosen at random; no cell is revealed or flagged.
    pub fn new(width: usize, height: usize, mines: usize) -> (board: Self)
        requires
            width * height <= usize::MAX,
            mines <= width * height,
        ensures
            board.wf(),
            board.width() == width,
            board.height() == height,
            board.cells().len() == width * height,
            board.mine_count() == mines,
            forall|i: int|
                0 <= i < board.cells().len() ==> !(#[trigger] board.cells()[i]).is_revealed
                    && !board.cells()[i].is_flagged,
    {
        let size = width * height;
        assert(width * height == height * width) by (nonlinear_arith);
        let mut mines_at: Vec<bool> = Vec::new();
        let mut i: usize = 0;
        while i < size
            invariant
                i <= size,
                mines <= size,
                mines_at@.len() == i,
                count_true(mines_at@) == if i <= mines {
                    i
                } else {
                    mines
                },
            decreases size - i,
        {
            let ghost before = mines_at@;
            mines_at.push(i < mines);
            assert(mines_at@.drop_last() =~= before);
            i += 1;
        }
        let ghost sorted = mines_at@;
        shuffle(&mut mines_at);
        proof {
            lemma_count_true_by_multiset(sorted);
            lemma_count_true_by_multiset(mines_at@);
            sorted.to_multiset_ensures();
            mines_at@.to_multiset_ensures();
        }
        Self::from_mines(width, height, mines_at)
    }

    /// The field of `width` by `height` cells whose mines lie where
    /// `mines_at` says, line by line; no cell is revealed or flagged.
    pub fn from_mines(width: usize, height: usize, mines_at: Vec<bool>) -> (board: Self)
        requires
            width * height <= usize::MAX,
            mines_at@.len() == width * height,
        ensures
            board.wf(),
            board.width() == width,
            board.height() == height,
            board.cells().len() == width * height,
            mines_of(board.cells()) == mines_at@,
            forall|i: int|
                0 <= i < board.cells().len() ==> !(#[trigger] board.cells()[i]).is_revealed
                    && !board.cells()[i].is_flagged,
    {
        let size = width * height;
        assert(width * height == height * width) by (nonlinear_arith);
        let mut mines: usize = 0;
        assert(mines_at@.take(0) =~= Seq::<bool>::empty());
        let mut cells: Vec<Cell> = Vec::new();
        let mut y: usize = 0;
        while y < height
            invariant
                y <= height,
                size == height * width,
                mines_at@.len() == size,
                cells@.len() == y * width,
                mines == count_true(mines_at@.take(cells@.len() as int)),
                forall|j: int|
                    0 <= j < cells@.len() ==> !(#[trigger] cells@[j]).is_revealed
                        && !cells@[j].is_flagged && cells@[j].is_mine == mines_at@[j],
                forall|cx: int, cy: int|
                    0 <= cx < width && 0 <= cy < y ==> (#[trigger] cells@[cy * width
                        + cx]).adjacent_mines == adjacent_mines_at(
                        mines_at@,
                        width as int,
                        height as int,
                        cx,
                        cy,
                    ),
            decreases height - y,
        {
            let mut x: usize = 0;
            while x < width
                invariant
                    x <= width,
                    y < height,
                    size == height * width,
                    size == width * height,
                    mines_at@.len() == size,
                    cells@.len() == y * width + x,
                    mines == count_true(mines_at@.take(cells@.len() as int)),
                    forall|j: int|
                        0 <= j < cells@.len() ==> !(#[trigger] cells@[j]).is_revealed
                            && !cells@[j].is_flagged && cells@[j].is_mine == mines_at@[j],
                    forall|cx: int, cy: int|
                        (0 <= cx < width && 0 <= cy < y) || (0 <= cx < x && cy == y) ==> (
                        #[trigger] cells@[cy * width + cx]).adjacent_mines == adjacent_mines_at(
                            mines_at@,
                            width as int,
                            height as int,
                            cx,
                            cy,
                        ),
                decreases width - x,
            {
                proof {
                    lemma_index_in_field(x as int, y as int, width as int, height as int);
                }
                let around = adjacent_cells_coord(x, y, width, height);
                let count = Self::count_mines(&mines_at, width, height, x, y, &around);
                let ghost before = cells@;
                proof {
                    let k = before.len() as int;
                    assert(mines_at@.take(k + 1).drop_last() =~= mines_at@.take(k));
                    lemma_count_true_bound(mines_at@.take(k + 1));
                }
                if mines_at[y * width + x] {
                    mines += 1;
                }
                cells.push(
                    Cell {
                        is_mine: mines_at[y * width + x],
                        is_revealed: false,
                        adjacent_mines: count,
                        is_flagged: false,
                    },
                );
                proof {
                    assert forall|cx: int, cy: int|
                        (0 <= cx < width && 0 <= cy < y) || (0 <= cx < x + 1 && cy == y) implies (
                    #[trigger] cells@[cy * width + cx]).adjacent_mines == adjacent_mines_at(
                        mines_at@,
                        width as int,
                        height as int,
                        cx,
                        cy,
                    ) by {
                        if cy == y && cx == x {
                        } else {
                            if cy < y {
                                lemma_index_in_field(cx, cy, width as int, y as int);
                            }
                            assert(cells@[cy * width + cx] == before[cy * width + cx]);
                        }
                    }
                }
                x += 1;
            }
            assert((y + 1) * width == y * width + width) by (nonlinear_arith);
            assert(width * height == height * width) by (nonlinear_arith);
            y += 1;
        }
        proof {
            assert(mines_at@.take(size as int) =~= mines_at@);
            lemma_count_true_bound(mines_at@);
        }
        let board = Board {
            width,
            height,
            cells,
            safe_cells: size - mines,
            revealed_cells: 0,
            revealed_mine: false,
        };
        proof {
            assert(mines_of(board.cells@) =~= mines_at@);
            assert(revealed_of(board.cells@) =~= Seq::new(size as nat, |i: int| false));
            lemma_none_set(size as nat);
        }
        board
    }

    /// Where the cell at column `x` of line `y` stands among the cells.
    fn index_of(&self, x: usize, y: usize) -> (i: usize)
        requires
            self.wf(),
            x < self.width(),
            y < self.height(),
        ensures
            i == self.index(x as int, y as int),
            i < self.cells().len(),
    {
        proof {
            lemma_index_in_field(x as int, y as int, self.width as int, self.height as int);
            assert(self.cells.len() == self.cells@.len());
        }
        y * self.width + x
    }

    /// The cell at column `x` of line `y`.
    pub fn cell_at(&self, x: usize, y: usize) -> (cell: &Cell)
        requires
            self.wf(),
            x < self.width(),
            y < self.height(),
        ensures
            *cell == self.cell(x as int, y as int),
    {
        &self.cells[self.index_of(x, y)]
    }

    /// Whether as many cells are revealed as hold no mine.
    pub fn is_cleared(&self) -> (cleared: bool)
        requires
            self.wf(),
        ensures
            cleared == self.cleared(),
    {
        self.revealed_cells >= self.safe_cells
    }

    /// Whether a mine has been revealed.
    pub fn has_revealed_mine(&self) -> (revealed: bool)
        requires
            self.wf(),
        ensures
            revealed == self.mine_revealed(),
    {
        self.revealed_mine
    }

    /// How many cells are not revealed.
    pub open spec fn hidden_count(&self) -> int {
        self.cells().len() - self.revealed_count()
    }

    /// Sets or takes away the flag of the cell at column `x` of line `y`,
    /// unless the cell is revealed.
    pub fn flag(&mut self, x: usize, y: usize)
        requires
            old(self).wf(),
            x < old(self).width(),
            y < old(self).height(),
        ensures
            flagged_from(old(self), final(self), x as int, y as int),
    {
        let i = self.index_of(x, y);
        let cell = self.cells[i];
        if cell.is_revealed {
            return ;
        }
        self.cells[i] = Cell {
            is_mine: cell.is_mine,
            is_revealed: cell.is_revealed,
            adjacent_mines: cell.adjacent_mines,
            is_flagged: !cell.is_flagged,
        };
        proof {
            assert(mines_of(self.cells@) =~= mines_of(old(self).cells@));
            assert(revealed_of(self.cells@) =~= revealed_of(old(self).cells@));
            assert(self.cells@ == old(self).cells@.update(i as int, self.cells@[i as int]));
            old(self).lemma_same_mines_same_counts(&*self);
            if old(self).mine_revealed() {
                let j = choose|j: int|
                    0 <= j < old(self).cells().len() && (#[trigger] old(self).cells()[j]).is_revealed
                        && old(self).cells()[j].is_mine;
                assert(self.cells()[j].is_revealed && self.cells()[j].is_mine);
            }
        }
    }

    /// Fields of one size whose cells hold the same mines and counts agree
    /// on whether the counts are right.
    proof fn lemma_same_mines_same_counts(&self, other: &Board)
        requires
            self.width == other.width,
            self.height == other.height,
            self.cells@.len() == other.cells@.len(),
            self.width * self.height == self.cells@.len(),
            forall|i: int|
                0 <= i < self.cells@.len() ==> (#[trigger] other.cells@[i]).is_mine
                    == self.cells@[i].is_mine && other.cells@[i].adjacent_mines
                    == self.cells@[i].adjacent_mines,
            self.counts_right(),
        ensures
            other.counts_right(),
            other.mine_count() == self.mine_count(),
    {
        assert(mines_of(other.cells@) =~= mines_of(self.cells@));
        assert forall|x: int, y: int|
            0 <= x < other.width() && 0 <= y < other.height() implies (#[trigger] other.cell(
            x,
            y,
        )).adjacent_mines == adjacent_mines_at(
            mines_of(other.cells()),
            other.width(),
            other.height(),
            x,
            y,
        ) by {
            lemma_index_in_field(x, y, self.width as int, self.height as int);
            assert(self.cell(x, y).adjacent_mines == adjacent_mines_at(
                mines_of(self.cells()),
                self.width(),
                self.height(),
                x,
                y,
            ));
        }
    }

    /// Fields whose cells hold the same mines and are revealed alike
    /// stand alike.
    pub proof fn lemma_same_play(&self, other: &Board)
        requires
            self.cells().len() == other.cells().len(),
            forall|i: int|
                0 <= i < self.cells().len() ==> (#[trigger] other.cells()[i]).is_mine
                    == self.cells()[i].is_mine && other.cells()[i].is_revealed
                    == self.cells()[i].is_revealed,
        ensures
            outcome(self) == outcome(other),
    {
        assert(mines_of(other.cells()) =~= mines_of(self.cells()));
        assert(revealed_of(other.cells()) =~= revealed_of(self.cells()));
        if self.mine_revealed() {
            let j = choose|j: int|
                0 <= j < self.cells().len() && (#[trigger] self.cells()[j]).is_revealed
                    && self.cells()[j].is_mine;
            assert(other.cells()[j].is_revealed && other.cells()[j].is_mine);
        }
        if other.mine_revealed() {
            let j = choose|j: int|
                0 <= j < other.cells().len() && (#[trigger] other.cells()[j]).is_revealed
                    && other.cells()[j].is_mine;
            assert(self.cells()[j].is_revealed && self.cells()[j].is_mine);
        }
    }

    /// No cell has more than eight mines around it.
    pub proof fn lemma_count_small(&self, x: int, y: int)
        requires
            self.wf(),
            0 <= x < self.width(),
            0 <= y < self.height(),
        ensures
            self.cell(x, y).adjacent_mines <= 8,
    {
        lemma_neighbours(x, y, self.width(), self.height());
        lemma_count_at_bound(
            mines_of(self.cells()),
            self.width(),
            neighbours(x, y, self.width(), self.height()),
        );
    }

    /// Reveals the one cell at column `x` of line `y`, which is hidden.
    fn uncover(&mut self, x: usize, y: usize)
        requires
            old(self).wf(),
            x < old(self).width(),
            y < old(self).height(),
            !old(self).cell(x as int, y as int).is_revealed,
        ensures
            final(self).wf(),
            final(self).width() == old(self).width(),
            final(self).height() == old(self).height(),
            final(self).cells() == old(self).cells().update(
                old(self).index(x as int, y as int),
                Cell { is_revealed: true, ..old(self).cell(x as int, y as int) },
            ),
            final(self).hidden_count() == old(self).hidden_count() - 1,
            old(self).hidden_count() > 0,
    {
        let i = self.index_of(x, y);
        let cell = self.cells[i];
        proof {
            lemma_count_true_update(revealed_of(self.cells@), i as int, true);
            lemma_count_true_bound(revealed_of(self.cells@).update(i as int, true));
            assert(!revealed_of(self.cells@)[i as int]);
            assert(self.revealed_cells < self.cells@.len());
        }
        assert(self.revealed_cells < self.cells.len());
        self.cells[i] = Cell {
            is_mine: cell.is_mine,
            is_revealed: true,
            adjacent_mines: cell.adjacent_mines,
            is_flagged: cell.is_flagged,
        };
        self.revealed_cells += 1;
        if cell.is_mine {
            self.revealed_mine = true;
        }
        proof {
            assert(revealed_of(self.cells@) =~= revealed_of(old(self).cells@).update(
                i as int,
                true,
            ));
            old(self).lemma_same_mines_same_counts(&*self);
            if cell.is_mine {
                assert(self.cells()[i as int].is_revealed && self.cells()[i as int].is_mine);
            } else {
                if old(self).mine_revealed() {
                    let j = choose|j: int|
                        0 <= j < old(self).cells().len() && (
                        #[trigger] old(self).cells()[j]).is_revealed && old(self).cells()[j].is_mine;
                    assert(self.cells()[j].is_revealed && self.cells()[j].is_mine);
                }
                if self.mine_revealed() {
                    let j = choose|j: int|
                        0 <= j < self.cells().len() && (#[trigger] self.cells()[j]).is_revealed
                            && self.cells()[j].is_mine;
                    assert(old(self).cells()[j].is_revealed && old(self).cells()[j].is_mine);
                }
            }
        }
    }

    /// Reveals the cell at column `x` of line `y`, unless it is revealed or
    /// bears a flag. Where it holds no mine and none of its neighbours holds
    /// one, its neighbours are revealed in the same way, and so on.
    pub fn reveal_cell(&mut self, x: usize, y: usize)
        requires
            old(self).wf(),
            x < old(self).width(),
            y < old(self).height(),
        ensures
            revealed_from(old(self), final(self), x as int, y as int),
            final(self).hidden_count() <= old(self).hidden_count(),
        decreases old(self).hidden_count(),
    {
        let cell = *self.cell_at(x, y);
        if cell.is_revealed || cell.is_flagged {
            proof {
                assert(justified(old(self), &*self, x as int, y as int));
                lemma_flood_exact(old(self), &*self, x as int, y as int);
            }
            return ;
        }
        self.uncover(x, y);
        let ghost marked = *self;
        proof {
            lemma_index_in_field(x as int, y as int, self.width as int, self.height as int);
            assert(grown(old(self), &marked));
            assert forall|cx: int, cy: int|
                0 <= cx < self.width() && 0 <= cy < self.height() && #[trigger] newly(
                    old(self),
                    &marked,
                    cx,
                    cy,
                ) implies reachable(old(self), x as int, y as int, cx, cy) by {
                lemma_index_in_field(cx, cy, self.width as int, self.height as int);
                if !(cx == x && cy == y) {
                    lemma_index_apart(cx, cy, x as int, y as int, self.width as int);
                }
                let path = seq![(x as int, y as int)];
                assert(route(old(self), path));
                assert(path[0] == (x as int, y as int) && path.last() == (cx, cy));
            }
            assert(justified(old(self), &marked, x as int, y as int));
            assert forall|cx: int, cy: int|
                0 <= cx < marked.width() && 0 <= cy < marked.height() && !(cx == x && cy == y)
                    && #[trigger] opened(old(self), &marked, cx, cy) implies surrounded(
                &marked,
                cx,
                cy,
            ) by {
                lemma_index_in_field(cx, cy, self.width as int, self.height as int);
                lemma_index_apart(cx, cy, x as int, y as int, self.width as int);
            }
        }
        if cell.is_mine || cell.adjacent_mines != 0 {
            proof {
                lemma_flood_exact(old(self), &*self, x as int, y as int);
            }
            return ;
        }
        let around = adjacent_cells_coord(x, y, self.width, self.height);
        proof {
            lemma_neighbours(x as int, y as int, self.width as int, self.height as int);
        }
        let mut k: usize = 0;
        while k < around.len()
            invariant
                k <= around@.len(),
                x < self.width(),
                y < self.height(),
                old(self).wf(),
                self.wf(),
                around@ == neighbours(x as int, y as int, self.width(), self.height()),
                forall|i: int|
                    0 <= i < around@.len() ==> (#[trigger] around@[i]).0 < self.width()
                        && around@[i].1 < self.height() && touches(
                        x as int,
                        y as int,
                        around@[i].0 as int,
                        around@[i].1 as int,
                    ),
                uncovered_but(old(self), &*self, x as int, y as int),
                justified(old(self), &*self, x as int, y as int),
                route_cell(old(self), (x as int, y as int)),
                !old(self).cell(x as int, y as int).is_mine,
                old(self).cell(x as int, y as int).adjacent_mines == 0,
                self.cell(x as int, y as int).is_revealed,
                forall|j: int|
                    0 <= j < k ==> {
                        let place = #[trigger] around@[j];
                        self.cell(place.0 as int, place.1 as int).is_revealed || self.cell(
                            place.0 as int,
                            place.1 as int,
                        ).is_flagged
                    },
                self.hidden_count() < old(self).hidden_count(),
            decreases around@.len() - k,
        {
            let (ax, ay) = around[k];
            let ghost before = *self;
            proof {
                lemma_count_true_bound(revealed_of(self.cells()));
            }
            self.reveal_cell(ax, ay);
            proof {
                lemma_uncovered_more(old(self), &before, &*self, x as int, y as int);
                lemma_grown_at(&before, &*self, x as int, y as int);
                assert(justified(&before, &*self, ax as int, ay as int));
                lemma_justified_more(
                    old(self),
                    &before,
                    &*self,
                    x as int,
                    y as int,
                    ax as int,
                    ay as int,
                );
                assert forall|j: int| 0 <= j < k + 1 implies {
                    let place = #[trigger] around@[j];
                    self.cell(place.0 as int, place.1 as int).is_revealed || self.cell(
                        place.0 as int,
                        place.1 as int,
                    ).is_flagged
                } by {
                    let place = around@[j];
                    lemma_grown_at(&before, &*self, place.0 as int, place.1 as int);
                }
            }
            k += 1;
        }
        proof {
            assert(surrounded(&*self, x as int, y as int));
            assert(uncovered(old(self), &*self));
            lemma_flood_exact(old(self), &*self, x as int, y as int);
        }
    }

    /// How many neighbours of the cell at column `x` of line `y` bear a
    /// flag.
    pub open spec fn flags_around(&self, x: int, y: int) -> nat {
        count_at(
            flagged_of(self.cells()),
            self.width(),
            neighbours(x, y, self.width(), self.height()),
        )
    }

    /// Counts the flags at `around`, the neighbours of the cell at column
    /// `x` of line `y`.
    fn count_flags(&self, x: usize, y: usize, around: &Vec<(usize, usize)>) -> (count: usize)
        requires
            self.wf(),
            x < self.width(),
            y < self.height(),
            around@ == neighbours(x as int, y as int, self.width(), self.height()),
        ensures
            count == self.flags_around(x as int, y as int),
    {
        proof {
            lemma_neighbours(x as int, y as int, self.width as int, self.height as int);
        }
        let mut count: usize = 0;
        let mut k: usize = 0;
        assert(around@.take(0) =~= Seq::<(usize, usize)>::empty());
        while k < around.len()
            invariant
                k <= around@.len() <= 8,
                self.wf(),
                forall|i: int|
                    0 <= i < around@.len() ==> (#[trigger] around@[i]).0 < self.width()
                        && around@[i].1 < self.height(),
                count == count_at(flagged_of(self.cells()), self.width(), around@.take(k as int)),
                count <= k,
            decreases around@.len() - k,
        {
            let (ax, ay) = around[k];
            proof {
                lemma_index_in_field(ax as int, ay as int, self.width as int, self.height as int);
                assert(around@.take(k + 1).drop_last() =~= around@.take(k as int));
            }
            if self.cell_at(ax, ay).is_flagged {
                count += 1;
            }
            k += 1;
        }
        assert(around@.take(k as int) =~= around@);
        count
    }

    /// On a hidden cell, reveals it as `reveal_cell` does. On a revealed
    /// cell with as many flags around it as it has mines around it, reveals
    /// every neighbour as `reveal_cell` does. Does nothing otherwise.
    pub fn chord_reveal(&mut self, x: usize, y: usize)
        requires
            old(self).wf(),
            x < old(self).width(),
            y < old(self).height(),
        ensures
            chorded_from(old(self), final(self), x as int, y as int),
    {
        let cell = *self.cell_at(x, y);
        if !cell.is_revealed {
            self.reveal_cell(x, y);
            return ;
        }
        let around = adjacent_cells_coord(x, y, self.width, self.height);
        let adjacent_flags = self.count_flags(x, y, &around);
        if adjacent_flags != cell.adjacent_mines {
            return ;
        }
        proof {
            lemma_neighbours(x as int, y as int, self.width as int, self.height as int);
        }
        let mut k: usize = 0;
        while k < around.len()
            invariant
                k <= around@.len(),
                x < self.width(),
                y < self.height(),
                old(self).wf(),
                self.wf(),
                around@ == neighbours(x as int, y as int, self.width(), self.height()),
                forall|i: int|
                    0 <= i < around@.len() ==> (#[trigger] around@[i]).0 < self.width()
                        && around@[i].1 < self.height(),
                uncovered(old(self), &*self),
                justified_around(old(self), &*self, x as int, y as int),
                forall|j: int|
                    0 <= j < k ==> {
                        let place = #[trigger] around@[j];
                        self.cell(place.0 as int, place.1 as int).is_revealed || self.cell(
                            place.0 as int,
                            place.1 as int,
                        ).is_flagged
                    },
            decreases around@.len() - k,
        {
            let (ax, ay) = around[k];
            let ghost before = *self;
            if !self.cell_at(ax, ay).is_revealed {
                self.reveal_cell(ax, ay);
                proof {
                    assert(justified(&before, &*self, ax as int, ay as int));
                    lemma_justified_around_more(
                        old(self),
                        &before,
                        &*self,
                        x as int,
                        y as int,
                        k as int,
                    );
                }
            }
            proof {
                lemma_uncovered_twice(old(self), &before, &*self);
                assert forall|j: int| 0 <= j < k + 1 implies {
                    let place = #[trigger] around@[j];
                    self.cell(place.0 as int, place.1 as int).is_revealed || self.cell(
                        place.0 as int,
                        place.1 as int,
                    ).is_flagged
                } by {
                    let place = around@[j];
                    lemma_grown_at(&before, &*self, place.0 as int, place.1 as int);
                }
            }
            k += 1;
        }
        proof {
            lemma_grown_at(old(self), &*self, x as int, y as int);
            assert(surrounded(&*self, x as int, y as int));
            lemma_chord_exact(old(self), &*self, x as int, y as int);
        }
    }

    /// Counts the mines at `around`, the neighbours of the cell at column
    /// `x` of line `y`.
    fn count_mines(
        mines_at: &Vec<bool>,
        width: usize,
        height: usize,
        x: usize,
        y: usize,
        around: &Vec<(usize, usize)>,
    ) -> (count: usize)
        requires
            x < width,
            y < height,
            width * height <= usize::MAX,
            mines_at@.len() == width * height,
            around@ == neighbours(x as int, y as int, width as int, height as int),
        ensures
            count == adjacent_mines_at(mines_at@, width as int, height as int, x as int, y as int),
            count <= 8,
    {
        proof {
            lemma_neighbours(x as int, y as int, width as int, height as int);
        }
        let mut count: usize = 0;
        let mut k: usize = 0;
        assert(around@.take(0) =~= Seq::<(usize, usize)>::empty());
        while k < around.len()
            invariant
                k <= around@.len() <= 8,
                mines_at@.len() == width * height,
                width * height <= usize::MAX,
                forall|i: int|
                    0 <= i < around@.len() ==> (#[trigger] around@[i]).0 < width && around@[i].1
                        < height,
                count == count_at(mines_at@, width as int, around@.take(k as int)),
                count <= k,
            decreases around@.len() - k,
        {
            let (ax, ay) = around[k];
            proof {
                lemma_index_in_field(ax as int, ay as int, width as int, height as int);
                assert(around@.take(k + 1).drop_last() =~= around@.take(k as int));
            }
            if mines_at[ay * width + ax] {
                count += 1;
            }
            k += 1;
        }
        assert(around@.take(k as int) =~= around@);
        count
    }
}

/// How a game has ended.
#[derive(Clone, Copy, Debug, PartialEq, Eq, Structural)]
pub enum GameResult {
    Success,
    Failure,
}

/// The terminal's code for black as a foreground colour.
pub const BLACK: usize = 30;

/// The terminal's code for red as a foreground colour.
pub const RED: usize = 31;

/// The terminal's code for green as a foreground colour.
pub const GREEN: usize = 32;

/// The terminal's code for yellow as a foreground colour.
pub const YELLOW: usize = 33;

/// The terminal's code for blue as a foreground colour.
pub const BLUE: usize = 34;

/// The terminal's code for cyan as a foreground colour.
pub const CYAN: usize = 36;

/// The terminal's code for white as a foreground colour.
pub const WHITE: usize = 37;

/// The terminal's code for gray as a foreground colour.
pub const GRAY: usize = 90;

/// How many difficulties there are.
pub const DIFFICULTIES: usize = 3;

/// Width, height and number of mines of the field of difficulty
/// `difficulty`.
pub open spec fn field_of(difficulty: int) -> (usize, usize, usize) {
    if difficulty == 0 {
        (9, 9, 10)
    } else if difficulty == 1 {
        (16, 16, 40)
    } else {
        (30, 16, 99)
    }
}

/// Width, height and number of mines of the field of difficulty
/// `difficulty`.
pub fn field_for(difficulty: usize) -> (field: (usize, usize, usize))
    requires
        difficulty < DIFFICULTIES,
    ensures
        field == field_of(difficulty as int),
{
    if difficulty == 0 {
        (9, 9, 10)
    } else if difficulty == 1 {
        (16, 16, 40)
    } else {
        (30, 16, 99)
    }
}

/// How a game on `board` stands: lost once a mine is revealed, won once all
/// else is revealed, and open until then.
pub open spec fn outcome(board: &Board) -> Option<GameResult> {
    if board.mine_revealed() {
        Some(GameResult::Failure)
    } else if board.cleared() {
        Some(GameResult::Success)
    } else {
        None
    }
}

/// Whether `after` is what `Board::reveal_cell` may make of `before` at
/// column `x` of line `y`.
pub open spec fn revealed_from(before: &Board, after: &Board, x: int, y: int) -> bool {
    &&& after.wf()
    &&& uncovered(before, after)
    &&& before.cell(x, y).is_revealed || before.cell(x, y).is_flagged ==> after.cells()
        == before.cells()
    &&& !before.cell(x, y).is_flagged ==> after.cell(x, y).is_revealed
    &&& before.cell(x, y).is_mine || before.cell(x, y).adjacent_mines != 0 ==> forall|i: int|
        0 <= i < before.cells().len() && i != before.index(x, y) ==> after.cells()[i]
            == before.cells()[i]
    &&& forall|cx: int, cy: int|
        0 <= cx < before.width() && 0 <= cy < before.height() ==> (#[trigger] newly(
            before,
            after,
            cx,
            cy,
        ) <==> reachable(before, x, y, cx, cy))
}

/// Whether `after` is what `Board::chord_reveal` may make of `before` at
/// column `x` of line `y`.
pub open spec fn chorded_from(before: &Board, after: &Board, x: int, y: int) -> bool {
    &&& after.wf()
    &&& uncovered(before, after)
    &&& !before.cell(x, y).is_flagged ==> after.cell(x, y).is_revealed
    &&& !before.cell(x, y).is_revealed ==> revealed_from(before, after, x, y)
    &&& before.cell(x, y).is_revealed && before.flags_around(x, y) != before.cell(
        x,
        y,
    ).adjacent_mines ==> after.cells() == before.cells()
    &&& before.cell(x, y).is_revealed && before.flags_around(x, y) == before.cell(
        x,
        y,
    ).adjacent_mines ==> {
        &&& surrounded(after, x, y)
        &&& forall|cx: int, cy: int|
            0 <= cx < before.width() && 0 <= cy < before.height() ==> (#[trigger] newly(
                before,
                after,
                cx,
                cy,
            ) <==> reachable_around(before, x, y, cx, cy))
    }
}

/// Whether `after` is what `Board::flag` makes of `before` at column `x` of
/// line `y`.
pub open spec fn flagged_from(before: &Board, after: &Board, x: int, y: int) -> bool {
    &&& after.wf()
    &&& after.width() == before.width()
    &&& after.height() == before.height()
    &&& after.cells() == if before.cell(x, y).is_revealed {
        before.cells()
    } else {
        before.cells().update(
            before.index(x, y),
            Cell { is_flagged: !before.cell(x, y).is_flagged, ..before.cell(x, y) },
        )
    }
}

/// The game: a mine field, a cursor on it, and how the game stands.
pub struct MineSweeper {
    cursor_x: usize,
    cursor_y: usize,
    difficulty: usize,
    board: Board,
    result: Option<GameResult>,
}

impl MineSweeper {
    /// The column that the cursor is in.
    pub closed spec fn cursor_x(&self) -> int {
        self.cursor_x as int
    }

    /// The line that the cursor is in.
    pub closed spec fn cursor_y(&self) -> int {
        self.cursor_y as int
    }

    /// The difficulty of the game.
    pub closed spec fn difficulty(&self) -> int {
        self.difficulty as int
    }

    /// The mine field.
    pub closed spec fn board(&self) -> Board {
        self.board
    }

    /// How the game has ended, if it has.
    pub closed spec fn result(&self) -> Option<GameResult> {
        self.result
    }

    /// The game's invariant: the field has the size that the difficulty
    /// asks for, the cursor is on the field, and the game stands as the
    /// field says.
    pub open spec fn wf(&self) -> bool {
        &&& 0 <= self.difficulty() < DIFFICULTIES
        &&& self.board().wf()
        &&& self.board().width() == field_of(self.difficulty()).0
        &&& self.board().height() == field_of(self.difficulty()).1
        &&& 0 <= self.cursor_x() < self.board().width()
        &&& 0 <= self.cursor_y() < self.board().height()
        &&& self.result() == outcome(&self.board())
    }

    /// Whether the game is a new game of difficulty `difficulty`: the
    /// cursor is at the top left, the field holds as many mines as the
    /// difficulty asks for, and no cell is revealed or flagged.
    pub open spec fn fresh(&self, difficulty: int) -> bool {
        &&& self.wf()
        &&& self.difficulty() == difficulty
        &&& self.cursor_x() == 0
        &&& self.cursor_y() == 0
        &&& self.result() is None
        &&& self.board().mine_count() == field_of(difficulty).2
        &&& forall|i: int|
            0 <= i < self.board().cells().len() ==> !(#[trigger] self.board().cells()[i]).is_revealed
                && !self.board().cells()[i].is_flagged
    }

    /// Whether `next` is this game with the cursor moved by `x` columns
    /// and `y` lines, around the edges of the field; a game that has ended
    /// stays as it is.
    pub open spec fn moved(&self, x: int, y: int, next: &Self) -> bool {
        &&& next.difficulty() == self.difficulty()
        &&& next.board() == self.board()
        &&& next.result() == self.result()
        &&& next.cursor_x() == if self.result() is Some {
            self.cursor_x()
        } else {
            (self.cursor_x() + x) % self.board().width()
        }
        &&& next.cursor_y() == if self.result() is Some {
            self.cursor_y()
        } else {
            (self.cursor_y() + y) % self.board().height()
        }
    }

    /// Whether `next` is this game after the cell under the cursor has
    /// been revealed, by a chord where `chord` is set; a game that has ended
    /// stays as it is, and so does one whose cursor is on a flag.
    pub open spec fn uncovered_to(&self, chord: bool, next: &Self) -> bool {
        &&& next.difficulty() == self.difficulty()
        &&& next.cursor_x() == self.cursor_x()
        &&& next.cursor_y() == self.cursor_y()
        &&& if self.result() is Some || self.board().cell(
            self.cursor_x(),
            self.cursor_y(),
        ).is_flagged {
            next.board() == self.board() && next.result() == self.result()
        } else {
            &&& next.result() == outcome(&next.board())
            &&& if chord {
                chorded_from(&self.board(), &next.board(), self.cursor_x(), self.cursor_y())
            } else {
                revealed_from(&self.board(), &next.board(), self.cursor_x(), self.cursor_y())
            }
        }
    }

    /// Whether `next` is this game after the flag of the cell under the
    /// cursor has been set or taken away; a game that has ended stays as it
    /// is.
    pub open spec fn flagged_to(&self, next: &Self) -> bool {
        &&& next.difficulty() == self.difficulty()
        &&& next.cursor_x() == self.cursor_x()
        &&& next.cursor_y() == self.cursor_y()
        &&& next.result() == self.result()
        &&& if self.result() is Some {
            next.board() == self.board()
        } else {
            flagged_from(&self.board(), &next.board(), self.cursor_x(), self.cursor_y())
        }
    }

    /// A new game of difficulty `difficulty`.
    pub fn new(difficulty: usize) -> (game: Self)
        requires
            difficulty < DIFFICULTIES,
        ensures
            game.fresh(difficulty as int),
    {
        let (width, height, mines) = field_for(difficulty);
        let board = Board::new(width, height, mines);
        proof {
            lemma_count_true_bound(revealed_of(board.cells()));
            assert(revealed_of(board.cells()) =~= Seq::new(board.cells().len(), |i: int| false));
            lemma_none_set(board.cells().len());
        }
        MineSweeper { cursor_x: 0, cursor_y: 0, difficulty, board, result: None }
    }

    /// Moves the cursor by `x` columns and `y` lines, around the edges of
    /// the field. Does nothing once the game has ended.
    pub fn move_cursor(&mut self, x: isize, y: isize)
        requires
            old(self).wf(),
        ensures
            final(self).wf(),
            old(self).moved(x as int, y as int, final(self)),
    {
        if self.result.is_some() {
            return ;
        }
        let width = self.board.width;
        let height = self.board.height;
        let by_x = match x.checked_rem_euclid(width as isize) {
            Some(by_x) => by_x as usize,
            None => 0,
        };
        let by_y = match y.checked_rem_euclid(height as isize) {
            Some(by_y) => by_y as usize,
            None => 0,
        };
        proof {
            let w = width as int;
            let h = height as int;
            vstd::arithmetic::div_mod::lemma_mod_bound(x as int, w);
            vstd::arithmetic::div_mod::lemma_mod_bound(y as int, h);
            vstd::arithmetic::div_mod::lemma_add_mod_noop_right(self.cursor_x as int, x as int, w);
            vstd::arithmetic::div_mod::lemma_add_mod_noop_right(self.cursor_y as int, y as int, h);
            vstd::arithmetic::div_mod::lemma_mod_bound(self.cursor_x + by_x, w);
            vstd::arithmetic::div_mod::lemma_mod_bound(self.cursor_y + by_y, h);
        }
        self.cursor_x = (self.cursor_x + by_x) % width;
        self.cursor_y = (self.cursor_y + by_y) % height;
    }

    /// Reveals the cell under the cursor, by a chord where `chord` is set,
    /// and settles whether the game is lost or won. Does nothing once the
    /// game has ended, or where the cell bears a flag.
    pub fn reveal_cell(&mut self, chord: bool)
        requires
            old(self).wf(),
        ensures
            final(self).wf(),
            old(self).uncovered_to(chord, final(self)),
    {
        if self.result.is_some() || self.board.cell_at(self.cursor_x, self.cursor_y).is_flagged {
            return ;
        }
        if chord {
            self.board.chord_reveal(self.cursor_x, self.cursor_y);
        } else {
            self.board.reveal_cell(self.cursor_x, self.cursor_y);
        }
        if self.board.has_revealed_mine() {
            self.result = Some(GameResult::Failure);
        } else if self.board.is_cleared() {
            self.result = Some(GameResult::Success);
        }
    }

    /// Sets or takes away the flag of the cell under the cursor. Does
    /// nothing once the game has ended.
    pub fn flag(&mut self)
        requires
            old(self).wf(),
        ensures
            final(self).wf(),
            old(self).flagged_to(final(self)),
    {
        if self.result.is_none() {
            self.board.flag(self.cursor_x, self.cursor_y);
            proof {
                let before = old(self).board;
                lemma_index_in_field(
                    self.cursor_x as int,
                    self.cursor_y as int,
                    before.width(),
                    before.height(),
                );
                assert forall|i: int| 0 <= i < self.board.cells().len() implies (
                #[trigger] before.cells()[i]).is_mine == self.board.cells()[i].is_mine
                    && before.cells()[i].is_revealed == self.board.cells()[i].is_revealed by {}
                self.board.lemma_same_play(&before);
            }
        }
    }
}

/// The colour that the number of mines around a cell is written in.
pub open spec fn number_color(count: int) -> usize {
    if count == 1 || count == 7 {
        CYAN
    } else if count == 2 || count == 6 {
        GREEN
    } else if count == 3 || count == 5 {
        RED
    } else if count == 4 {
        BLUE
    } else {
        BLACK
    }
}

/// The three characters that show the number of mines around a cell.
pub open spec fn number_text(count: int) -> Seq<char> {
    if count == 1 {
        " 1 "@
    } else if count == 2 {
        " 2 "@
    } else if count == 3 {
        " 3 "@
    } else if count == 4 {
        " 4 "@
    } else if count == 5 {
        " 5 "@
    } else if count == 6 {
        " 6 "@
    } else if count == 7 {
        " 7 "@
    } else {
        " 8 "@
    }
}

/// The background colour of a cell: yellow under the cursor, white where
/// it is revealed, gray where it is hidden.
pub open spec fn ground_of(cell: Cell, under_cursor: bool) -> usize {
    if under_cursor {
        YELLOW
    } else if cell.is_revealed {
        WHITE
    } else {
        GRAY
    }
}

/// The three screen cells that show `cell`: a revealed cell shows its mine,
/// the number of mines around it, or nothing; a hidden one shows a box,
/// with its flag where it bears one.
pub open spec fn cell_picture(cell: Cell, under_cursor: bool) -> Seq<Character> {
    let ground = (ground_of(cell, under_cursor) + 10) as usize;
    if cell.is_revealed {
        if cell.is_mine {
            crate::screen::cells_of(" X "@, Some((RED, ground)))
        } else if cell.adjacent_mines > 0 {
            crate::screen::cells_of(
                number_text(cell.adjacent_mines as int),
                Some((number_color(cell.adjacent_mines as int), ground)),
            )
        } else {
            crate::screen::cells_of("   "@, Some((WHITE, ground)))
        }
    } else if cell.is_flagged {
        crate::screen::cells_of("["@, Some((WHITE, ground))) + crate::screen::cells_of(
            "F"@,
            Some((RED, ground)),
        ) + crate::screen::cells_of("]"@, Some((WHITE, ground)))
    } else {
        crate::screen::cells_of("[ ]"@, Some((WHITE, ground)))
    }
}

/// The lines below the field: the word on how the game has ended, or the
/// keys that play it.
pub open spec fn status_lines(result: Option<GameResult>) -> Seq<Seq<Character>> {
    match result {
        Some(GameResult::Success) => seq![
            crate::screen::cells_of("All safe cells revealed! You win! Press R to retry"@, None),
        ],
        Some(GameResult::Failure) => seq![
            crate::screen::cells_of("You lose... Press R to retry"@, None),
        ],
        None => seq![
            crate::screen::cells_of(
                "Arrow (or HJKL) - Move cursor, A - Reveal, Space - Reveal (Can perform \"Chord\"), F - Flag"@,
                None,
            ),
            crate::screen::cells_of("R - Retry, C - Change difficulty"@, None),
        ],
    }
}

impl MineSweeper {
    /// The screen cells that show the first `upto` cells of line `y` of
    /// the field.
    pub open spec fn line_upto(&self, y: int, upto: nat) -> Seq<Character>
        decreases upto,
    {
        if upto == 0 {
            Seq::empty()
        } else {
            let x = upto - 1;
            self.line_upto(y, x as nat) + cell_picture(
                self.board().cell(x, y),
                self.cursor_x() == x && self.cursor_y() == y,
            )
        }
    }

    /// The screen cells that show line `y` of the field.
    pub open spec fn line(&self, y: int) -> Seq<Character> {
        self.line_upto(y, self.board().width() as nat)
    }

    /// The first `upto` lines of the field on the screen.
    pub open spec fn lines_upto(&self, upto: nat) -> Seq<Seq<Character>> {
        Seq::new(upto, |y: int| self.line(y))
    }

    /// What the game shows: the field, line by line, and the status lines
    /// below it.
    pub open spec fn screen(&self) -> Seq<Seq<Character>> {
        self.lines_upto(self.board().height() as nat) + status_lines(self.result())
    }

    /// Draws the cell at column `x` of line `y` at the end of the current
    /// line of `screen`.
    fn draw_cell(&self, screen: &mut ScreenBuffer, x: usize, y: usize)
        requires
            self.wf(),
            x < self.board().width(),
            y < self.board().height(),
        ensures
            final(screen)@ == old(screen)@.update(
                old(screen)@.len() - 1,
                old(screen)@.last() + cell_picture(
                    self.board().cell(x as int, y as int),
                    self.cursor_x() == x && self.cursor_y() == y,
                ),
            ),
    {
        let cell = *self.board.cell_at(x, y);
        let ghost start = screen@;
        proof {
            screen.lemma_has_line();
            self.board.lemma_count_small(x as int, y as int);
        }
        let bg = if self.cursor_x == x && self.cursor_y == y {
            YELLOW
        } else if cell.is_revealed {
            WHITE
        } else {
            GRAY
        };
        if cell.is_revealed {
            if cell.is_mine {
                screen.write_color(" X ", RED, bg);
            } else if cell.adjacent_mines > 0 {
                let text = if cell.adjacent_mines == 1 {
                    " 1 "
                } else if cell.adjacent_mines == 2 {
                    " 2 "
                } else if cell.adjacent_mines == 3 {
                    " 3 "
                } else if cell.adjacent_mines == 4 {
                    " 4 "
                } else if cell.adjacent_mines == 5 {
                    " 5 "
                } else if cell.adjacent_mines == 6 {
                    " 6 "
                } else if cell.adjacent_mines == 7 {
                    " 7 "
                } else {
                    " 8 "
                };
                let fg = if cell.adjacent_mines == 1 || cell.adjacent_mines == 7 {
                    CYAN
                } else if cell.adjacent_mines == 2 || cell.adjacent_mines == 6 {
                    GREEN
                } else if cell.adjacent_mines == 3 || cell.adjacent_mines == 5 {
                    RED
                } else if cell.adjacent_mines == 4 {
                    BLUE
                } else {
                    BLACK
                };
                screen.write_color(text, fg, bg);
            } else {
                screen.write_color("   ", WHITE, bg);
            }
        } else if cell.is_flagged {
            screen.write_color("[", WHITE, bg);
            screen.write_color("F", RED, bg);
            screen.write_color("]", WHITE, bg);
            proof {
                let ground = (bg + 10) as usize;
                let a = crate::screen::cells_of("["@, Some((WHITE, ground)));
                let b = crate::screen::cells_of("F"@, Some((RED, ground)));
                let c = crate::screen::cells_of("]"@, Some((WHITE, ground)));
                assert(((start.last() + a) + b) + c =~= start.last() + (a + b + c));
                assert(screen@ =~= start.update(start.len() - 1, start.last() + (a + b + c)));
            }
        } else {
            screen.write_color("[ ]", WHITE, bg);
        }
    }
}

impl Game for MineSweeper {
    open spec fn valid(&self) -> bool {
        self.wf()
    }

    open spec fn draws(&self, picture: Seq<Seq<Character>>) -> bool {
        picture == self.screen()
    }

    /// The arrow keys and `H`, `J`, `K`, `L` move the cursor; `F` sets or
    /// takes away a flag; `A` reveals a cell and the space bar reveals by
    /// a chord; `R` starts the game anew and `C` starts one of the next
    /// difficulty. No other key does anything.
    open spec fn key_step(&self, key: Key, next: &Self) -> bool {
        match key {
            Key::ArrowUp => self.moved(0, -1, next),
            Key::ArrowDown => self.moved(0, 1, next),
            Key::ArrowLeft => self.moved(-1, 0, next),
            Key::ArrowRight => self.moved(1, 0, next),
            Key::Character(c) => if c == 'k' || c == 'K' {
                self.moved(0, -1, next)
            } else if c == 'j' || c == 'J' {
                self.moved(0, 1, next)
            } else if c == 'h' || c == 'H' {
                self.moved(-1, 0, next)
            } else if c == 'l' || c == 'L' {
                self.moved(1, 0, next)
            } else if c == 'f' || c == 'F' {
                self.flagged_to(next)
            } else if c == ' ' {
                self.uncovered_to(true, next)
            } else if c == 'a' || c == 'A' {
                self.uncovered_to(false, next)
            } else if c == 'c' || c == 'C' {
                next.fresh((self.difficulty() + 1) % (DIFFICULTIES as int))
            } else if c == 'r' || c == 'R' {
                next.fresh(self.difficulty())
            } else {
                next == self
            },
            _ => next == self,
        }
    }

    /// Time does not touch the game.
    open spec fn tick_step(&self, next: &Self) -> bool {
        next == self
    }

    fn render(&self) -> (buffer: ScreenBuffer) {
        let mut screen = ScreenBuffer::new();
        let mut y: usize = 0;
        assert(screen@ =~= self.lines_upto(0).push(Seq::empty()));
        while y < self.board.height
            invariant
                self.wf(),
                y <= self.board().height(),
                screen@ == self.lines_upto(y as nat).push(Seq::empty()),
            decreases self.board().height() - y,
        {
            let mut x: usize = 0;
            while x < self.board.width
                invariant
                    self.wf(),
                    y < self.board().height(),
                    x <= self.board().width(),
                    screen@ == self.lines_upto(y as nat).push(self.line_upto(y as int, x as nat)),
                decreases self.board().width() - x,
            {
                self.draw_cell(&mut screen, x, y);
                assert(screen@ =~= self.lines_upto(y as nat).push(
                    self.line_upto(y as int, (x + 1) as nat),
                ));
                x += 1;
            }
            screen.new_line();
            assert(screen@ =~= self.lines_upto((y + 1) as nat).push(Seq::empty()));
            y += 1;
        }
        let ghost field = self.lines_upto(self.board().height() as nat);
        match self.result {
            Some(GameResult::Success) => {
                screen.write("All safe cells revealed! You win! Press R to retry");
            },
            Some(GameResult::Failure) => {
                screen.write("You lose... Press R to retry");
            },
            None => {
                screen.write(
                    "Arrow (or HJKL) - Move cursor, A - Reveal, Space - Reveal (Can perform \"Chord\"), F - Flag",
                );
                screen.new_line();
                screen.write("R - Retry, C - Change difficulty");
            },
        }
        assert(screen@ =~= field + status_lines(self.result()));
        screen
    }

    fn process_key(&mut self, key: Key) {
        match key {
            Key::Character('k') | Key::Character('K') | Key::ArrowUp => self.move_cursor(0, -1),
            Key::Character('j') | Key::Character('J') | Key::ArrowDown => self.move_cursor(0, 1),
            Key::Character('h') | Key::Character('H') | Key::ArrowLeft => self.move_cursor(-1, 0),
            Key::Character('l') | Key::Character('L') | Key::ArrowRight => self.move_cursor(1, 0),
            Key::Character('f') | Key::Character('F') => self.flag(),
            Key::Character(' ') => self.reveal_cell(true),
            Key::Character('a') | Key::Character('A') => self.reveal_cell(false),
            Key::Character('c') | Key::Character('C') => {
                let difficulty = (self.difficulty + 1) % DIFFICULTIES;
                *self = MineSweeper::new(difficulty);
            },
            Key::Character('r') | Key::Character('R') => {
                *self = MineSweeper::new(self.difficulty);
            },
            _ => (),
        }
    }

    fn tick(&mut self) {
    }
}

/// Of flags that are all down, none is set.
proof fn lemma_none_set(n: nat)
    ensures
        count_true(Seq::new(n, |i: int| false)) == 0,
    decreases n,
{
    if n > 0 {
        lemma_none_set((n - 1) as nat);
        assert(Seq::new(n, |i: int| false).drop_last() =~= Seq::new((n - 1) as nat, |i: int| false));
    }
}

} // verus!
