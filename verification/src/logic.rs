//! Where the cells of each player are, where a piece may go, and which
//! of the places it may go is the best one.

use vstd::prelude::*;
use crate::grid::{
    grid_min, grid_scan, grid_sum, lemma_grid_min, lemma_grid_min_lower, lemma_grid_scan,
    lemma_grid_sum_bounds, lemma_grid_sum_one, lemma_grid_sum_partial, lemma_grid_sum_single,
    lemma_row_min, min_int, only_one_at, row_min, row_scan, row_sum, zero_one,
};
use crate::models::{fits_in_memory, Board, Piece, Player};

verus! {

// ----------------------------------------------------------------------
// The players' cells and the distances between them
// ----------------------------------------------------------------------

/// Picks the characters that mark one of our cells.
pub open spec fn own_mark(player: Player) -> spec_fn(char) -> bool {
    |c: char| player.owns(c)
}

/// Picks the characters that mark one of the opponent's cells, ours
/// being checked first.
pub open spec fn opponent_mark(player: Player) -> spec_fn(char) -> bool {
    |c: char| player.opponent_only(c)
}

/// Our cells on the board, as `(row, column)`, row by row.
pub open spec fn own_cells(map: &Board, player: Player) -> Seq<(usize, usize)> {
    grid_scan(map.cells(), map.height as int, map.width as int, own_mark(player))
}

/// The opponent's cells on the board, as `(row, column)`, row by row.
pub open spec fn opponent_cells(map: &Board, player: Player) -> Seq<(usize, usize)> {
    grid_scan(map.cells(), map.height as int, map.width as int, opponent_mark(player))
}

/// The absolute value of an integer.
pub open spec fn abs(a: int) -> int {
    if a < 0 { -a } else { a }
}

/// The Manhattan distance from `(y, x)` to the cell `b`.
pub open spec fn manhattan(y: int, x: int, b: (usize, usize)) -> int {
    abs(y - b.0) + abs(x - b.1)
}

/// The least of `usize::MAX` and the distances from `(y, x)` to the cells
/// of `targets`.
pub open spec fn nearest(y: int, x: int, targets: Seq<(usize, usize)>) -> int
    decreases targets.len(),
{
    if targets.len() == 0 {
        usize::MAX as int
    } else {
        min_int(nearest(y, x, targets.drop_last()), manhattan(y, x, targets.last()))
    }
}

/// The least of `usize::MAX` and the distances from a cell of `from` to a
/// cell of `to`.
pub open spec fn closest_pair(from: Seq<(usize, usize)>, to: Seq<(usize, usize)>) -> int
    decreases from.len(),
{
    if from.len() == 0 {
        usize::MAX as int
    } else {
        min_int(closest_pair(from.drop_last(), to), nearest(from.last().0 as int, from.last().1 as int, to))
    }
}

/// The least distance between one of our cells and one of the opponent's,
/// or `usize::MAX` where either player has no cell.
pub open spec fn players_distance(map: &Board, player: Player) -> int {
    closest_pair(own_cells(map, player), opponent_cells(map, player))
}

// ----------------------------------------------------------------------
// Where a piece may go
// ----------------------------------------------------------------------

/// No block of the piece, put with its top left corner at `(by, bx)`,
/// lands on a row or column that `usize` cannot number.
pub open spec fn offsets_fit(piece: &Piece, by: int, bx: int) -> bool {
    forall|py: int, px: int|
        0 <= py < piece.height && 0 <= px < piece.width && #[trigger] piece.is_block(py, px)
            ==> by + py <= usize::MAX && bx + px <= usize::MAX
}

/// Every block of the piece, put at `(by, bx)`, lands on the board.
pub open spec fn lands_inside(map: &Board, piece: &Piece, by: int, bx: int) -> bool {
    forall|py: int, px: int|
        0 <= py < piece.height && 0 <= px < piece.width && #[trigger] piece.is_block(py, px)
            ==> by + py < map.height && bx + px < map.width
}

/// No block of the piece, put at `(by, bx)`, covers a cell of the opponent.
pub open spec fn avoids_opponent(map: &Board, piece: &Piece, player: Player, by: int, bx: int) -> bool {
    forall|py: int, px: int|
        0 <= py < piece.height && 0 <= px < piece.width && #[trigger] piece.is_block(py, px)
            ==> !player.opponent_only(map.cell(by + py, bx + px))
}

/// 1 where the block at `(py, px)` of the piece put at `(by, bx)` covers
/// one of our cells, else 0.
pub open spec fn covers_own(map: &Board, piece: &Piece, player: Player, by: int, bx: int) -> spec_fn(int, int) -> int {
    |py: int, px: int|
        if piece.is_block(py, px) && by + py < map.height && bx + px < map.width
            && player.owns(map.cell(by + py, bx + px)) {
            1int
        } else {
            0int
        }
}

/// How many of our cells the piece, put at `(by, bx)`, covers.
pub open spec fn own_overlap(map: &Board, piece: &Piece, player: Player, by: int, bx: int) -> int {
    grid_sum(piece.height as int, piece.width as int, covers_own(map, piece, player, by, bx))
}

/// The piece may go at `(by, bx)`: all its blocks land on the board, none
/// on the opponent's cells, and exactly one on ours.
pub open spec fn placeable(map: &Board, piece: &Piece, player: Player, by: int, bx: int) -> bool {
    &&& lands_inside(map, piece, by, bx)
    &&& avoids_opponent(map, piece, player, by, bx)
    &&& own_overlap(map, piece, player, by, bx) == 1
}

/// Scans the board for the cells of each player: ours, then the
/// opponent's, each as `(row, column)` row by row. A cell counts as ours
/// if it holds one of our marks, else as the opponent's if it holds one
/// of theirs.
pub fn get_positions(map: &Board, player: &Player) -> (r: (Vec<(usize, usize)>, Vec<(usize, usize)>))
    requires
        map.wf(),
    ensures
        r.0@ == own_cells(map, *player),
        r.1@ == opponent_cells(map, *player),
{
    let mut my_positions: Vec<(usize, usize)> = Vec::new();
    let mut enemy_positions: Vec<(usize, usize)> = Vec::new();
    let ghost mine = own_mark(*player);
    let ghost theirs = opponent_mark(*player);
    let mut y: usize = 0;
    while y < map.height
        invariant
            map.wf(),
            y <= map.height,
            mine == own_mark(*player),
            theirs == opponent_mark(*player),
            my_positions@ == grid_scan(map.cells(), y as int, map.width as int, mine),
            enemy_positions@ == grid_scan(map.cells(), y as int, map.width as int, theirs),
        decreases map.height - y,
    {
        let row = &map.grid[y];
        assert(row@ == map.cells()[y as int]);
        let mut x: usize = 0;
        while x < map.width
            invariant
                map.wf(),
                y < map.height,
                x <= map.width,
                row@ == map.cells()[y as int],
                row@.len() == map.width,
                mine == own_mark(*player),
                theirs == opponent_mark(*player),
                my_positions@ == grid_scan(map.cells(), y as int, map.width as int, mine)
                    + row_scan(row@, y as int, x as int, mine),
                enemy_positions@ == grid_scan(map.cells(), y as int, map.width as int, theirs)
                    + row_scan(row@, y as int, x as int, theirs),
            decreases map.width - x,
        {
            let cell = row[x];
            if cell == player.p1 || cell == player.p1_alt {
                my_positions.push((y, x));
            } else if cell == player.p2 || cell == player.p2_alt {
                enemy_positions.push((y, x));
            }
            x += 1;
        }
        y += 1;
    }
    (my_positions, enemy_positions)
}

/// Tells whether the piece may go with its top left corner at
/// `(board_y, board_x)`: all its blocks on the board, none of them on a
/// cell of the opponent and exactly one on a cell of ours.
pub fn can_place(map: &Board, piece: &Piece, player: &Player, board_y: usize, board_x: usize) -> (r: bool)
    requires
        map.wf(),
        piece.wf(),
        offsets_fit(piece, board_y as int, board_x as int),
    ensures
        r == placeable(map, piece, *player, board_y as int, board_x as int),
{
    let ghost f = covers_own(map, piece, *player, board_y as int, board_x as int);
    let mut overlap_count: usize = 0;
    let mut py: usize = 0;
    while py < piece.height
        invariant
            map.wf(),
            piece.wf(),
            offsets_fit(piece, board_y as int, board_x as int),
            f == covers_own(map, piece, *player, board_y as int, board_x as int),
            py <= piece.height,
            overlap_count == grid_sum(py as int, piece.width as int, f),
            overlap_count <= 1,
            forall|yy: int, xx: int|
                0 <= yy < py && 0 <= xx < piece.width && #[trigger] piece.is_block(yy, xx) ==> {
                    &&& board_y + yy < map.height
                    &&& board_x + xx < map.width
                    &&& !player.opponent_only(map.cell(board_y + yy, board_x + xx))
                },
        decreases piece.height - py,
    {
        let row = &piece.shape[py];
        assert(row@ == piece.cells()[py as int]);
        let mut px: usize = 0;
        while px < piece.width
            invariant
                map.wf(),
                piece.wf(),
                offsets_fit(piece, board_y as int, board_x as int),
                f == covers_own(map, piece, *player, board_y as int, board_x as int),
                py < piece.height,
                px <= piece.width,
                row@ == piece.cells()[py as int],
                row@.len() == piece.width,
                overlap_count == grid_sum(py as int, piece.width as int, f) + row_sum(py as int, px as int, f),
                overlap_count <= 1,
                forall|yy: int, xx: int|
                    0 <= yy < py && 0 <= xx < piece.width && #[trigger] piece.is_block(yy, xx) ==> {
                        &&& board_y + yy < map.height
                        &&& board_x + xx < map.width
                        &&& !player.opponent_only(map.cell(board_y + yy, board_x + xx))
                    },
                forall|xx: int|
                    0 <= xx < px && #[trigger] piece.is_block(py as int, xx) ==> {
                        &&& board_y + py < map.height
                        &&& board_x + xx < map.width
                        &&& !player.opponent_only(map.cell(board_y + py, board_x + xx))
                    },
            decreases piece.width - px,
        {
            if row[px] == 'O' {
                assert(piece.is_block(py as int, px as int));
                let y = board_y + py;
                let x = board_x + px;
                if y >= map.height || x >= map.width {
                    return false;
                }
                proof { map.lemma_row(y as int); }
                let cell = map.grid[y][x];
                assert(cell == map.cell(y as int, x as int));
                if cell == player.p1 || cell == player.p1_alt {
                    overlap_count += 1;
                    if overlap_count > 1 {
                        proof {
                            assert forall|yy: int, xx: int|
                                0 <= yy < piece.height && 0 <= xx < piece.width implies #[trigger] f(yy, xx) >= 0 by {}
                            lemma_grid_sum_partial(piece.height as int, piece.width as int, py as int, px + 1, f);
                        }
                        return false;
                    }
                } else if cell == player.p2 || cell == player.p2_alt {
                    return false;
                }
            }
            px += 1;
        }
        py += 1;
    }
    overlap_count == 1
}

// ----------------------------------------------------------------------
// Counting
// ----------------------------------------------------------------------

/// 1 where `(y, x)` is on the board and holds a mark of the opponent, else 0.
pub open spec fn opponent_at(map: &Board, player: Player, y: int, x: int) -> int {
    if 0 <= y < map.height && 0 <= x < map.width && player.opponent_owns(map.cell(y, x)) {
        1
    } else {
        0
    }
}

/// For the block at `(py, px)` of the piece put at `(by, bx)`: how many of
/// the four cells beside it (above, below, left, right) hold a mark of the
/// opponent; 0 for a cell of the piece that is not a block.
pub open spec fn contacts_at(map: &Board, piece: &Piece, player: Player, by: int, bx: int) -> spec_fn(int, int) -> int {
    |py: int, px: int|
        if piece.is_block(py, px) {
            opponent_at(map, player, by + py - 1, bx + px) + opponent_at(map, player, by + py + 1, bx + px)
                + opponent_at(map, player, by + py, bx + px - 1) + opponent_at(map, player, by + py, bx + px + 1)
        } else {
            0
        }
}

/// How many times a block of the piece put at `(by, bx)` is beside a cell
/// of the opponent: a cell beside two blocks counts twice.
pub open spec fn opponent_contacts(map: &Board, piece: &Piece, player: Player, by: int, bx: int) -> int {
    grid_sum(piece.height as int, piece.width as int, contacts_at(map, piece, player, by, bx))
}

/// 1 for a block of the piece, else 0.
pub open spec fn block_at(piece: &Piece) -> spec_fn(int, int) -> int {
    |py: int, px: int| if piece.is_block(py, px) { 1int } else { 0int }
}

/// How many blocks the piece has.
pub open spec fn block_count(piece: &Piece) -> int {
    grid_sum(piece.height as int, piece.width as int, block_at(piece))
}

/// For every block of the piece put at `(by, bx)`, the rows and columns
/// beside it can be numbered by a `usize`.
pub open spec fn neighbours_fit(piece: &Piece, by: int, bx: int) -> bool {
    forall|py: int, px: int|
        0 <= py < piece.height && 0 <= px < piece.width && #[trigger] piece.is_block(py, px)
            ==> by + py + 1 <= usize::MAX && bx + px + 1 <= usize::MAX
}

/// Counts how many times a block of the piece, put at `(board_y, board_x)`,
/// touches a cell of the opponent on one of its four sides; sides off the
/// board count for nothing.
fn count_adjacent_enemy_cells(map: &Board, piece: &Piece, player: &Player, board_y: usize, board_x: usize) -> (r: usize)
    requires
        map.wf(),
        piece.wf(),
        piece.fits(),
        neighbours_fit(piece, board_y as int, board_x as int),
    ensures
        r == opponent_contacts(map, piece, *player, board_y as int, board_x as int),
{
    let ghost f = contacts_at(map, piece, *player, board_y as int, board_x as int);
    proof {
        assert forall|yy: int, xx: int|
            0 <= yy < piece.height && 0 <= xx < piece.width implies 0 <= #[trigger] f(yy, xx) <= 4 by {}
        lemma_grid_sum_bounds(piece.height as int, piece.width as int, f, 4);
    }
    let mut count: usize = 0;
    let mut py: usize = 0;
    while py < piece.height
        invariant
            map.wf(),
            piece.wf(),
            piece.fits(),
            neighbours_fit(piece, board_y as int, board_x as int),
            f == contacts_at(map, piece, *player, board_y as int, board_x as int),
            forall|yy: int, xx: int| 0 <= yy < piece.height && 0 <= xx < piece.width ==> 0 <= #[trigger] f(yy, xx) <= 4,
            grid_sum(piece.height as int, piece.width as int, f) <= usize::MAX,
            py <= piece.height,
            count == grid_sum(py as int, piece.width as int, f),
        decreases piece.height - py,
    {
        let row = &piece.shape[py];
        assert(row@ == piece.cells()[py as int]);
        let mut px: usize = 0;
        while px < piece.width
            invariant
                map.wf(),
                piece.wf(),
                neighbours_fit(piece, board_y as int, board_x as int),
                f == contacts_at(map, piece, *player, board_y as int, board_x as int),
                forall|yy: int, xx: int| 0 <= yy < piece.height && 0 <= xx < piece.width ==> 0 <= #[trigger] f(yy, xx) <= 4,
                grid_sum(piece.height as int, piece.width as int, f) <= usize::MAX,
                py < piece.height,
                px <= piece.width,
                row@ == piece.cells()[py as int],
                row@.len() == piece.width,
                count == grid_sum(py as int, piece.width as int, f) + row_sum(py as int, px as int, f),
            decreases piece.width - px,
        {
            if row[px] == 'O' {
                assert(piece.is_block(py as int, px as int));
                let y = board_y + py;
                let x = board_x + px;
                let mut here: usize = 0;
                let above = y.wrapping_sub(1);
                if above < map.height && x < map.width {
                    proof { map.lemma_row(above as int); }
                    let cell = map.grid[above][x];
                    if cell == player.p2 || cell == player.p2_alt {
                        here += 1;
                    }
                }
                if y + 1 < map.height && x < map.width {
                    proof { map.lemma_row(y + 1); }
                    let cell = map.grid[y + 1][x];
                    if cell == player.p2 || cell == player.p2_alt {
                        here += 1;
                    }
                }
                let left = x.wrapping_sub(1);
                if y < map.height && left < map.width {
                    proof { map.lemma_row(y as int); }
                    let cell = map.grid[y][left];
                    if cell == player.p2 || cell == player.p2_alt {
                        here += 1;
                    }
                }
                if y < map.height && x + 1 < map.width {
                    proof { map.lemma_row(y as int); }
                    let cell = map.grid[y][x + 1];
                    if cell == player.p2 || cell == player.p2_alt {
                        here += 1;
                    }
                }
                assert(here == f(py as int, px as int));
                proof {
                    lemma_grid_sum_partial(piece.height as int, piece.width as int, py as int, px + 1, f);
                }
                count += here;
            } else {
                assert(f(py as int, px as int) == 0);
            }
            px += 1;
        }
        py += 1;
    }
    count
}

/// Counts the blocks of the piece.
fn count_new_cells(piece: &Piece) -> (r: usize)
    requires
        piece.wf(),
        piece.fits(),
    ensures
        r == block_count(piece),
{
    let ghost f = block_at(piece);
    proof {
        assert forall|yy: int, xx: int|
            0 <= yy < piece.height && 0 <= xx < piece.width implies 0 <= #[trigger] f(yy, xx) <= 1 by {}
        lemma_grid_sum_bounds(piece.height as int, piece.width as int, f, 1);
    }
    let mut count: usize = 0;
    let mut py: usize = 0;
    while py < piece.height
        invariant
            piece.wf(),
            f == block_at(piece),
            forall|yy: int, xx: int| 0 <= yy < piece.height && 0 <= xx < piece.width ==> 0 <= #[trigger] f(yy, xx) <= 1,
            grid_sum(piece.height as int, piece.width as int, f) <= usize::MAX,
            py <= piece.height,
            count == grid_sum(py as int, piece.width as int, f),
        decreases piece.height - py,
    {
        let row = &piece.shape[py];
        assert(row@ == piece.cells()[py as int]);
        let mut px: usize = 0;
        while px < piece.width
            invariant
                piece.wf(),
                f == block_at(piece),
                forall|yy: int, xx: int| 0 <= yy < piece.height && 0 <= xx < piece.width ==> 0 <= #[trigger] f(yy, xx) <= 1,
                grid_sum(piece.height as int, piece.width as int, f) <= usize::MAX,
                py < piece.height,
                px <= piece.width,
                row@ == piece.cells()[py as int],
                row@.len() == piece.width,
                count == grid_sum(py as int, piece.width as int, f) + row_sum(py as int, px as int, f),
            decreases piece.width - px,
        {
            if row[px] == 'O' {
                proof {
                    lemma_grid_sum_partial(piece.height as int, piece.width as int, py as int, px + 1, f);
                }
                count += 1;
            }
            px += 1;
        }
        py += 1;
    }
    count
}

// ----------------------------------------------------------------------
// Distances
// ----------------------------------------------------------------------

/// A board that memory can hold, with at least one cell, is small enough
/// that twice the sum of its sides is a `usize`.
pub proof fn lemma_small_sides(h: int, w: int)
    requires
        1 <= h,
        1 <= w,
        fits_in_memory(h, w),
    ensures
        2 * h + 2 * w <= usize::MAX,
{
    assert((h - 1) * (w - 1) >= 0) by (nonlinear_arith)
        requires
            1 <= h,
            1 <= w,
    ;
    assert((h - 1) * (w - 1) == h * w - h - w + 1) by (nonlinear_arith);
}

/// The nearest distance is at most `usize::MAX`, and exactly that where
/// there is no target.
pub proof fn lemma_nearest_bound(y: int, x: int, targets: Seq<(usize, usize)>)
    ensures
        nearest(y, x, targets) <= usize::MAX,
        targets.len() == 0 ==> nearest(y, x, targets) == usize::MAX,
    decreases targets.len(),
{
    if targets.len() > 0 {
        lemma_nearest_bound(y, x, targets.drop_last());
    }
}

/// The closest pair distance is at most `usize::MAX`, and exactly that
/// where one side has no cell.
pub proof fn lemma_closest_pair_bound(from: Seq<(usize, usize)>, to: Seq<(usize, usize)>)
    ensures
        closest_pair(from, to) <= usize::MAX,
        from.len() == 0 || to.len() == 0 ==> closest_pair(from, to) == usize::MAX,
    decreases from.len(),
{
    if from.len() > 0 {
        lemma_closest_pair_bound(from.drop_last(), to);
        lemma_nearest_bound(from.last().0 as int, from.last().1 as int, to);
    }
}

/// The Manhattan distance between the cells `(ay, ax)` and `(by, bx)`.
fn distance(ay: usize, ax: usize, by: usize, bx: usize) -> (r: usize)
    requires
        ay + ax + by + bx <= usize::MAX,
    ensures
        r == manhattan(ay as int, ax as int, (by, bx)),
{
    let dy = if ay >= by { ay - by } else { by - ay };
    let dx = if ax >= bx { ax - bx } else { bx - ax };
    dy + dx
}

/// The least Manhattan distance between one of our cells and one of the
/// opponent's; `usize::MAX` where either player has no cell on the board.
pub fn shortest_distance_between_players(map: &Board, player: &Player) -> (r: usize)
    requires
        map.wf(),
        map.fits(),
    ensures
        r == players_distance(map, *player),
{
    let (my_positions, enemy_positions) = get_positions(map, player);
    let ghost mine = my_positions@;
    let ghost theirs = enemy_positions@;
    proof {
        lemma_grid_scan(map.cells(), map.height as int, map.width as int, own_mark(*player));
        lemma_grid_scan(map.cells(), map.height as int, map.width as int, opponent_mark(*player));
        lemma_closest_pair_bound(mine, theirs);
    }
    if my_positions.len() == 0 || enemy_positions.len() == 0 {
        return usize::MAX;
    }
    proof {
        assert(mine[0].0 < map.height && mine[0].1 < map.width);
        lemma_small_sides(map.height as int, map.width as int);
    }
    let mut min_distance: usize = usize::MAX;
    let mut i: usize = 0;
    while i < my_positions.len()
        invariant
            mine == my_positions@,
            theirs == enemy_positions@,
            i <= mine.len(),
            2 * map.height + 2 * map.width <= usize::MAX,
            forall|k: int| 0 <= k < mine.len() ==> (#[trigger] mine[k]).0 < map.height && mine[k].1 < map.width,
            forall|k: int| 0 <= k < theirs.len() ==> (#[trigger] theirs[k]).0 < map.height && theirs[k].1 < map.width,
            min_distance == closest_pair(mine.take(i as int), theirs),
        decreases mine.len() - i,
    {
        let (my_y, my_x) = my_positions[i];
        assert(mine[i as int] == (my_y, my_x));
        proof {
            lemma_closest_pair_bound(mine.take(i as int), theirs);
        }
        let mut j: usize = 0;
        while j < enemy_positions.len()
            invariant
                mine == my_positions@,
                theirs == enemy_positions@,
                i < mine.len(),
                j <= theirs.len(),
                mine[i as int] == (my_y, my_x),
                2 * map.height + 2 * map.width <= usize::MAX,
                my_y < map.height && my_x < map.width,
                forall|k: int| 0 <= k < theirs.len() ==> (#[trigger] theirs[k]).0 < map.height && theirs[k].1 < map.width,
                min_distance == min_int(closest_pair(mine.take(i as int), theirs), nearest(my_y as int, my_x as int, theirs.take(j as int))),
            decreases theirs.len() - j,
        {
            let (enemy_y, enemy_x) = enemy_positions[j];
            assert(theirs[j as int] == (enemy_y, enemy_x));
            let dist = distance(my_y, my_x, enemy_y, enemy_x);
            if dist < min_distance {
                min_distance = dist;
            }
            assert(theirs.take(j + 1).drop_last() =~= theirs.take(j as int));
            j += 1;
        }
        assert(theirs.take(theirs.len() as int) =~= theirs);
        assert(mine.take(i + 1).drop_last() =~= mine.take(i as int));
        i += 1;
    }
    assert(mine.take(mine.len() as int) =~= mine);
    min_distance
}

/// For the piece put at `(by, bx)`: from the block at `(py, px)`, the
/// nearest distance to a cell of `targets`; `usize::MAX` for a cell of
/// the piece that is not a block.
pub open spec fn reach_from(piece: &Piece, targets: Seq<(usize, usize)>, by: int, bx: int) -> spec_fn(int, int) -> int {
    |py: int, px: int|
        if piece.is_block(py, px) {
            nearest(by + py, bx + px, targets)
        } else {
            usize::MAX as int
        }
}

/// The least distance from a block of the piece put at `(by, bx)` to a
/// cell of `targets`, or `usize::MAX` where there is none.
pub open spec fn placement_nearest(piece: &Piece, targets: Seq<(usize, usize)>, by: int, bx: int) -> int {
    grid_min(piece.height as int, piece.width as int, reach_from(piece, targets, by, bx))
}

/// The least distance from a block of the piece put at `(by, bx)` to one
/// of the cells in `targets`.
fn placement_distance(map: &Board, piece: &Piece, targets: &Vec<(usize, usize)>, by: usize, bx: usize) -> (r: usize)
    requires
        piece.wf(),
        map.fits(),
        lands_inside(map, piece, by as int, bx as int),
        forall|k: int| 0 <= k < targets@.len() ==> (#[trigger] targets@[k]).0 < map.height && targets@[k].1 < map.width,
    ensures
        r == placement_nearest(piece, targets@, by as int, bx as int),
{
    let ghost ts = targets@;
    let ghost f = reach_from(piece, ts, by as int, bx as int);
    let mut local_min_dist: usize = usize::MAX;
    let mut py: usize = 0;
    while py < piece.height
        invariant
            piece.wf(),
            map.fits(),
            lands_inside(map, piece, by as int, bx as int),
            ts == targets@,
            forall|k: int| 0 <= k < ts.len() ==> (#[trigger] ts[k]).0 < map.height && ts[k].1 < map.width,
            f == reach_from(piece, ts, by as int, bx as int),
            py <= piece.height,
            local_min_dist == grid_min(py as int, piece.width as int, f),
        decreases piece.height - py,
    {
        let row = &piece.shape[py];
        assert(row@ == piece.cells()[py as int]);
        proof {
            lemma_grid_min(py as int, piece.width as int, f);
        }
        let mut px: usize = 0;
        while px < piece.width
            invariant
                piece.wf(),
                map.fits(),
                lands_inside(map, piece, by as int, bx as int),
                ts == targets@,
                forall|k: int| 0 <= k < ts.len() ==> (#[trigger] ts[k]).0 < map.height && ts[k].1 < map.width,
                f == reach_from(piece, ts, by as int, bx as int),
                py < piece.height,
                px <= piece.width,
                row@ == piece.cells()[py as int],
                row@.len() == piece.width,
                local_min_dist == min_int(grid_min(py as int, piece.width as int, f), row_min(py as int, px as int, f)),
            decreases piece.width - px,
        {
            proof {
                lemma_grid_min(py as int, piece.width as int, f);
                lemma_row_min(py as int, px as int, f);
            }
            if row[px] == 'O' {
                assert(piece.is_block(py as int, px as int));
                let piece_y = by + py;
                let piece_x = bx + px;
                let ghost before = local_min_dist as int;
                let mut j: usize = 0;
                while j < targets.len()
                    invariant
                        ts == targets@,
                        forall|k: int| 0 <= k < ts.len() ==> (#[trigger] ts[k]).0 < map.height && ts[k].1 < map.width,
                        map.fits(),
                        piece_y < map.height,
                        piece_x < map.width,
                        j <= ts.len(),
                        before <= usize::MAX,
                        local_min_dist == min_int(before, nearest(piece_y as int, piece_x as int, ts.take(j as int))),
                    decreases ts.len() - j,
                {
                    let (enemy_y, enemy_x) = targets[j];
                    assert(ts[j as int] == (enemy_y, enemy_x));
                    proof {
                        lemma_small_sides(map.height as int, map.width as int);
                    }
                    let dist = distance(piece_y, piece_x, enemy_y, enemy_x);
                    if dist < local_min_dist {
                        local_min_dist = dist;
                    }
                    assert(ts.take(j + 1).drop_last() =~= ts.take(j as int));
                    j += 1;
                }
                assert(ts.take(ts.len() as int) =~= ts);
            }
            px += 1;
        }
        py += 1;
    }
    local_min_dist
}

// ----------------------------------------------------------------------
// The best move
// ----------------------------------------------------------------------

/// What the search weighs for one place where the piece may go: the
/// place `(y, x)`, how often the piece touches the opponent there, how
/// near it comes to the opponent, and how many blocks it adds.
#[derive(Clone, Copy)]
pub struct Candidate {
    pub y: usize,
    pub x: usize,
    pub touch: usize,
    pub dist: usize,
    pub new_cells: usize,
}

/// `a` comes before `b` in the order of preference, where `global` is the
/// distance between the players before the move: more contacts with the
/// opponent first; with equal contacts above zero, more new blocks, then
/// the upper, then the left one; with no contact, a place that comes
/// nearer to the opponent than `global` first, then the nearer one, then
/// more new blocks, then the upper, then the left one.
pub open spec fn precedes(a: Candidate, b: Candidate, global: int) -> bool {
    if a.touch != b.touch {
        a.touch > b.touch
    } else if a.touch > 0 {
        if a.new_cells != b.new_cells {
            a.new_cells > b.new_cells
        } else {
            a.y < b.y || (a.y == b.y && a.x < b.x)
        }
    } else {
        let a_improves = a.dist < global;
        let b_improves = b.dist < global;
        if a_improves != b_improves {
            a_improves
        } else if a.dist != b.dist {
            a.dist < b.dist
        } else if a.new_cells != b.new_cells {
            a.new_cells > b.new_cells
        } else {
            a.y < b.y || (a.y == b.y && a.x < b.x)
        }
    }
}

/// The order of preference is a strict total order on candidates at
/// distinct places.
pub proof fn lemma_precedes_order(a: Candidate, b: Candidate, c: Candidate, global: int)
    ensures
        !precedes(a, a, global),
        precedes(a, b, global) && precedes(b, c, global) ==> precedes(a, c, global),
        (a.y != b.y || a.x != b.x) ==> (precedes(a, b, global) || precedes(b, a, global)),
        precedes(a, b, global) ==> !precedes(b, a, global),
{
}

/// Tells whether `a` comes before `b` in the order of preference.
fn ranks_before(a: &Candidate, b: &Candidate, global: usize) -> (r: bool)
    ensures
        r == precedes(*a, *b, global as int),
{
    if a.touch != b.touch {
        a.touch > b.touch
    } else if a.touch > 0 {
        if a.new_cells != b.new_cells {
            a.new_cells > b.new_cells
        } else {
            a.y < b.y || (a.y == b.y && a.x < b.x)
        }
    } else {
        let a_improves = a.dist < global;
        let b_improves = b.dist < global;
        if a_improves != b_improves {
            a_improves
        } else if a.dist != b.dist {
            a.dist < b.dist
        } else if a.new_cells != b.new_cells {
            a.new_cells > b.new_cells
        } else {
            a.y < b.y || (a.y == b.y && a.x < b.x)
        }
    }
}

/// `(y, x)` is among the places the search tries: the piece, put there,
/// stays within the board's last rows and columns.
pub open spec fn in_search(map: &Board, piece: &Piece, y: int, x: int) -> bool {
    0 <= y <= map.height - piece.height && 0 <= x <= map.width - piece.width
}

/// `(y, x)` is a place the search tries and where the piece may go.
pub open spec fn is_candidate(map: &Board, piece: &Piece, player: Player, y: int, x: int) -> bool {
    in_search(map, piece, y, x) && placeable(map, piece, player, y, x)
}

/// What the search weighs for the piece put at `(y, x)`.
pub open spec fn scored(map: &Board, piece: &Piece, player: Player, y: int, x: int) -> Candidate {
    Candidate {
        y: y as usize,
        x: x as usize,
        touch: opponent_contacts(map, piece, player, y, x) as usize,
        dist: placement_nearest(piece, opponent_cells(map, player), y, x) as usize,
        new_cells: block_count(piece) as usize,
    }
}

/// `(y, x)` is a candidate that comes before every other candidate.
pub open spec fn is_best_move(map: &Board, piece: &Piece, player: Player, y: int, x: int) -> bool {
    &&& is_candidate(map, piece, player, y, x)
    &&& forall|yy: int, xx: int|
        #[trigger] is_candidate(map, piece, player, yy, xx) && (yy != y || xx != x) ==> precedes(
            scored(map, piece, player, y, x),
            scored(map, piece, player, yy, xx),
            players_distance(map, player),
        )
}

/// The cell `(yy, xx)` comes before `(y, x)` in the search, which goes
/// row by row over the columns up to `max_x`.
pub open spec fn searched_before(yy: int, xx: int, y: int, x: int, max_x: int) -> bool {
    0 <= yy && 0 <= xx <= max_x && (yy < y || (yy == y && xx < x))
}

/// What the search knows after trying every place before `(y, x)`.
pub open spec fn best_so_far(
    map: &Board,
    piece: &Piece,
    player: Player,
    best: Option<Candidate>,
    y: int,
    x: int,
    max_x: int,
) -> bool {
    match best {
        None => forall|yy: int, xx: int|
            #[trigger] is_candidate(map, piece, player, yy, xx) ==> !searched_before(yy, xx, y, x, max_x),
        Some(b) => {
            &&& is_candidate(map, piece, player, b.y as int, b.x as int)
            &&& searched_before(b.y as int, b.x as int, y, x, max_x)
            &&& b == scored(map, piece, player, b.y as int, b.x as int)
            &&& forall|yy: int, xx: int|
                #[trigger] is_candidate(map, piece, player, yy, xx) && searched_before(yy, xx, y, x, max_x)
                    && (yy != b.y || xx != b.x) ==> precedes(b, scored(map, piece, player, yy, xx), players_distance(map, player))
        },
    }
}

/// Picks where to put the piece, as `(row, column)` of its top left
/// corner: of all places where it may go, the first in the order of
/// preference; `(0, 0)` where it may go nowhere (or is larger than the
/// board).
pub fn find_best_move(map: &Board, piece: &Piece, player: &Player) -> (r: (usize, usize))
    requires
        map.wf(),
        map.fits(),
        piece.wf(),
        piece.fits(),
    ensures
        (exists|y: int, x: int| is_candidate(map, piece, *player, y, x)) ==> is_best_move(map, piece, *player, r.0 as int, r.1 as int),
        !(exists|y: int, x: int| is_candidate(map, piece, *player, y, x)) ==> r == (0usize, 0usize),
{
    if piece.height > map.height || piece.width > map.width {
        return (0, 0);
    }
    let (_my_positions, enemy_positions) = get_positions(map, player);
    proof {
        lemma_grid_scan(map.cells(), map.height as int, map.width as int, opponent_mark(*player));
    }
    let current_global_min = shortest_distance_between_players(map, player);
    let ghost global = players_distance(map, *player);
    let max_y = map.height - piece.height;
    let max_x = map.width - piece.width;
    let mut best: Option<Candidate> = None;
    let mut y: usize = 0;
    loop
        invariant_except_break
            best_so_far(map, piece, *player, best, y as int, 0, max_x as int),
        invariant
            map.wf(),
            map.fits(),
            piece.wf(),
            piece.fits(),
            piece.height <= map.height,
            piece.width <= map.width,
            max_y == map.height - piece.height,
            max_x == map.width - piece.width,
            y <= max_y,
            current_global_min == global,
            global == players_distance(map, *player),
            enemy_positions@ == opponent_cells(map, *player),
            forall|k: int| 0 <= k < enemy_positions@.len() ==> (#[trigger] enemy_positions@[k]).0 < map.height
                && enemy_positions@[k].1 < map.width,
        ensures
            best_so_far(map, piece, *player, best, max_y + 1, 0, max_x as int),
        decreases max_y - y,
    {
        let mut x: usize = 0;
        loop
            invariant_except_break
                best_so_far(map, piece, *player, best, y as int, x as int, max_x as int),
            invariant
                map.wf(),
                map.fits(),
                piece.wf(),
                piece.fits(),
                piece.height <= map.height,
                piece.width <= map.width,
                max_y == map.height - piece.height,
                max_x == map.width - piece.width,
                y <= max_y,
                x <= max_x,
                current_global_min == global,
                global == players_distance(map, *player),
                enemy_positions@ == opponent_cells(map, *player),
                forall|k: int| 0 <= k < enemy_positions@.len() ==> (#[trigger] enemy_positions@[k]).0 < map.height
                    && enemy_positions@[k].1 < map.width,
            ensures
                best_so_far(map, piece, *player, best, y + 1, 0, max_x as int),
            decreases max_x - x,
        {
            let ghost old_best = best;
            assert(offsets_fit(piece, y as int, x as int));
            assert(neighbours_fit(piece, y as int, x as int));
            if can_place(map, piece, player, y, x) {
                let touch_count = count_adjacent_enemy_cells(map, piece, player, y, x);
                let local_min_dist = placement_distance(map, piece, &enemy_positions, y, x);
                let new_cells = count_new_cells(piece);
                let candidate = Candidate { y, x, touch: touch_count, dist: local_min_dist, new_cells };
                proof {
                    lemma_grid_min(piece.height as int, piece.width as int, reach_from(piece, enemy_positions@, y as int, x as int));
                }
                assert(candidate == scored(map, piece, *player, y as int, x as int));
                match best {
                    None => {
                        best = Some(candidate);
                    },
                    Some(b) => {
                        if ranks_before(&candidate, &b, current_global_min) {
                            best = Some(candidate);
                            proof {
                                assert forall|yy: int, xx: int|
                                    #[trigger] is_candidate(map, piece, *player, yy, xx) && searched_before(yy, xx, y as int, x + 1, max_x as int)
                                        && (yy != y || xx != x) implies precedes(candidate, scored(map, piece, *player, yy, xx), global) by {
                                    if yy == b.y && xx == b.x {
                                    } else {
                                        lemma_precedes_order(candidate, b, scored(map, piece, *player, yy, xx), global);
                                    }
                                }
                            }
                        } else {
                            proof {
                                lemma_precedes_order(candidate, b, candidate, global);
                            }
                        }
                    },
                }
            }
            if x == max_x {
                break;
            }
            x += 1;
        }
        if y == max_y {
            break;
        }
        y += 1;
    }
    match best {
        Some(b) => {
            proof {
                assert forall|yy: int, xx: int|
                    #[trigger] is_candidate(map, piece, *player, yy, xx) && (yy != b.y || xx != b.x)
                        implies precedes(scored(map, piece, *player, b.y as int, b.x as int), scored(map, piece, *player, yy, xx), global) by {
                    assert(searched_before(yy, xx, max_y + 1, 0, max_x as int));
                }
            }
            (b.y, b.x)
        },
        None => {
            proof {
                assert forall|yy: int, xx: int| !is_candidate(map, piece, *player, yy, xx) by {
                    if is_candidate(map, piece, *player, yy, xx) {
                        assert(searched_before(yy, xx, max_y + 1, 0, max_x as int));
                    }
                }
            }
            (0, 0)
        },
    }
}

/// Where the piece as the game gave it goes, as `(row, column)`, for the
/// cut-down piece put at `(y, x)`: the place less the offsets of the cut
/// (each taken as an `i32`, the difference wrapping).
pub fn untrimmed_position(piece: &Piece, y: usize, x: usize) -> (r: (i32, i32))
    ensures
        r.0 == (y as i32).wrapping_sub(piece.offset_y as i32),
        r.1 == (x as i32).wrapping_sub(piece.offset_x as i32),
        y <= i32::MAX && piece.offset_y <= i32::MAX ==> r.0 == y - piece.offset_y,
        x <= i32::MAX && piece.offset_x <= i32::MAX ==> r.1 == x - piece.offset_x,
{
    let actual_y = (y as i32).wrapping_sub(piece.offset_y as i32);
    let actual_x = (x as i32).wrapping_sub(piece.offset_x as i32);
    (actual_y, actual_x)
}

// ----------------------------------------------------------------------
// Laws
// ----------------------------------------------------------------------

/// Law: there is only one best move: two places that each come before
/// every other candidate are the same place.
pub proof fn law_best_move_unique(map: &Board, piece: &Piece, player: Player, y1: int, x1: int, y2: int, x2: int)
    requires
        is_best_move(map, piece, player, y1, x1),
        is_best_move(map, piece, player, y2, x2),
    ensures
        y1 == y2 && x1 == x2,
{
    if y1 != y2 || x1 != x2 {
        let g = players_distance(map, player);
        assert(is_candidate(map, piece, player, y2, x2));
        assert(is_candidate(map, piece, player, y1, x1));
        let a = scored(map, piece, player, y1, x1);
        let b = scored(map, piece, player, y2, x2);
        assert(precedes(a, b, g));
        assert(precedes(b, a, g));
        lemma_precedes_order(a, b, a, g);
    }
}

/// Law: no cell counts as both ours and the opponent's.
pub proof fn law_positions_disjoint(map: &Board, player: Player, i: int, j: int)
    requires
        map.wf(),
        0 <= i < own_cells(map, player).len(),
        0 <= j < opponent_cells(map, player).len(),
    ensures
        own_cells(map, player)[i] != opponent_cells(map, player)[j],
{
    lemma_grid_scan(map.cells(), map.height as int, map.width as int, own_mark(player));
    lemma_grid_scan(map.cells(), map.height as int, map.width as int, opponent_mark(player));
    let p = own_cells(map, player)[i];
    let q = opponent_cells(map, player)[j];
    assert(own_mark(player)(map.cells()[p.0 as int][p.1 as int]));
    assert(opponent_mark(player)(map.cells()[q.0 as int][q.1 as int]));
}

/// The nearest distance is at most the distance to each target and, where
/// there is a target, is the distance to one of them.
proof fn lemma_nearest(y: int, x: int, targets: Seq<(usize, usize)>)
    requires
        forall|j: int| 0 <= j < targets.len() ==> manhattan(y, x, #[trigger] targets[j]) <= usize::MAX,
    ensures
        forall|j: int| 0 <= j < targets.len() ==> nearest(y, x, targets) <= manhattan(y, x, #[trigger] targets[j]),
        targets.len() > 0 ==> exists|j: int| 0 <= j < targets.len() && nearest(y, x, targets) == manhattan(y, x, #[trigger] targets[j]),
    decreases targets.len(),
{
    if targets.len() > 0 {
        let d = targets.drop_last();
        assert forall|j: int| 0 <= j < d.len() implies manhattan(y, x, #[trigger] d[j]) <= usize::MAX by {
            assert(d[j] == targets[j]);
        }
        lemma_nearest(y, x, d);
        assert forall|j: int| 0 <= j < targets.len() implies nearest(y, x, targets) <= manhattan(y, x, #[trigger] targets[j]) by {
            if j < d.len() {
                assert(d[j] == targets[j]);
            }
        }
        if d.len() > 0 && nearest(y, x, d) <= manhattan(y, x, targets.last()) {
            let j = choose|j: int| 0 <= j < d.len() && nearest(y, x, d) == manhattan(y, x, #[trigger] d[j]);
            assert(d[j] == targets[j]);
        } else {
            assert(nearest(y, x, targets) == manhattan(y, x, targets[targets.len() - 1]));
        }
    }
}

/// The closest pair distance is at most the distance of each pair and,
/// where both sides have a cell, is the distance of one of them.
proof fn lemma_closest_pair(from: Seq<(usize, usize)>, to: Seq<(usize, usize)>)
    requires
        forall|i: int, j: int| 0 <= i < from.len() && 0 <= j < to.len() ==>
            manhattan((#[trigger] from[i]).0 as int, from[i].1 as int, #[trigger] to[j]) <= usize::MAX,
    ensures
        forall|i: int, j: int| 0 <= i < from.len() && 0 <= j < to.len() ==>
            closest_pair(from, to) <= manhattan((#[trigger] from[i]).0 as int, from[i].1 as int, #[trigger] to[j]),
        from.len() > 0 && to.len() > 0 ==> exists|i: int, j: int| 0 <= i < from.len() && 0 <= j < to.len()
            && closest_pair(from, to) == manhattan((#[trigger] from[i]).0 as int, from[i].1 as int, #[trigger] to[j]),
    decreases from.len(),
{
    if from.len() > 0 {
        let d = from.drop_last();
        let p = from.last();
        assert forall|i: int, j: int| 0 <= i < d.len() && 0 <= j < to.len() implies
            manhattan((#[trigger] d[i]).0 as int, d[i].1 as int, #[trigger] to[j]) <= usize::MAX by {
            assert(d[i] == from[i]);
        }
        assert forall|j: int| 0 <= j < to.len() implies manhattan(p.0 as int, p.1 as int, #[trigger] to[j]) <= usize::MAX by {
            assert(from[from.len() - 1] == p);
        }
        lemma_closest_pair(d, to);
        lemma_nearest(p.0 as int, p.1 as int, to);
        lemma_closest_pair_bound(d, to);
        assert forall|i: int, j: int| 0 <= i < from.len() && 0 <= j < to.len() implies
            closest_pair(from, to) <= manhattan((#[trigger] from[i]).0 as int, from[i].1 as int, #[trigger] to[j]) by {
            if i < d.len() {
                assert(d[i] == from[i]);
                assert(closest_pair(d, to) <= manhattan(d[i].0 as int, d[i].1 as int, to[j]));
            }
        }
        if to.len() > 0 {
            if d.len() > 0 && closest_pair(d, to) <= nearest(p.0 as int, p.1 as int, to) {
                let (i, j) = choose|i: int, j: int| 0 <= i < d.len() && 0 <= j < to.len()
                    && closest_pair(d, to) == manhattan((#[trigger] d[i]).0 as int, d[i].1 as int, #[trigger] to[j]);
                assert(d[i] == from[i]);
                assert(closest_pair(from, to) == manhattan(from[i].0 as int, from[i].1 as int, to[j]));
            } else {
                if d.len() == 0 {
                    lemma_nearest_bound(p.0 as int, p.1 as int, to);
                }
                let j = choose|j: int| 0 <= j < to.len() && nearest(p.0 as int, p.1 as int, to) == manhattan(p.0 as int, p.1 as int, #[trigger] to[j]);
                assert(from[from.len() - 1] == p);
                assert(closest_pair(from, to) == manhattan(from[from.len() - 1].0 as int, from[from.len() - 1].1 as int, to[j]));
            }
        }
    }
}

/// Law: the distance between the players is the least Manhattan distance
/// from one of our cells to one of the opponent's: no pair is nearer, and
/// where both have a cell, some pair is that near.
pub proof fn law_players_distance_is_least(map: &Board, player: Player)
    requires
        map.wf(),
        map.fits(),
    ensures
        forall|y1: int, x1: int, y2: int, x2: int|
            0 <= y1 < map.height && 0 <= x1 < map.width && 0 <= y2 < map.height && 0 <= x2 < map.width
                && player.owns(#[trigger] map.cell(y1, x1)) && player.opponent_only(#[trigger] map.cell(y2, x2))
                ==> players_distance(map, player) <= abs(y1 - y2) + abs(x1 - x2),
        own_cells(map, player).len() > 0 && opponent_cells(map, player).len() > 0 ==> exists|y1: int, x1: int, y2: int, x2: int|
            0 <= y1 < map.height && 0 <= x1 < map.width && 0 <= y2 < map.height && 0 <= x2 < map.width
                && player.owns(#[trigger] map.cell(y1, x1)) && player.opponent_only(#[trigger] map.cell(y2, x2))
                && players_distance(map, player) == abs(y1 - y2) + abs(x1 - x2),
{
    let mine = own_cells(map, player);
    let theirs = opponent_cells(map, player);
    lemma_grid_scan(map.cells(), map.height as int, map.width as int, own_mark(player));
    lemma_grid_scan(map.cells(), map.height as int, map.width as int, opponent_mark(player));
    assert forall|i: int, j: int| 0 <= i < mine.len() && 0 <= j < theirs.len() implies
        manhattan((#[trigger] mine[i]).0 as int, mine[i].1 as int, #[trigger] theirs[j]) <= usize::MAX by {
        let p = grid_scan(map.cells(), map.height as int, map.width as int, own_mark(player))[i];
        let q = grid_scan(map.cells(), map.height as int, map.width as int, opponent_mark(player))[j];
        assert(p.0 < map.height && p.1 < map.width);
        assert(q.0 < map.height && q.1 < map.width);
        lemma_small_sides(map.height as int, map.width as int);
    }
    lemma_closest_pair(mine, theirs);
    assert forall|y1: int, x1: int, y2: int, x2: int|
        0 <= y1 < map.height && 0 <= x1 < map.width && 0 <= y2 < map.height && 0 <= x2 < map.width
            && player.owns(#[trigger] map.cell(y1, x1)) && player.opponent_only(#[trigger] map.cell(y2, x2))
            implies players_distance(map, player) <= abs(y1 - y2) + abs(x1 - x2) by {
        map.lemma_row(y1);
        map.lemma_row(y2);
        assert(own_mark(player)(map.cells()[y1][x1]));
        assert(opponent_mark(player)(map.cells()[y2][x2]));
        assert(mine.contains((y1 as usize, x1 as usize)));
        assert(theirs.contains((y2 as usize, x2 as usize)));
        let i = choose|i: int| 0 <= i < mine.len() && mine[i] == (y1 as usize, x1 as usize);
        let j = choose|j: int| 0 <= j < theirs.len() && theirs[j] == (y2 as usize, x2 as usize);
        assert(closest_pair(mine, theirs) <= manhattan(mine[i].0 as int, mine[i].1 as int, theirs[j]));
    }
    if mine.len() > 0 && theirs.len() > 0 {
        let (i, j) = choose|i: int, j: int| 0 <= i < mine.len() && 0 <= j < theirs.len()
            && closest_pair(mine, theirs) == manhattan((#[trigger] mine[i]).0 as int, mine[i].1 as int, #[trigger] theirs[j]);
        let p = mine[i];
        let q = theirs[j];
        map.lemma_row(p.0 as int);
        map.lemma_row(q.0 as int);
        assert(own_mark(player)(map.cells()[p.0 as int][p.1 as int]));
        assert(opponent_mark(player)(map.cells()[q.0 as int][q.1 as int]));
        assert(player.owns(map.cell(p.0 as int, p.1 as int)));
        assert(player.opponent_only(map.cell(q.0 as int, q.1 as int)));
    }
}

/// The marks of the other side: ours become the opponent's and theirs ours.
pub open spec fn swapped(player: Player) -> Player {
    Player { p1: player.p2, p1_alt: player.p2_alt, p2: player.p1, p2_alt: player.p1_alt }
}

/// The closest pair distance does not depend on which side comes first.
proof fn lemma_closest_pair_symmetric(a: Seq<(usize, usize)>, b: Seq<(usize, usize)>)
    requires
        forall|i: int, j: int| 0 <= i < a.len() && 0 <= j < b.len() ==>
            manhattan((#[trigger] a[i]).0 as int, a[i].1 as int, #[trigger] b[j]) <= usize::MAX,
    ensures
        closest_pair(a, b) == closest_pair(b, a),
{
    assert forall|i: int, j: int| 0 <= i < b.len() && 0 <= j < a.len() implies
        manhattan((#[trigger] b[i]).0 as int, b[i].1 as int, #[trigger] a[j]) <= usize::MAX by {
        assert(manhattan(b[i].0 as int, b[i].1 as int, a[j]) == manhattan(a[j].0 as int, a[j].1 as int, b[i]));
    }
    lemma_closest_pair(a, b);
    lemma_closest_pair(b, a);
    lemma_closest_pair_bound(a, b);
    lemma_closest_pair_bound(b, a);
    if a.len() > 0 && b.len() > 0 {
        let (i, j) = choose|i: int, j: int| 0 <= i < a.len() && 0 <= j < b.len()
            && closest_pair(a, b) == manhattan((#[trigger] a[i]).0 as int, a[i].1 as int, #[trigger] b[j]);
        let (k, l) = choose|k: int, l: int| 0 <= k < b.len() && 0 <= l < a.len()
            && closest_pair(b, a) == manhattan((#[trigger] b[k]).0 as int, b[k].1 as int, #[trigger] a[l]);
        assert(closest_pair(b, a) <= manhattan(b[j].0 as int, b[j].1 as int, a[i]));
        assert(closest_pair(a, b) <= manhattan(a[l].0 as int, a[l].1 as int, b[k]));
    }
}

/// Law: the distance between the players does not depend on which side is
/// ours, where the four marks are distinct.
pub proof fn law_players_distance_symmetric(map: &Board, player: Player)
    requires
        map.wf(),
        map.fits(),
        player.p1 != player.p1_alt,
        player.p1 != player.p2,
        player.p1 != player.p2_alt,
        player.p1_alt != player.p2,
        player.p1_alt != player.p2_alt,
        player.p2 != player.p2_alt,
    ensures
        players_distance(map, swapped(player)) == players_distance(map, player),
{
    let other = swapped(player);
    assert(own_mark(other) =~= opponent_mark(player));
    assert(opponent_mark(other) =~= own_mark(player));
    let mine = own_cells(map, player);
    let theirs = opponent_cells(map, player);
    assert(own_cells(map, other) == theirs);
    assert(opponent_cells(map, other) == mine);
    lemma_grid_scan(map.cells(), map.height as int, map.width as int, own_mark(player));
    lemma_grid_scan(map.cells(), map.height as int, map.width as int, opponent_mark(player));
    assert forall|i: int, j: int| 0 <= i < theirs.len() && 0 <= j < mine.len() implies
        manhattan((#[trigger] theirs[i]).0 as int, theirs[i].1 as int, #[trigger] mine[j]) <= usize::MAX by {
        let p = grid_scan(map.cells(), map.height as int, map.width as int, opponent_mark(player))[i];
        let q = grid_scan(map.cells(), map.height as int, map.width as int, own_mark(player))[j];
        assert(p.0 < map.height && p.1 < map.width);
        assert(q.0 < map.height && q.1 < map.width);
        lemma_small_sides(map.height as int, map.width as int);
    }
    lemma_closest_pair_symmetric(theirs, mine);
}

/// Law: the piece may go where all its blocks land on the board, none on
/// a cell that holds an opponent's mark and none of ours, and exactly one,
/// the block at `(oy, ox)`, on a cell that holds our main or alternative mark.
pub proof fn law_one_own_cell_is_enough(
    map: &Board,
    piece: &Piece,
    player: Player,
    by: int,
    bx: int,
    oy: int,
    ox: int,
)
    requires
        0 <= by,
        0 <= bx,
        0 <= oy < piece.height,
        0 <= ox < piece.width,
        piece.is_block(oy, ox),
        forall|py: int, px: int|
            0 <= py < piece.height && 0 <= px < piece.width && #[trigger] piece.is_block(py, px) ==> {
                let c = map.cell(by + py, bx + px);
                &&& by + py < map.height
                &&& bx + px < map.width
                &&& c == player.p1 || c == player.p1_alt || (c != player.p2 && c != player.p2_alt)
                &&& (c == player.p1 || c == player.p1_alt) <==> (py == oy && px == ox)
            },
    ensures
        placeable(map, piece, player, by, bx),
{
    let f = covers_own(map, piece, player, by, bx);
    assert forall|py: int, px: int| 0 <= py < piece.height && 0 <= px < piece.width implies
        #[trigger] f(py, px) == (if py == oy && px == ox { 1int } else { 0int }) by {
        if piece.is_block(py, px) {
        }
    }
    lemma_grid_sum_single(piece.height as int, piece.width as int, f, oy, ox);
}

/// Law: every place within the board's last rows and columns where the
/// piece may go is one the search weighs, and the best move, where there
/// is one, is that place or comes before it.
pub proof fn law_best_move_weighs_every_place(map: &Board, piece: &Piece, player: Player, y: int, x: int, by: int, bx: int)
    requires
        0 <= y <= map.height - piece.height,
        0 <= x <= map.width - piece.width,
        placeable(map, piece, player, y, x),
    ensures
        is_candidate(map, piece, player, y, x),
        is_best_move(map, piece, player, by, bx) ==> (by == y && bx == x) || precedes(
            scored(map, piece, player, by, bx),
            scored(map, piece, player, y, x),
            players_distance(map, player),
        ),
{
    assert(is_candidate(map, piece, player, y, x));
}

/// The nearest distance is never negative.
proof fn lemma_nearest_nonneg(y: int, x: int, targets: Seq<(usize, usize)>)
    ensures
        0 <= nearest(y, x, targets),
    decreases targets.len(),
{
    if targets.len() > 0 {
        lemma_nearest_nonneg(y, x, targets.drop_last());
    }
}

/// How near the piece put at `(y, x)` comes to the opponent is between 0
/// and `usize::MAX`, and how often it touches the opponent is too.
proof fn lemma_score_ranges(map: &Board, piece: &Piece, player: Player, y: int, x: int)
    requires
        piece.wf(),
        piece.fits(),
    ensures
        0 <= placement_nearest(piece, opponent_cells(map, player), y, x) <= usize::MAX,
        0 <= opponent_contacts(map, piece, player, y, x) <= usize::MAX,
{
    let ts = opponent_cells(map, player);
    let f = reach_from(piece, ts, y, x);
    assert forall|py: int, px: int| 0 <= py < piece.height && 0 <= px < piece.width implies 0 <= #[trigger] f(py, px) by {
        lemma_nearest_nonneg(y + py, x + px, ts);
    }
    lemma_grid_min_lower(piece.height as int, piece.width as int, f, 0);
    lemma_grid_min(piece.height as int, piece.width as int, f);
    let g = contacts_at(map, piece, player, y, x);
    assert forall|py: int, px: int| 0 <= py < piece.height && 0 <= px < piece.width implies 0 <= #[trigger] g(py, px) <= 4 by {}
    lemma_grid_sum_bounds(piece.height as int, piece.width as int, g, 4);
}

/// Law: the best move touches the opponent at least as often as any other
/// place where the piece may go; and between places that touch it not at
/// all and that both come nearer to it than the players are now (or both
/// do not), the best move is at least as near to the opponent's cells.
pub proof fn law_best_move_touches_most_then_nearest(
    map: &Board,
    piece: &Piece,
    player: Player,
    y: int,
    x: int,
    y2: int,
    x2: int,
)
    requires
        piece.wf(),
        piece.fits(),
        is_best_move(map, piece, player, y, x),
        is_candidate(map, piece, player, y2, x2),
    ensures
        opponent_contacts(map, piece, player, y, x) >= opponent_contacts(map, piece, player, y2, x2),
        ({
            let ts = opponent_cells(map, player);
            let g = players_distance(map, player);
            let d1 = placement_nearest(piece, ts, y, x);
            let d2 = placement_nearest(piece, ts, y2, x2);
            opponent_contacts(map, piece, player, y, x) == 0 && opponent_contacts(map, piece, player, y2, x2) == 0
                && (d1 < g) == (d2 < g) ==> d1 <= d2
        }),
{
    lemma_score_ranges(map, piece, player, y, x);
    lemma_score_ranges(map, piece, player, y2, x2);
    if y != y2 || x != x2 {
        assert(precedes(scored(map, piece, player, y, x), scored(map, piece, player, y2, x2), players_distance(map, player)));
    }
}

/// The block at `(oy, ox)` of the piece put at `(by, bx)` is the one
/// block on a cell that holds our main or alternative mark.
pub open spec fn sole_own_block(map: &Board, piece: &Piece, player: Player, by: int, bx: int, oy: int, ox: int) -> bool {
    &&& 0 <= oy < piece.height
    &&& 0 <= ox < piece.width
    &&& piece.is_block(oy, ox)
    &&& map.cell(by + oy, bx + ox) == player.p1 || map.cell(by + oy, bx + ox) == player.p1_alt
    &&& forall|py: int, px: int|
        0 <= py < piece.height && 0 <= px < piece.width && #[trigger] piece.is_block(py, px) && (py != oy || px != ox) ==> {
            let c = map.cell(by + py, bx + px);
            c != player.p1 && c != player.p1_alt
        }
}

/// Law: where the piece may go, all its blocks land on the board, none on
/// a cell that holds an opponent's mark and none of ours, and exactly one
/// block lands on a cell that holds our main or alternative mark.
pub proof fn law_placement_covers_one_own_cell(map: &Board, piece: &Piece, player: Player, by: int, bx: int)
    requires
        placeable(map, piece, player, by, bx),
    ensures
        forall|py: int, px: int|
            0 <= py < piece.height && 0 <= px < piece.width && #[trigger] piece.is_block(py, px) ==> {
                let c = map.cell(by + py, bx + px);
                &&& by + py < map.height
                &&& bx + px < map.width
                &&& c == player.p1 || c == player.p1_alt || (c != player.p2 && c != player.p2_alt)
            },
        exists|oy: int, ox: int| #[trigger] sole_own_block(map, piece, player, by, bx, oy, ox),
{
    let f = covers_own(map, piece, player, by, bx);
    assert(zero_one(piece.height as int, piece.width as int, f));
    lemma_grid_sum_one(piece.height as int, piece.width as int, f);
    let (oy, ox) = choose|oy: int, ox: int| #[trigger] only_one_at(piece.height as int, piece.width as int, f, oy, ox);
    assert forall|py: int, px: int|
        0 <= py < piece.height && 0 <= px < piece.width && #[trigger] piece.is_block(py, px) && (py != oy || px != ox) implies {
            let c = map.cell(by + py, bx + px);
            c != player.p1 && c != player.p1_alt
        } by {
        assert(f(py, px) == 0);
    }
    assert(sole_own_block(map, piece, player, by, bx, oy, ox));
}

} // verus!
