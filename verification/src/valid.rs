//! A second form of the placement check: it counts every block that
//! covers one of our cells before it compares the count with one, and it
//! lets the other blocks cover only empty cells ('.').

use vstd::prelude::*;
use crate::grid::{grid_sum, lemma_grid_sum_bounds, lemma_grid_sum_partial, row_sum};
use crate::logic::{avoids_opponent, covers_own, lands_inside, offsets_fit, own_overlap, placeable};
use crate::models::{Board, Piece, Player};

verus! {

/// The cell holds one of our marks, or is empty ('.') and not the
/// opponent's.
pub open spec fn own_or_empty(player: Player, c: char) -> bool {
    player.owns(c) || (!player.opponent_owns(c) && c == '.')
}

/// Every block of the piece, put at `(by, bx)`, covers one of our cells
/// or an empty one.
pub open spec fn covers_own_or_empty(map: &Board, piece: &Piece, player: Player, by: int, bx: int) -> bool {
    forall|py: int, px: int|
        0 <= py < piece.height && 0 <= px < piece.width && #[trigger] piece.is_block(py, px)
            ==> own_or_empty(player, map.cell(by + py, bx + px))
}

/// The piece may go at `(by, bx)`: all its blocks land on the board, each
/// on one of our cells or an empty one, and exactly one on ours.
pub open spec fn placeable_on_empty(map: &Board, piece: &Piece, player: Player, by: int, bx: int) -> bool {
    &&& lands_inside(map, piece, by, bx)
    &&& covers_own_or_empty(map, piece, player, by, bx)
    &&& own_overlap(map, piece, player, by, bx) == 1
}

/// Tells whether the piece may go with its top left corner at
/// `(board_y, board_x)`: all its blocks on the board, each on a cell of
/// ours or an empty one ('.'), and exactly one on a cell of ours.
pub fn can_place(map: &Board, piece: &Piece, player: &Player, board_y: usize, board_x: usize) -> (r: bool)
    requires
        map.wf(),
        piece.wf(),
        piece.fits(),
        offsets_fit(piece, board_y as int, board_x as int),
    ensures
        r == placeable_on_empty(map, piece, *player, board_y as int, board_x as int),
{
    let ghost f = covers_own(map, piece, *player, board_y as int, board_x as int);
    proof {
        assert forall|yy: int, xx: int|
            0 <= yy < piece.height && 0 <= xx < piece.width implies 0 <= #[trigger] f(yy, xx) <= 1 by {}
        lemma_grid_sum_bounds(piece.height as int, piece.width as int, f, 1);
    }
    let mut overlap_count: usize = 0;
    let mut py: usize = 0;
    while py < piece.height
        invariant
            map.wf(),
            piece.wf(),
            piece.fits(),
            offsets_fit(piece, board_y as int, board_x as int),
            f == covers_own(map, piece, *player, board_y as int, board_x as int),
            forall|yy: int, xx: int| 0 <= yy < piece.height && 0 <= xx < piece.width ==> 0 <= #[trigger] f(yy, xx) <= 1,
            grid_sum(piece.height as int, piece.width as int, f) <= usize::MAX,
            py <= piece.height,
            overlap_count == grid_sum(py as int, piece.width as int, f),
            forall|yy: int, xx: int|
                0 <= yy < py && 0 <= xx < piece.width && #[trigger] piece.is_block(yy, xx) ==> {
                    &&& board_y + yy < map.height
                    &&& board_x + xx < map.width
                    &&& own_or_empty(*player, map.cell(board_y + yy, board_x + xx))
                },
        decreases piece.height - py,
    {
        let row = &piece.shape[py];
        assert(row@ == piece.cells()[py as int]);
        let mut px: usize = 0;
        while px < piece.width
            invariant
                map.wf(),
                piece.wf(),
                offsets_fit(piece, board_y as int, board_x as int),
                f == covers_own(map, piece, *player, board_y as int, board_x as int),
                forall|yy: int, xx: int| 0 <= yy < piece.height && 0 <= xx < piece.width ==> 0 <= #[trigger] f(yy, xx) <= 1,
                grid_sum(piece.height as int, piece.width as int, f) <= usize::MAX,
                py < piece.height,
                px <= piece.width,
                row@ == piece.cells()[py as int],
                row@.len() == piece.width,
                overlap_count == grid_sum(py as int, piece.width as int, f) + row_sum(py as int, px as int, f),
                forall|yy: int, xx: int|
                    0 <= yy < py && 0 <= xx < piece.width && #[trigger] piece.is_block(yy, xx) ==> {
                        &&& board_y + yy < map.height
                        &&& board_x + xx < map.width
                        &&& own_or_empty(*player, map.cell(board_y + yy, board_x + xx))
                    },
                forall|xx: int|
                    0 <= xx < px && #[trigger] piece.is_block(py as int, xx) ==> {
                        &&& board_y + py < map.height
                        &&& board_x + xx < map.width
                        &&& own_or_empty(*player, map.cell(board_y + py, board_x + xx))
                    },
            decreases piece.width - px,
        {
            if row[px] == 'O' {
                assert(piece.is_block(py as int, px as int));
                let y = board_y + py;
                let x = board_x + px;
                if y >= map.height || x >= map.width {
                    return false;
                }
                proof { map.lemma_row(y as int); }
                let cell = map.grid[y][x];
                assert(cell == map.cell(y as int, x as int));
                if cell == player.p1 || cell == player.p1_alt {
                    proof {
                        lemma_grid_sum_partial(piece.height as int, piece.width as int, py as int, px + 1, f);
                    }
                    overlap_count += 1;
                } else if cell == player.p2 || cell == player.p2_alt {
                    return false;
                } else if cell != '.' {
                    return false;
                }
            }
            px += 1;
        }
        py += 1;
    }
    overlap_count == 1
}

/// Law: on a board whose cells are all empty ('.') or marked by a player,
/// both placement checks agree.
pub proof fn law_checks_agree_on_plain_boards(map: &Board, piece: &Piece, player: Player, by: int, bx: int)
    requires
        0 <= by,
        0 <= bx,
        forall|y: int, x: int|
            0 <= y < map.height && 0 <= x < map.width ==> {
                let c = #[trigger] map.cell(y, x);
                c == '.' || player.owns(c) || player.opponent_owns(c)
            },
    ensures
        placeable(map, piece, player, by, bx) == placeable_on_empty(map, piece, player, by, bx),
{
    if lands_inside(map, piece, by, bx) {
        assert forall|py: int, px: int|
            0 <= py < piece.height && 0 <= px < piece.width && #[trigger] piece.is_block(py, px) implies
            (!player.opponent_only(map.cell(by + py, bx + px)) <==> own_or_empty(player, map.cell(by + py, bx + px))) by {
            assert(by + py < map.height && bx + px < map.width);
            let c = map.cell(by + py, bx + px);
            assert(c == '.' || player.owns(c) || player.opponent_owns(c));
        }
        assert(avoids_opponent(map, piece, player, by, bx) == covers_own_or_empty(map, piece, player, by, bx));
    }
}

} // verus!
