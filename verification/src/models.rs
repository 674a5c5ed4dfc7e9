//! The board, the piece to place and the two players' marks.

use vstd::prelude::*;

verus! {

/// The rows of a grid of characters, as sequences.
pub open spec fn rows_of(rows: Seq<Vec<char>>) -> Seq<Seq<char>> {
    rows.map_values(|r: Vec<char>| r@)
}

/// Every one of the `h` rows holds exactly `w` characters.
pub open spec fn is_rectangle(rows: Seq<Seq<char>>, h: int, w: int) -> bool {
    &&& rows.len() == h
    &&& forall|y: int| 0 <= y < h ==> #[trigger] rows[y].len() == w
}

/// A grid of `h` by `w` characters fits in memory: each character takes
/// four bytes, so no grid held in memory has more cells than this.
pub open spec fn fits_in_memory(h: int, w: int) -> bool {
    h * w <= usize::MAX as int / 4
}

/// The marks of the two players: each owns a cell marked with its main
/// character or with its alternative one (the cells it placed last).
#[derive(Debug, Clone, Copy)]
pub struct Player {
    pub p1: char,
    pub p1_alt: char,
    pub p2: char,
    pub p2_alt: char,
}

impl Player {
    /// The cell holds one of our marks.
    pub open spec fn owns(self, c: char) -> bool {
        c == self.p1 || c == self.p1_alt
    }

    /// The cell holds one of the opponent's marks.
    pub open spec fn opponent_owns(self, c: char) -> bool {
        c == self.p2 || c == self.p2_alt
    }

    /// The cell counts as the opponent's where ours are checked first.
    pub open spec fn opponent_only(self, c: char) -> bool {
        !self.owns(c) && self.opponent_owns(c)
    }
}

/// The board ("Anfield"): `height` rows of `width` cells.
pub struct Board {
    pub width: usize,
    pub height: usize,
    pub grid: Vec<Vec<char>>,
}

impl Board {
    /// The cells of the board, row by row.
    pub open spec fn cells(&self) -> Seq<Seq<char>> {
        rows_of(self.grid@)
    }

    /// The cell at row `y`, column `x`.
    pub open spec fn cell(&self, y: int, x: int) -> char {
        self.grid@[y]@[x]
    }

    /// The grid has `height` rows of `width` cells each.
    pub open spec fn wf(&self) -> bool {
        is_rectangle(self.cells(), self.height as int, self.width as int)
    }

    /// Row `y` of a well-formed board holds `width` cells.
    pub proof fn lemma_row(&self, y: int)
        requires
            self.wf(),
            0 <= y < self.height,
        ensures
            self.cells()[y] == self.grid@[y]@,
            self.grid@[y]@.len() == self.width,
    {
        assert(self.cells()[y].len() == self.width);
    }

    /// The board's size is one that memory can hold.
    pub open spec fn fits(&self) -> bool {
        fits_in_memory(self.height as int, self.width as int)
    }

    /// Tells whether the board's size is one that memory can hold.
    pub fn fits_in_memory(&self) -> (b: bool)
        ensures
            b == self.fits(),
    {
        match self.height.checked_mul(self.width) {
            Some(n) => n <= usize::MAX / 4,
            None => false,
        }
    }
}

impl View for Board {
    type V = (usize, usize, Seq<Seq<char>>);

    open spec fn view(&self) -> (usize, usize, Seq<Seq<char>>) {
        (self.width, self.height, self.cells())
    }
}

/// A piece, cut down to the smallest box around its blocks ('O').
/// `offset_x` and `offset_y` say where that box starts in the piece as
/// given; `original_width` and `original_height` are the given size.
pub struct Piece {
    pub width: usize,
    pub height: usize,
    pub shape: Vec<Vec<char>>,
    pub offset_x: usize,
    pub offset_y: usize,
    pub original_width: usize,
    pub original_height: usize,
}

/// The fields of a piece, the shape taken as sequences: width, height,
/// shape, offset_x, offset_y, original_width, original_height.
pub type PieceView = (usize, usize, Seq<Seq<char>>, usize, usize, usize, usize);

impl Piece {
    /// The cells of the piece, row by row.
    pub open spec fn cells(&self) -> Seq<Seq<char>> {
        rows_of(self.shape@)
    }

    /// The cell at row `y`, column `x`.
    pub open spec fn cell(&self, y: int, x: int) -> char {
        self.shape@[y]@[x]
    }

    /// The cell at row `y`, column `x` is a block of the piece.
    pub open spec fn is_block(&self, y: int, x: int) -> bool {
        self.cell(y, x) == 'O'
    }

    /// The shape has `height` rows of `width` cells each.
    pub open spec fn wf(&self) -> bool {
        is_rectangle(self.cells(), self.height as int, self.width as int)
    }

    /// Row `y` of a well-formed piece holds `width` cells.
    pub proof fn lemma_row(&self, y: int)
        requires
            self.wf(),
            0 <= y < self.height,
        ensures
            self.cells()[y] == self.shape@[y]@,
            self.shape@[y]@.len() == self.width,
    {
        assert(self.cells()[y].len() == self.width);
    }

    /// The piece's size is one that memory can hold.
    pub open spec fn fits(&self) -> bool {
        fits_in_memory(self.height as int, self.width as int)
    }

    /// Tells whether the piece's size is one that memory can hold.
    pub fn fits_in_memory(&self) -> (b: bool)
        ensures
            b == self.fits(),
    {
        match self.height.checked_mul(self.width) {
            Some(n) => n <= usize::MAX / 4,
            None => false,
        }
    }
}

impl View for Piece {
    type V = PieceView;

    open spec fn view(&self) -> PieceView {
        (
            self.width,
            self.height,
            self.cells(),
            self.offset_x,
            self.offset_y,
            self.original_width,
            self.original_height,
        )
    }
}

} // verus!
