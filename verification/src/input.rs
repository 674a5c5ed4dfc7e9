//! Reading the game's messages. The game sends lines; the reader sees the
//! lines received so far (white space trimmed, empty lines left out) and
//! tells, for what it looks for, whether it is complete, how many lines it
//! took, or that the lines cannot give it.

use vstd::prelude::*;
use crate::models::{is_rectangle, rows_of, Board, Piece, PieceView, Player};
use crate::text::{
    byte_len, contains_seq, has_four_bytes, has_infix, has_prefix, parse_number, parse_usize,
    split_words, starts_with, strip_trailing_colons, trim_colons, words,
};

verus! {

/// What the lines received so far give.
pub enum Scan<T> {
    /// Not yet complete: the next lines decide.
    Pending,
    /// Complete: the value, and how many lines from the first it took.
    Found(T, usize),
    /// The lines cannot give it.
    Rejected,
}

impl<T: View> View for Scan<T> {
    type V = Scan<T::V>;

    open spec fn view(&self) -> Scan<T::V> {
        match self {
            Scan::Pending => Scan::Pending,
            Scan::Found(t, n) => Scan::Found(t@, *n),
            Scan::Rejected => Scan::Rejected,
        }
    }
}

/// The index of the first line that satisfies `pred`.
pub open spec fn first_match(lines: Seq<Seq<char>>, pred: spec_fn(Seq<char>) -> bool) -> Option<int>
    decreases lines.len(),
{
    if lines.len() == 0 {
        None
    } else {
        match first_match(lines.drop_last(), pred) {
            Some(i) => Some(i),
            None => if pred(lines.last()) { Some(lines.len() - 1) } else { None },
        }
    }
}

/// The first match is the first line that satisfies the predicate; there
/// is none where no line does.
pub proof fn lemma_first_match(lines: Seq<Seq<char>>, pred: spec_fn(Seq<char>) -> bool)
    ensures
        match first_match(lines, pred) {
            Some(i) => 0 <= i < lines.len() && pred(lines[i]) && forall|j: int| 0 <= j < i ==> !pred(#[trigger] lines[j]),
            None => forall|j: int| 0 <= j < lines.len() ==> !pred(#[trigger] lines[j]),
        },
    decreases lines.len(),
{
    if lines.len() > 0 {
        let d = lines.drop_last();
        lemma_first_match(d, pred);
        match first_match(d, pred) {
            Some(i) => {
                assert(d[i] == lines[i]);
                assert forall|j: int| 0 <= j < i implies !pred(#[trigger] lines[j]) by {
                    assert(d[j] == lines[j]);
                }
            },
            None => {
                assert forall|j: int| 0 <= j < d.len() implies !pred(#[trigger] lines[j]) by {
                    assert(d[j] == lines[j]);
                }
            },
        }
    }
}

/// The index of the first line that holds `pat`, or the number of lines
/// where none does.
fn first_line_holding(lines: &Vec<Vec<char>>, pat: &[char]) -> (k: usize)
    ensures
        k <= lines@.len(),
        forall|j: int| 0 <= j < k ==> !contains_seq(#[trigger] rows_of(lines@)[j], pat@),
        k < lines@.len() ==> contains_seq(rows_of(lines@)[k as int], pat@),
{
    let mut k: usize = 0;
    while k < lines.len()
        invariant
            k <= lines@.len(),
            forall|j: int| 0 <= j < k ==> !contains_seq(#[trigger] rows_of(lines@)[j], pat@),
        decreases lines.len() - k,
    {
        assert(rows_of(lines@)[k as int] == lines@[k as int]@);
        if has_infix(&lines[k], pat) {
            return k;
        }
        k += 1;
    }
    k
}

/// The index of the first line that begins with `pat`, or the number of
/// lines where none does.
fn first_line_starting(lines: &Vec<Vec<char>>, pat: &[char]) -> (k: usize)
    ensures
        k <= lines@.len(),
        forall|j: int| 0 <= j < k ==> !starts_with(#[trigger] rows_of(lines@)[j], pat@),
        k < lines@.len() ==> starts_with(rows_of(lines@)[k as int], pat@),
{
    let mut k: usize = 0;
    while k < lines.len()
        invariant
            k <= lines@.len(),
            forall|j: int| 0 <= j < k ==> !starts_with(#[trigger] rows_of(lines@)[j], pat@),
        decreases lines.len() - k,
    {
        assert(rows_of(lines@)[k as int] == lines@[k as int]@);
        if has_prefix(&lines[k], pat) {
            return k;
        }
        k += 1;
    }
    k
}

/// The first match among lines is the first line that satisfies the
/// predicate, or none.
proof fn lemma_first_match_is(lines: Seq<Seq<char>>, pred: spec_fn(Seq<char>) -> bool, i: int)
    requires
        0 <= i <= lines.len(),
        forall|j: int| 0 <= j < i ==> !pred(#[trigger] lines[j]),
        i < lines.len() ==> pred(lines[i]),
    ensures
        first_match(lines, pred) == (if i < lines.len() { Some(i) } else { None::<int> }),
{
    lemma_first_match(lines, pred);
    match first_match(lines, pred) {
        Some(k) => {
            if k < i {
                assert(!pred(lines[k]));
            } else if k > i {
                assert(!pred(lines[i]));
            }
        },
        None => {
            if i < lines.len() {
                assert(!pred(lines[i]));
            }
        },
    }
}

// ----------------------------------------------------------------------
// The players
// ----------------------------------------------------------------------

/// The marks when we are the first player: '@' and 'a' ours, '$' and 's'
/// the opponent's.
pub open spec fn first_player() -> Player {
    Player { p1: '@', p1_alt: 'a', p2: '$', p2_alt: 's' }
}

/// The marks when we are the second player: '$' and 's' ours, '@' and 'a'
/// the opponent's.
pub open spec fn second_player() -> Player {
    Player { p1: '$', p1_alt: 's', p2: '@', p2_alt: 'a' }
}

/// "$$$ exec p", which begins the line that tells us who we are.
pub open spec fn exec_prefix() -> Seq<char> {
    seq!['$', '$', '$', ' ', 'e', 'x', 'e', 'c', ' ', 'p']
}

/// The marks that a line gives: the line that begins with "$$$ exec p"
/// names our player by the character that follows: '1' makes us the first
/// player, '2' the second; any other line gives none.
pub open spec fn player_for_line(line: Seq<char>) -> Option<Player> {
    if starts_with(line, exec_prefix()) && line.len() > exec_prefix().len() {
        let n = line[exec_prefix().len() as int];
        if n == '1' {
            Some(first_player())
        } else if n == '2' {
            Some(second_player())
        } else {
            None
        }
    } else {
        None
    }
}

/// Picks the lines that tell us who we are.
pub open spec fn names_player() -> spec_fn(Seq<char>) -> bool {
    |line: Seq<char>| player_for_line(line) is Some
}

/// What the lines give of the player's marks: those of the first line
/// that tells us who we are, and that line's number plus one.
pub open spec fn player_info(lines: Seq<Seq<char>>) -> Scan<Player> {
    match first_match(lines, names_player()) {
        Some(i) => Scan::Found(player_for_line(lines[i])->0, (i + 1) as usize),
        None => Scan::Pending,
    }
}

/// The marks that a line gives, if any.
fn player_from_line(line: &Vec<char>) -> (r: Option<Player>)
    ensures
        r == player_for_line(line@),
{
    let prefix: [char; 10] = ['$', '$', '$', ' ', 'e', 'x', 'e', 'c', ' ', 'p'];
    assert(prefix@ =~= exec_prefix());
    if has_prefix(line, &prefix) && line.len() > 10 {
        let n = line[10];
        if n == '1' {
            return Some(Player { p1: '@', p1_alt: 'a', p2: '$', p2_alt: 's' });
        } else if n == '2' {
            return Some(Player { p1: '$', p1_alt: 's', p2: '@', p2_alt: 'a' });
        }
    }
    None
}

/// Looks for the line that tells us who we are ("$$$ exec p1 ..." or
/// "$$$ exec p2 ...") and gives our marks and the opponent's.
pub fn get_player_info(lines: &Vec<Vec<char>>) -> (r: Scan<Player>)
    ensures
        r == player_info(rows_of(lines@)),
        r matches Scan::Found(_, n) ==> n <= lines@.len(),
{
    let ghost all = rows_of(lines@);
    let mut i: usize = 0;
    while i < lines.len()
        invariant
            i <= lines@.len(),
            all == rows_of(lines@),
            forall|j: int| 0 <= j < i ==> !names_player()(#[trigger] all[j]),
        decreases lines.len() - i,
    {
        match player_from_line(&lines[i]) {
            Some(p) => {
                proof {
                    lemma_first_match_is(all, names_player(), i as int);
                }
                return Scan::Found(p, i + 1);
            },
            None => {},
        }
        i += 1;
    }
    proof {
        lemma_first_match_is(all, names_player(), i as int);
    }
    Scan::Pending
}

// ----------------------------------------------------------------------
// The board
// ----------------------------------------------------------------------

/// "Anfield", which the line that announces the board holds.
pub open spec fn anfield() -> Seq<char> {
    seq!['A', 'n', 'f', 'i', 'e', 'l', 'd']
}

/// Picks the lines that announce the board.
pub open spec fn announces_board() -> spec_fn(Seq<char>) -> bool {
    |line: Seq<char>| contains_seq(line, anfield())
}

/// The width and height that the board's announcement gives: its second
/// word and its third (without the colons that end it), read as numbers;
/// none where it has fewer than three words or they are not numbers.
pub open spec fn board_size(line: Seq<char>) -> Option<(usize, usize)> {
    let parts = words(line);
    if parts.len() < 3 {
        None
    } else {
        match (parse_usize(parts[1]), parse_usize(trim_colons(parts[2]))) {
            (Some(w), Some(h)) => Some((w, h)),
            _ => None,
        }
    }
}

/// The cells that a row line gives: what follows its first four
/// characters (its row number and a space); none where the line takes
/// fewer than four bytes or the cells are not `width` many.
pub open spec fn board_row(line: Seq<char>, width: int) -> Option<Seq<char>> {
    let row = if line.len() >= 4 { line.skip(4) } else { Seq::empty() };
    if byte_len(line) < 4 || row.len() != width {
        None
    } else {
        Some(row)
    }
}

/// What the `n` row lines from `start` on give: all their rows, with how
/// many lines they took; or that a row line is wrong; or, where a line is
/// missing before any row line is wrong, that more lines are needed.
pub open spec fn read_rows(lines: Seq<Seq<char>>, start: int, n: int, width: int) -> Scan<Seq<Seq<char>>>
    decreases n,
{
    if n <= 0 {
        Scan::Found(Seq::empty(), 0)
    } else {
        match read_rows(lines, start, n - 1, width) {
            Scan::Found(rows, c) => {
                if start + n - 1 >= lines.len() {
                    Scan::Pending
                } else {
                    match board_row(lines[start + n - 1], width) {
                        Some(row) => Scan::Found(rows.push(row), (c + 1) as usize),
                        None => Scan::Rejected,
                    }
                }
            },
            other => other,
        }
    }
}

/// Once the row lines settle the outcome, more rows do not change it.
proof fn lemma_read_rows_settled(lines: Seq<Seq<char>>, start: int, n: int, m: int, width: int)
    requires
        0 <= n <= m,
        !(read_rows(lines, start, n, width) is Found),
    ensures
        read_rows(lines, start, m, width) == read_rows(lines, start, n, width),
    decreases m,
{
    if m > n {
        lemma_read_rows_settled(lines, start, n, m - 1, width);
    }
}

/// What the lines give of the board: after the first line that announces
/// it, its size; then a line of column numbers; then `height` row lines.
/// Rejected where the announcement or a row line is wrong.
pub open spec fn board_info(lines: Seq<Seq<char>>) -> Scan<(usize, usize, Seq<Seq<char>>)> {
    match first_match(lines, announces_board()) {
        None => Scan::Pending,
        Some(k) => match board_size(lines[k]) {
            None => Scan::Rejected,
            Some((w, h)) => {
                if lines.len() < k + 2 {
                    Scan::Pending
                } else {
                    match read_rows(lines, k + 2, h as int, w as int) {
                        Scan::Found(rows, c) => Scan::Found((w, h, rows), (k + 2 + c) as usize),
                        Scan::Pending => Scan::Pending,
                        Scan::Rejected => Scan::Rejected,
                    }
                }
            },
        },
    }
}

/// The size that the board's announcement gives.
fn parse_board_size(line: &Vec<char>) -> (r: Option<(usize, usize)>)
    ensures
        r == board_size(line@),
{
    let parts = split_words(line);
    assert(rows_of(parts@).len() == parts@.len());
    if parts.len() < 3 {
        return None;
    }
    assert(rows_of(parts@)[1] == parts@[1]@);
    assert(rows_of(parts@)[2] == parts@[2]@);
    let width = parse_number(&parts[1]);
    let trimmed = strip_trailing_colons(&parts[2]);
    let height = parse_number(&trimmed);
    match (width, height) {
        (Some(w), Some(h)) => Some((w, h)),
        _ => None,
    }
}

/// The cells that a row line gives.
fn parse_board_row(line: &Vec<char>, width: usize) -> (r: Option<Vec<char>>)
    ensures
        match r {
            Some(row) => board_row(line@, width as int) == Some(row@),
            None => board_row(line@, width as int) is None,
        },
{
    if !has_four_bytes(line) {
        return None;
    }
    let mut row: Vec<char> = Vec::new();
    let mut i: usize = 4;
    while i < line.len()
        invariant
            4 <= i,
            i <= line@.len() || line@.len() < 4,
            line@.len() >= 4 ==> row@ =~= line@.subrange(4, i as int),
            line@.len() < 4 ==> row@.len() == 0,
        decreases line.len() - i,
    {
        row.push(line[i]);
        i += 1;
    }
    if row.len() != width {
        return None;
    }
    Some(row)
}

/// Looks for the board: the line that announces it ("Anfield", its width,
/// its height), the line of column numbers, then one line per row, whose
/// first four characters are left out. Gives the board, and how many lines
/// it took, once its rows have come.
pub fn read_map(lines: &Vec<Vec<char>>) -> (r: Scan<Board>)
    ensures
        r@ == board_info(rows_of(lines@)),
        r matches Scan::Found(b, n) ==> b.wf() && n <= lines@.len(),
{
    let ghost all = rows_of(lines@);
    let pat: [char; 7] = ['A', 'n', 'f', 'i', 'e', 'l', 'd'];
    assert(pat@ =~= anfield());
    let k = first_line_holding(lines, &pat);
    proof {
        assert forall|j: int| 0 <= j < k implies !announces_board()(#[trigger] all[j]) by {
            assert(!contains_seq(rows_of(lines@)[j], pat@));
        }
        lemma_first_match_is(all, announces_board(), k as int);
    }
    if k == lines.len() {
        return Scan::Pending;
    }
    assert(all[k as int] == lines@[k as int]@);
    let (width, height) = match parse_board_size(&lines[k]) {
        Some(size) => size,
        None => {
            return Scan::Rejected;
        },
    };
    if lines.len() - k < 2 {
        return Scan::Pending;
    }
    let start = k + 2;
    let mut grid: Vec<Vec<char>> = Vec::new();
    let mut r: usize = 0;
    assert(rows_of(grid@) =~= Seq::<Seq<char>>::empty());
    while r < height
        invariant
            all == rows_of(lines@),
            first_match(all, announces_board()) == Some(k as int),
            board_size(all[k as int]) == Some((width, height)),
            start == k + 2,
            start <= lines@.len(),
            r <= height,
            read_rows(all, start as int, r as int, width as int) == Scan::Found(rows_of(grid@), r),
            grid@.len() == r,
            forall|y: int| 0 <= y < r ==> (#[trigger] grid@[y])@.len() == width,
        decreases height - r,
    {
        if r >= lines.len() - start {
            proof {
                lemma_read_rows_settled(all, start as int, r + 1, height as int, width as int);
            }
            return Scan::Pending;
        }
        assert(all[start + r] == lines@[start + r]@);
        match parse_board_row(&lines[start + r], width) {
            Some(row) => {
                let ghost before = grid@;
                let ghost cells = row@;
                grid.push(row);
                assert(rows_of(grid@) =~= rows_of(before).push(cells));
            },
            None => {
                proof {
                    lemma_read_rows_settled(all, start as int, r + 1, height as int, width as int);
                }
                return Scan::Rejected;
            },
        }
        r += 1;
    }
    let board = Board { width, height, grid };
    assert(is_rectangle(board.cells(), height as int, width as int));
    Scan::Found(board, start + height)
}

// ----------------------------------------------------------------------
// The piece
// ----------------------------------------------------------------------

/// `(y, x)` is a block ('O') of `raw` within its first `w` columns.
pub open spec fn block_in(raw: Seq<Seq<char>>, w: int, y: int, x: int) -> bool {
    0 <= y < raw.len() && 0 <= x < w && raw[y][x] == 'O'
}

/// `raw` has a block within its first `w` columns.
pub open spec fn has_block(raw: Seq<Seq<char>>, w: int) -> bool {
    exists|y: int, x: int| block_in(raw, w, y, x)
}

/// Rows `top` to `bottom` and columns `left` to `right` are the smallest
/// box that holds every block of `raw` within its first `w` columns.
pub open spec fn is_bounding_box(raw: Seq<Seq<char>>, w: int, top: int, bottom: int, left: int, right: int) -> bool {
    &&& exists|x: int| block_in(raw, w, top, x)
    &&& exists|x: int| block_in(raw, w, bottom, x)
    &&& exists|y: int| block_in(raw, w, y, left)
    &&& exists|y: int| block_in(raw, w, y, right)
    &&& forall|y: int, x: int| #[trigger] block_in(raw, w, y, x) ==> top <= y <= bottom && left <= x <= right
}

/// The smallest box around the blocks: top, bottom, left, right.
pub open spec fn bounding_box(raw: Seq<Seq<char>>, w: int) -> (int, int, int, int) {
    choose|b: (int, int, int, int)| is_bounding_box(raw, w, b.0, b.1, b.2, b.3)
}

/// Only one box is the smallest.
proof fn lemma_bounding_box_unique(raw: Seq<Seq<char>>, w: int, t: int, b: int, l: int, r: int)
    requires
        is_bounding_box(raw, w, t, b, l, r),
    ensures
        bounding_box(raw, w) == (t, b, l, r),
{
    let witness = (t, b, l, r);
    assert(is_bounding_box(raw, w, witness.0, witness.1, witness.2, witness.3));
    let bb = bounding_box(raw, w);
    assert(is_bounding_box(raw, w, bb.0, bb.1, bb.2, bb.3));
    let x1 = choose|x: int| block_in(raw, w, t, x);
    let x2 = choose|x: int| block_in(raw, w, bb.0, x);
    let x3 = choose|x: int| block_in(raw, w, b, x);
    let x4 = choose|x: int| block_in(raw, w, bb.1, x);
    let y1 = choose|y: int| block_in(raw, w, y, l);
    let y2 = choose|y: int| block_in(raw, w, y, bb.2);
    let y3 = choose|y: int| block_in(raw, w, y, r);
    let y4 = choose|y: int| block_in(raw, w, y, bb.3);
    assert(block_in(raw, w, t, x1));
    assert(block_in(raw, w, bb.0, x2));
    assert(block_in(raw, w, b, x3));
    assert(block_in(raw, w, bb.1, x4));
    assert(block_in(raw, w, y1, l));
    assert(block_in(raw, w, y2, bb.2));
    assert(block_in(raw, w, y3, r));
    assert(block_in(raw, w, y4, bb.3));
}

/// What trimming gives: the rows and columns of the smallest box around
/// the blocks, with the box's top row and left column; no rows and
/// `(0, 0)` where there is no block.
pub open spec fn trimmed(raw: Seq<Seq<char>>, w: int) -> (Seq<Seq<char>>, int, int) {
    if has_block(raw, w) {
        let b = bounding_box(raw, w);
        (Seq::new((b.1 - b.0 + 1) as nat, |i: int| raw[b.0 + i].subrange(b.2, b.3 + 1)), b.0, b.2)
    } else {
        (Seq::empty(), 0, 0)
    }
}

/// Every row is at least as long as the first.
pub open spec fn rows_cover_first(raw: Seq<Seq<char>>) -> bool {
    forall|y: int| 0 <= y < raw.len() ==> #[trigger] raw[y].len() >= raw[0].len()
}

/// How many columns the first row has, or 0 where there is no row.
pub open spec fn first_width(raw: Seq<Seq<char>>) -> int {
    if raw.len() > 0 { raw[0].len() as int } else { 0 }
}

/// Cuts the piece down to the smallest box around its blocks ('O'),
/// looking at as many columns as the first row has. Gives the rows of the
/// box, its top row and its left column; no rows and `(0, 0)` where there
/// is no block (an empty piece among them).
pub fn trim_piece(raw_shape: &Vec<Vec<char>>) -> (r: (Vec<Vec<char>>, usize, usize))
    requires
        rows_cover_first(rows_of(raw_shape@)),
    ensures
        (rows_of(r.0@), r.1 as int, r.2 as int) == trimmed(rows_of(raw_shape@), first_width(rows_of(raw_shape@))),
        forall|i: int| 0 <= i < r.0@.len() ==> (#[trigger] r.0@[i])@.len() == r.0@[0]@.len(),
{
    let ghost raw = rows_of(raw_shape@);
    let height = raw_shape.len();
    if height == 0 {
        proof {
            if has_block(raw, 0) {
                let (yy, xx) = choose|yy: int, xx: int| block_in(raw, 0, yy, xx);
                assert(block_in(raw, 0, yy, xx));
            }
        }
        return (Vec::new(), 0, 0);
    }
    let width = raw_shape[0].len();
    assert(raw[0] == raw_shape@[0]@);
    let ghost w = width as int;
    let mut min_row: usize = height;
    let mut max_row: usize = 0;
    let mut min_col: usize = width;
    let mut max_col: usize = 0;
    let ghost mut seen = false;
    let ghost mut top_x: int = 0;
    let ghost mut bottom_x: int = 0;
    let ghost mut left_y: int = 0;
    let ghost mut right_y: int = 0;
    let mut y: usize = 0;
    while y < height
        invariant
            raw == rows_of(raw_shape@),
            height == raw.len(),
            w == width,
            w == raw[0].len(),
            rows_cover_first(raw),
            y <= height,
            !seen ==> min_row == height && max_row == 0 && min_col == width && max_col == 0,
            seen ==> block_in(raw, w, min_row as int, top_x) && block_in(raw, w, max_row as int, bottom_x)
                && block_in(raw, w, left_y, min_col as int) && block_in(raw, w, right_y, max_col as int),
            forall|yy: int, xx: int| #[trigger] block_in(raw, w, yy, xx) && yy < y ==>
                seen && min_row <= yy <= max_row && min_col <= xx <= max_col,
        decreases height - y,
    {
        let row = &raw_shape[y];
        assert(raw[y as int] == row@);
        assert(row@.len() >= width);
        let mut x: usize = 0;
        while x < width
            invariant
                raw == rows_of(raw_shape@),
                height == raw.len(),
                w == width,
                y < height,
                x <= width,
                row@ == raw[y as int],
                row@.len() >= width,
                !seen ==> min_row == height && max_row == 0 && min_col == width && max_col == 0,
                seen ==> block_in(raw, w, min_row as int, top_x) && block_in(raw, w, max_row as int, bottom_x)
                    && block_in(raw, w, left_y, min_col as int) && block_in(raw, w, right_y, max_col as int),
                forall|yy: int, xx: int| #[trigger] block_in(raw, w, yy, xx) && (yy < y || (yy == y && xx < x)) ==>
                    seen && min_row <= yy <= max_row && min_col <= xx <= max_col,
            decreases width - x,
        {
            if row[x] == 'O' {
                assert(block_in(raw, w, y as int, x as int));
                let ghost was_seen = seen;
                let ghost old_min_row = min_row;
                let ghost old_max_row = max_row;
                let ghost old_min_col = min_col;
                let ghost old_max_col = max_col;
                if y < min_row {
                    min_row = y;
                }
                if y > max_row {
                    max_row = y;
                }
                if x < min_col {
                    min_col = x;
                }
                if x > max_col {
                    max_col = x;
                }
                proof {
                    if !was_seen || y < old_min_row {
                        top_x = x as int;
                    }
                    if !was_seen || y > old_max_row {
                        bottom_x = x as int;
                    }
                    if !was_seen || x < old_min_col {
                        left_y = y as int;
                    }
                    if !was_seen || x > old_max_col {
                        right_y = y as int;
                    }
                    seen = true;
                }
            }
            x += 1;
        }
        y += 1;
    }
    if min_row > max_row || min_col > max_col {
        proof {
            if has_block(raw, w) {
                let (yy, xx) = choose|yy: int, xx: int| block_in(raw, w, yy, xx);
                assert(block_in(raw, w, yy, xx));
            }
        }
        return (Vec::new(), 0, 0);
    }
    proof {
        assert(seen);
        assert(has_block(raw, w));
        lemma_bounding_box_unique(raw, w, min_row as int, max_row as int, min_col as int, max_col as int);
    }
    let mut trimmed_rows: Vec<Vec<char>> = Vec::new();
    let mut ty: usize = min_row;
    while ty <= max_row
        invariant
            raw == rows_of(raw_shape@),
            height == raw.len(),
            w == width,
            w == raw[0].len(),
            rows_cover_first(raw),
            min_row <= ty <= max_row + 1,
            max_row < height,
            min_col <= max_col < width,
            rows_of(trimmed_rows@) =~= Seq::new((ty - min_row) as nat, |i: int| raw[min_row + i].subrange(min_col as int, max_col + 1)),
            forall|i: int| 0 <= i < trimmed_rows@.len() ==> (#[trigger] trimmed_rows@[i])@.len() == max_col + 1 - min_col,
        decreases max_row + 1 - ty,
    {
        let row = &raw_shape[ty];
        assert(raw[ty as int] == row@);
        assert(row@.len() >= width);
        let mut cells: Vec<char> = Vec::new();
        let mut tx: usize = min_col;
        while tx <= max_col
            invariant
                min_col <= tx <= max_col + 1,
                max_col < width,
                row@.len() >= width,
                cells@ =~= row@.subrange(min_col as int, tx as int),
            decreases max_col + 1 - tx,
        {
            cells.push(row[tx]);
            tx += 1;
        }
        let ghost before = trimmed_rows@;
        let ghost got = cells@;
        trimmed_rows.push(cells);
        assert(rows_of(trimmed_rows@) =~= rows_of(before).push(got));
        ty += 1;
    }
    (trimmed_rows, min_row, min_col)
}

/// What the piece's announcement says, as the reader takes it.
pub enum PieceHeader {
    /// It has too few words: reading the size would fail on a missing word.
    Short,
    /// Its width or height is not a number.
    Invalid,
    /// Its width and height.
    Size(usize, usize),
}

/// "Piece", which begins the line that announces the piece.
pub open spec fn piece_word() -> Seq<char> {
    seq!['P', 'i', 'e', 'c', 'e']
}

/// Picks the lines that announce the piece.
pub open spec fn announces_piece() -> spec_fn(Seq<char>) -> bool {
    |line: Seq<char>| starts_with(line, piece_word())
}

/// How the piece's announcement reads: its second word is the width and
/// its third (without the colons that end it) the height; the width is
/// read before the third word is looked at.
pub open spec fn piece_header(line: Seq<char>) -> PieceHeader {
    let parts = words(line);
    if parts.len() < 2 {
        PieceHeader::Short
    } else {
        match parse_usize(parts[1]) {
            None => PieceHeader::Invalid,
            Some(w) => {
                if parts.len() < 3 {
                    PieceHeader::Short
                } else {
                    match parse_usize(trim_colons(parts[2])) {
                        None => PieceHeader::Invalid,
                        Some(h) => PieceHeader::Size(w, h),
                    }
                }
            },
        }
    }
}

/// The fields of the piece that trimming `t` gives, of the given size.
pub open spec fn piece_fields(t: (Seq<Seq<char>>, int, int), original_width: usize, original_height: usize) -> PieceView {
    if t.0.len() == 0 {
        (0, 0, Seq::empty(), 0, 0, original_width, original_height)
    } else {
        (t.0[0].len() as usize, t.0.len() as usize, t.0, t.2 as usize, t.1 as usize, original_width, original_height)
    }
}

/// Reading the piece from these lines would fail: its announcement has
/// too few words, or its rows have all come and one is shorter than the
/// first.
pub open spec fn piece_read_fails(lines: Seq<Seq<char>>) -> bool {
    match first_match(lines, announces_piece()) {
        None => false,
        Some(k) => match piece_header(lines[k]) {
            PieceHeader::Short => true,
            PieceHeader::Invalid => false,
            PieceHeader::Size(_, h) => {
                lines.len() >= k + 1 + h && !rows_cover_first(lines.subrange(k + 1, k + 1 + h))
            },
        },
    }
}

/// What the lines give of the piece: after the first line that announces
/// it, `height` rows, trimmed; with the lines it took.
pub open spec fn piece_info(lines: Seq<Seq<char>>) -> Scan<PieceView> {
    match first_match(lines, announces_piece()) {
        None => Scan::Pending,
        Some(k) => match piece_header(lines[k]) {
            PieceHeader::Size(w, h) => {
                if lines.len() < k + 1 + h {
                    Scan::Pending
                } else {
                    let raw = lines.subrange(k + 1, k + 1 + h);
                    Scan::Found(piece_fields(trimmed(raw, first_width(raw)), w, h), (k + 1 + h) as usize)
                }
            },
            _ => Scan::Rejected,
        },
    }
}

/// How the piece's announcement reads.
fn parse_piece_header(line: &Vec<char>) -> (r: PieceHeader)
    ensures
        r == piece_header(line@),
{
    let parts = split_words(line);
    assert(rows_of(parts@).len() == parts@.len());
    if parts.len() < 2 {
        return PieceHeader::Short;
    }
    assert(rows_of(parts@)[1] == parts@[1]@);
    let width = match parse_number(&parts[1]) {
        Some(w) => w,
        None => {
            return PieceHeader::Invalid;
        },
    };
    if parts.len() < 3 {
        return PieceHeader::Short;
    }
    assert(rows_of(parts@)[2] == parts@[2]@);
    let trimmed = strip_trailing_colons(&parts[2]);
    match parse_number(&trimmed) {
        Some(h) => PieceHeader::Size(width, h),
        None => PieceHeader::Invalid,
    }
}

/// Tells whether reading the piece from these lines would fail, as
/// `read_piece` would on them.
pub fn piece_read_would_fail(lines: &Vec<Vec<char>>) -> (b: bool)
    ensures
        b == piece_read_fails(rows_of(lines@)),
{
    let ghost all = rows_of(lines@);
    let pat: [char; 5] = ['P', 'i', 'e', 'c', 'e'];
    assert(pat@ =~= piece_word());
    let k = first_line_starting(lines, &pat);
    proof {
        assert forall|j: int| 0 <= j < k implies !announces_piece()(#[trigger] all[j]) by {
            assert(!starts_with(rows_of(lines@)[j], pat@));
        }
        lemma_first_match_is(all, announces_piece(), k as int);
    }
    if k == lines.len() {
        return false;
    }
    assert(all[k as int] == lines@[k as int]@);
    match parse_piece_header(&lines[k]) {
        PieceHeader::Short => true,
        PieceHeader::Invalid => false,
        PieceHeader::Size(w0, height) => {
            if lines.len() - k - 1 < height {
                return false;
            }
            if height == 0 {
                return false;
            }
            let ghost raw = all.subrange(k + 1, k + 1 + height);
            let first = lines[k + 1].len();
            assert(raw[0] == lines@[k + 1]@);
            let mut y: usize = 0;
            while y < height
                invariant
                    all == rows_of(lines@),
                    first_match(all, announces_piece()) == Some(k as int),
                    piece_header(all[k as int]) == PieceHeader::Size(w0, height),
                    height > 0,
                    raw == all.subrange(k + 1, k + 1 + height),
                    k + 1 + height <= lines@.len(),
                    first == raw[0].len(),
                    y <= height,
                    forall|j: int| 0 <= j < y ==> #[trigger] raw[j].len() >= raw[0].len(),
                    lines@.len() == lines.len(),
                decreases height - y,
            {
                assert(raw[y as int] == lines@[k + 1 + y]@);
                if lines[k + 1 + y].len() < first {
                    assert(raw[y as int].len() < raw[0].len());
                    return true;
                }
                y += 1;
            }
            false
        },
    }
}

/// Looks for the piece: the line that announces it ("Piece", its width,
/// its height), then one line per row. Once its rows have come, gives the
/// piece cut down to the smallest box around its blocks ('O'), where that
/// box starts, the size as announced, and how many lines it took.
pub fn read_piece(lines: &Vec<Vec<char>>) -> (r: Scan<Piece>)
    requires
        !piece_read_fails(rows_of(lines@)),
    ensures
        r@ == piece_info(rows_of(lines@)),
        r matches Scan::Found(p, n) ==> p.wf() && n <= lines@.len(),
{
    let ghost all = rows_of(lines@);
    let pat: [char; 5] = ['P', 'i', 'e', 'c', 'e'];
    assert(pat@ =~= piece_word());
    let k = first_line_starting(lines, &pat);
    proof {
        assert forall|j: int| 0 <= j < k implies !announces_piece()(#[trigger] all[j]) by {
            assert(!starts_with(rows_of(lines@)[j], pat@));
        }
        lemma_first_match_is(all, announces_piece(), k as int);
    }
    if k == lines.len() {
        return Scan::Pending;
    }
    assert(all[k as int] == lines@[k as int]@);
    let (original_width, original_height) = match parse_piece_header(&lines[k]) {
        PieceHeader::Size(w, h) => (w, h),
        _ => {
            return Scan::Rejected;
        },
    };
    if lines.len() - k - 1 < original_height {
        return Scan::Pending;
    }
    let mut raw_shape: Vec<Vec<char>> = Vec::new();
    let mut y: usize = 0;
    assert(rows_of(raw_shape@) =~= Seq::<Seq<char>>::empty());
    while y < original_height
        invariant
            all == rows_of(lines@),
            k + 1 + original_height <= lines@.len(),
            y <= original_height,
            rows_of(raw_shape@) =~= all.subrange(k + 1, k + 1 + y),
            lines@.len() == lines.len(),
        decreases original_height - y,
    {
        let row = lines[k + 1 + y].clone();
        assert(all[k + 1 + y] == lines@[k + 1 + y]@);
        let ghost before = raw_shape@;
        let ghost got = row@;
        raw_shape.push(row);
        assert(rows_of(raw_shape@) =~= rows_of(before).push(got));
        y += 1;
    }
    let ghost raw = all.subrange(k + 1, k + 1 + original_height);
    assert(rows_of(raw_shape@) == raw);
    let (trimmed_shape, offset_y, offset_x) = trim_piece(&raw_shape);
    if trimmed_shape.len() == 0 {
        let piece = Piece {
            width: 0,
            height: 0,
            shape: trimmed_shape,
            offset_x: 0,
            offset_y: 0,
            original_width,
            original_height,
        };
        assert(piece.cells() =~= Seq::<Seq<char>>::empty());
        Scan::Found(piece, k + 1 + original_height)
    } else {
        let width = trimmed_shape[0].len();
        let height = trimmed_shape.len();
        proof {
            assert forall|i: int| 0 <= i < height implies #[trigger] rows_of(trimmed_shape@)[i].len() == width by {
                assert(trimmed_shape@[i]@.len() == trimmed_shape@[0]@.len());
            }
        }
        let piece = Piece {
            width,
            height,
            shape: trimmed_shape,
            offset_x,
            offset_y,
            original_width,
            original_height,
        };
        Scan::Found(piece, k + 1 + original_height)
    }
}

// ----------------------------------------------------------------------
// Reading as the lines come
// ----------------------------------------------------------------------

/// A first match stays the first match when more lines follow.
proof fn lemma_first_match_extends(lines: Seq<Seq<char>>, more: Seq<Seq<char>>, pred: spec_fn(Seq<char>) -> bool)
    requires
        first_match(lines, pred) is Some,
    ensures
        first_match(lines + more, pred) == first_match(lines, pred),
{
    let all = lines + more;
    lemma_first_match(lines, pred);
    let k = first_match(lines, pred)->0;
    assert forall|j: int| 0 <= j < k implies !pred(#[trigger] all[j]) by {
        assert(all[j] == lines[j]);
        assert(!pred(lines[j]));
    }
    assert(all[k] == lines[k]);
    lemma_first_match_is(all, pred, k);
}

/// Row lines that settled the outcome settle it whatever follows; rows
/// that all came took as many lines as there are rows, all present.
proof fn lemma_read_rows_extends(lines: Seq<Seq<char>>, more: Seq<Seq<char>>, start: int, n: int, width: int)
    requires
        0 <= start,
        !(read_rows(lines, start, n, width) is Pending),
    ensures
        read_rows(lines + more, start, n, width) == read_rows(lines, start, n, width),
    decreases n,
{
    if n > 0 {
        lemma_read_rows_extends(lines, more, start, n - 1, width);
        if start + n - 1 < lines.len() {
            assert((lines + more)[start + n - 1] == lines[start + n - 1]);
        }
    }
}

/// Law: once the lines received settle what they give of the players'
/// marks, more lines do not change it.
pub proof fn law_player_info_settles(lines: Seq<Seq<char>>, more: Seq<Seq<char>>)
    requires
        !(player_info(lines) is Pending),
    ensures
        player_info(lines + more) == player_info(lines),
{
    lemma_first_match(lines, names_player());
    lemma_first_match_extends(lines, more, names_player());
    let k = first_match(lines, names_player())->0;
    assert((lines + more)[k] == lines[k]);
}

/// Law: once the lines received settle what they give of the board (the
/// board and the lines it took, or that it cannot be read), more lines do
/// not change it.
pub proof fn law_board_info_settles(lines: Seq<Seq<char>>, more: Seq<Seq<char>>)
    requires
        !(board_info(lines) is Pending),
    ensures
        board_info(lines + more) == board_info(lines),
{
    let all = lines + more;
    lemma_first_match(lines, announces_board());
    lemma_first_match_extends(lines, more, announces_board());
    let k = first_match(lines, announces_board())->0;
    assert(all[k] == lines[k]);
    match board_size(lines[k]) {
        None => {},
        Some((w, h)) => {
            lemma_read_rows_extends(lines, more, k + 2, h as int, w as int);
        },
    }
}

/// Law: once the lines received settle what they give of the piece, more
/// lines do not change it.
pub proof fn law_piece_info_settles(lines: Seq<Seq<char>>, more: Seq<Seq<char>>)
    requires
        !(piece_info(lines) is Pending),
    ensures
        piece_info(lines + more) == piece_info(lines),
{
    let all = lines + more;
    lemma_first_match(lines, announces_piece());
    lemma_first_match_extends(lines, more, announces_piece());
    let k = first_match(lines, announces_piece())->0;
    assert(all[k] == lines[k]);
    match piece_header(lines[k]) {
        PieceHeader::Size(w, h) => {
            assert(all.subrange(k + 1, k + 1 + h) =~= lines.subrange(k + 1, k + 1 + h));
        },
        _ => {},
    }
}

/// Law: trimming keeps every block of the piece, at its place less the
/// offsets of the box.
pub proof fn law_trim_keeps_blocks(raw: Seq<Seq<char>>, w: int, y: int, x: int)
    requires
        rows_cover_first(raw),
        raw.len() > 0,
        w == raw[0].len(),
        block_in(raw, w, y, x),
    ensures
        ({
            let t = trimmed(raw, w);
            &&& 0 <= y - t.1 < t.0.len()
            &&& 0 <= x - t.2 < t.0[y - t.1].len()
            &&& t.0[y - t.1][x - t.2] == 'O'
        }),
{
    assert(has_block(raw, w));
    lemma_bounding_box_exists(raw, w);
    let bb = bounding_box(raw, w);
    assert(is_bounding_box(raw, w, bb.0, bb.1, bb.2, bb.3));
    let yr = choose|yy: int| block_in(raw, w, yy, bb.3);
    assert(block_in(raw, w, yr, bb.3));
    assert(raw[y].len() >= raw[0].len());
    let t = trimmed(raw, w);
    assert(t.0[y - bb.0] == raw[y].subrange(bb.2, bb.3 + 1));
}

/// Law: trimming cuts out a window of the piece: each cell of the trimmed
/// rows is the cell of the piece at its place plus the offsets, and the
/// window is the smallest box around the blocks (every side of it holds a
/// block).
pub proof fn law_trim_is_bounding_window(raw: Seq<Seq<char>>, w: int)
    requires
        rows_cover_first(raw),
        raw.len() > 0,
        w == raw[0].len(),
        has_block(raw, w),
    ensures
        ({
            let t = trimmed(raw, w);
            &&& t.0.len() > 0
            &&& is_bounding_box(raw, w, t.1, t.1 + t.0.len() - 1, t.2, t.2 + t.0[0].len() - 1)
            &&& forall|i: int, j: int| 0 <= i < t.0.len() && 0 <= j < t.0[i].len() ==>
                #[trigger] t.0[i][j] == raw[t.1 + i][t.2 + j]
        }),
{
    lemma_bounding_box_exists(raw, w);
    let bb = bounding_box(raw, w);
    assert(is_bounding_box(raw, w, bb.0, bb.1, bb.2, bb.3));
    let yr = choose|yy: int| block_in(raw, w, yy, bb.3);
    let xt = choose|xx: int| block_in(raw, w, bb.0, xx);
    assert(block_in(raw, w, yr, bb.3));
    assert(block_in(raw, w, bb.0, xt));
    let t = trimmed(raw, w);
    assert(raw[bb.0].len() >= raw[0].len());
    assert(t.0[0] == raw[bb.0].subrange(bb.2, bb.3 + 1));
    assert forall|i: int, j: int| 0 <= i < t.0.len() && 0 <= j < t.0[i].len() implies
        #[trigger] t.0[i][j] == raw[t.1 + i][t.2 + j] by {
        assert(raw[bb.0 + i].len() >= raw[0].len());
        assert(t.0[i] == raw[bb.0 + i].subrange(bb.2, bb.3 + 1));
    }
}

/// The cell `x` of the row is a block.
pub open spec fn block_at_col(row: Seq<char>, x: int) -> bool {
    row[x] == 'O'
}

/// Columns `lo` and `hi` of the row are its leftmost and rightmost blocks
/// among its first `n` cells.
pub open spec fn spans_blocks(row: Seq<char>, n: int, lo: int, hi: int) -> bool {
    &&& 0 <= lo <= hi < n
    &&& block_at_col(row, lo)
    &&& block_at_col(row, hi)
    &&& forall|x: int| 0 <= x < n && #[trigger] block_at_col(row, x) ==> lo <= x <= hi
}

/// A row with a block within its first `n` cells has a leftmost and a
/// rightmost such block.
proof fn lemma_row_span(row: Seq<char>, n: int)
    requires
        exists|x: int| 0 <= x < n && #[trigger] block_at_col(row, x),
    ensures
        exists|lo: int, hi: int| #[trigger] spans_blocks(row, n, lo, hi),
    decreases n,
{
    if block_at_col(row, n - 1) {
        if exists|x: int| 0 <= x < n - 1 && #[trigger] block_at_col(row, x) {
            lemma_row_span(row, n - 1);
            let (lo, hi) = choose|lo: int, hi: int| #[trigger] spans_blocks(row, n - 1, lo, hi);
            assert(spans_blocks(row, n, lo, n - 1));
        } else {
            assert(spans_blocks(row, n, n - 1, n - 1));
        }
    } else {
        let x0 = choose|x: int| 0 <= x < n && #[trigger] block_at_col(row, x);
        assert(0 <= x0 < n - 1 && block_at_col(row, x0));
        lemma_row_span(row, n - 1);
        let (lo, hi) = choose|lo: int, hi: int| #[trigger] spans_blocks(row, n - 1, lo, hi);
        assert(spans_blocks(row, n, lo, hi));
    }
}

/// A piece with a block has a smallest box around its blocks.
proof fn lemma_bounding_box_exists(raw: Seq<Seq<char>>, w: int)
    requires
        has_block(raw, w),
    ensures
        exists|b: (int, int, int, int)| is_bounding_box(raw, w, b.0, b.1, b.2, b.3),
    decreases raw.len(),
{
    let last = raw.len() - 1;
    let prev = raw.drop_last();
    assert forall|yy: int, xx: int| yy < last implies #[trigger] block_in(prev, w, yy, xx) == block_in(raw, w, yy, xx) by {
        if 0 <= yy < last {
            assert(prev[yy] == raw[yy]);
        }
    }
    let row_has = exists|x: int| 0 <= x < w && #[trigger] block_at_col(raw[last], x);
    if has_block(prev, w) {
        lemma_bounding_box_exists(prev, w);
        let b = choose|b: (int, int, int, int)| is_bounding_box(prev, w, b.0, b.1, b.2, b.3);
        let xt = choose|x: int| block_in(prev, w, b.0, x);
        let xb = choose|x: int| block_in(prev, w, b.1, x);
        let yl = choose|y: int| block_in(prev, w, y, b.2);
        let yr = choose|y: int| block_in(prev, w, y, b.3);
        assert(block_in(raw, w, b.0, xt));
        assert(block_in(raw, w, b.1, xb));
        assert(block_in(raw, w, yl, b.2));
        assert(block_in(raw, w, yr, b.3));
        if row_has {
            lemma_row_span(raw[last], w);
            let (lo, hi) = choose|lo: int, hi: int| #[trigger] spans_blocks(raw[last], w, lo, hi);
            assert(block_in(raw, w, last, lo));
            assert(block_in(raw, w, last, hi));
            let l = if lo < b.2 { lo } else { b.2 };
            let r = if hi > b.3 { hi } else { b.3 };
            assert forall|y: int, x: int| #[trigger] block_in(raw, w, y, x) implies b.0 <= y <= last && l <= x <= r by {
                if y < last {
                    assert(block_in(prev, w, y, x));
                } else {
                    assert(block_at_col(raw[last], x));
                }
            }
            assert(is_bounding_box(raw, w, b.0, last, l, r));
            let found = (b.0, last, l, r);
            assert(is_bounding_box(raw, w, found.0, found.1, found.2, found.3));
        } else {
            assert forall|y: int, x: int| #[trigger] block_in(raw, w, y, x) implies b.0 <= y <= b.1 && b.2 <= x <= b.3 by {
                if y < last {
                    assert(block_in(prev, w, y, x));
                } else {
                    assert(block_at_col(raw[last], x));
                }
            }
            assert(is_bounding_box(raw, w, b.0, b.1, b.2, b.3));
            let found = (b.0, b.1, b.2, b.3);
            assert(is_bounding_box(raw, w, found.0, found.1, found.2, found.3));
        }
    } else {
        let (y0, x0) = choose|yy: int, xx: int| block_in(raw, w, yy, xx);
        assert(block_in(raw, w, y0, x0));
        if y0 < last {
            assert(block_in(prev, w, y0, x0));
        }
        assert(block_at_col(raw[last], x0));
        lemma_row_span(raw[last], w);
        let (lo, hi) = choose|lo: int, hi: int| #[trigger] spans_blocks(raw[last], w, lo, hi);
        assert(block_in(raw, w, last, lo));
        assert(block_in(raw, w, last, hi));
        assert forall|y: int, x: int| #[trigger] block_in(raw, w, y, x) implies last <= y <= last && lo <= x <= hi by {
            if y < last {
                assert(block_in(prev, w, y, x));
            } else {
                assert(block_at_col(raw[last], x));
            }
        }
        assert(is_bounding_box(raw, w, last, last, lo, hi));
        let found = (last, last, lo, hi);
        assert(is_bounding_box(raw, w, found.0, found.1, found.2, found.3));
    }
}

} // verus!
