//! The game viewer's logic: reading the boards out of a game's log, the
//! colour and place of each cell on screen, the window's size, and which
//! board is shown as keys are pressed.

use vstd::prelude::*;
use crate::input::anfield;
use crate::models::rows_of;
use crate::text::{
    after_four_bytes, byte_len, contains_seq, has_four_bytes, has_infix, has_prefix, parse_number,
    parse_usize, split_after_four_bytes, split_words, starts_with, strip_trailing_colons, trim_colons,
    words,
};

verus! {

// ----------------------------------------------------------------------
// Reading a log
// ----------------------------------------------------------------------

/// A board as the log shows it after one move.
#[derive(Clone, Debug)]
pub struct GameState {
    pub map: Vec<Vec<char>>,
    pub height: usize,
    pub width: usize,
}

impl View for GameState {
    type V = (Seq<Seq<char>>, usize, usize);

    open spec fn view(&self) -> (Seq<Seq<char>>, usize, usize) {
        (rows_of(self.map@), self.height, self.width)
    }
}

/// Whether `char::is_numeric` accepts `c`: the character is in one of
/// Unicode's general categories for numbers.
pub uninterp spec fn char_numeric(c: char) -> bool;

/// Calls `char::is_numeric`; the result is named `char_numeric`. Of the
/// ASCII characters, only the decimal digits '0' to '9' are in a general
/// category for numbers.
#[verifier::external_body]
fn is_numeric_char(c: char) -> (b: bool)
    ensures
        b == char_numeric(c),
        (c as u32) < 128 ==> (b <==> ('0' as u32 <= c as u32 && c as u32 <= '9' as u32)),
{
    c.is_numeric()
}

/// The line opens a board in the log: it begins with "Anfield" and holds
/// a colon.
pub open spec fn opens_state(line: Seq<char>) -> bool {
    starts_with(line, anfield()) && contains_seq(line, seq![':'])
}

/// A number read from a word, or 0 where the word is not one.
pub open spec fn number_or_zero(s: Seq<char>) -> int {
    match parse_usize(s) {
        Some(n) => n as int,
        None => 0,
    }
}

/// The first three characters of the line (or all, where it has fewer)
/// are numeric.
pub open spec fn numeric_prefix(line: Seq<char>) -> bool {
    forall|k: int| 0 <= k < 3 && k < line.len() ==> #[trigger] char_numeric(line[k])
}

/// The row line is cut after its first four bytes, `numeric` telling
/// whether its first three characters are numeric: it takes at least four
/// bytes and they are.
pub open spec fn row_is_cut_given(line: Seq<char>, numeric: bool) -> bool {
    byte_len(line) >= 4 && numeric
}

/// Cutting the row line fails: it is cut and its fourth byte does not end
/// a character.
pub open spec fn row_cut_fails_given(line: Seq<char>, numeric: bool) -> bool {
    row_is_cut_given(line, numeric) && after_four_bytes(line) is None
}

/// The cells that a row line gives: what follows its first four bytes,
/// where the line is cut and they are `width` many.
pub open spec fn row_cells_given_spec(line: Seq<char>, width: int, numeric: bool) -> Option<Seq<char>> {
    if row_is_cut_given(line, numeric) && after_four_bytes(line) is Some && after_four_bytes(line)->0.len() == width {
        after_four_bytes(line)
    } else {
        None
    }
}

/// The row line is cut after its first four bytes.
pub open spec fn row_is_cut(line: Seq<char>) -> bool {
    row_is_cut_given(line, numeric_prefix(line))
}

/// Cutting the row line fails.
pub open spec fn row_cut_fails(line: Seq<char>) -> bool {
    row_cut_fails_given(line, numeric_prefix(line))
}

/// The cells that a row line gives.
pub open spec fn row_cells(line: Seq<char>, width: int) -> Option<Seq<char>> {
    row_cells_given_spec(line, width, numeric_prefix(line))
}

/// The rows that the `n` lines from `start` on give, in order.
pub open spec fn rows_from(lines: Seq<Seq<char>>, start: int, n: int, width: int) -> Seq<Seq<char>>
    decreases n,
{
    if n <= 0 {
        Seq::empty()
    } else {
        let before = rows_from(lines, start, n - 1, width);
        match row_cells(lines[start + n - 1], width) {
            Some(row) => before.push(row),
            None => before,
        }
    }
}

/// Cutting one of the `n` row lines from `start` on fails.
pub open spec fn rows_fail(lines: Seq<Seq<char>>, start: int, n: int) -> bool {
    exists|k: int| 0 <= k < n && #[trigger] row_cut_fails(lines[start + k])
}

/// The smaller of two integers.
pub open spec fn min(a: int, b: int) -> int {
    if a < b { a } else { b }
}

/// How many row lines follow a board's announcement at line `i`: as many
/// as its height, or as there are left.
pub open spec fn rows_after(lines: Seq<Seq<char>>, i: int, h: int) -> int {
    if i + 2 <= lines.len() && h > 0 { min(h, lines.len() - (i + 2)) } else { 0 }
}

/// The height and width that the announcement at a line gives, 0 for one
/// that is not a number.
pub open spec fn state_size(line: Seq<char>) -> (int, int) {
    let parts = words(line);
    (number_or_zero(trim_colons(parts[2])), number_or_zero(parts[1]))
}

/// The line announces a board of a size other than zero.
pub open spec fn announces_state(line: Seq<char>) -> bool {
    opens_state(line) && words(line).len() >= 3 && state_size(line).0 != 0 && state_size(line).1 != 0
}

/// The boards that the log gives from line `i` on. At a line that
/// announces a board of height `h` and width `w`, the `h` lines after the
/// next (or as many as are left) are its rows; a row line gives its cells
/// where they are `w` many, and the board counts where all `h` rows came.
/// The reading goes on one line after those rows.
pub open spec fn states_from(lines: Seq<Seq<char>>, i: int) -> Seq<(Seq<Seq<char>>, usize, usize)>
    decreases (if i < lines.len() { lines.len() - i } else { 0 }),
{
    if i < 0 || i >= lines.len() {
        Seq::empty()
    } else if announces_state(lines[i]) {
        let (h, w) = state_size(lines[i]);
        let n = rows_after(lines, i, h);
        let rows = rows_from(lines, i + 2, n, w);
        let rest = states_from(lines, i + 2 + n + 1);
        if rows.len() == h {
            seq![(rows, h as usize, w as usize)] + rest
        } else {
            rest
        }
    } else {
        states_from(lines, i + 1)
    }
}

/// Reading the log from line `i` on fails: cutting a row line fails.
pub open spec fn log_fails_from(lines: Seq<Seq<char>>, i: int) -> bool
    decreases (if i < lines.len() { lines.len() - i } else { 0 }),
{
    if i < 0 || i >= lines.len() {
        false
    } else if announces_state(lines[i]) {
        let (h, w) = state_size(lines[i]);
        let n = rows_after(lines, i, h);
        rows_fail(lines, i + 2, n) || log_fails_from(lines, i + 2 + n + 1)
    } else {
        log_fails_from(lines, i + 1)
    }
}

/// The boards of a sequence of states.
pub open spec fn state_views(states: Seq<GameState>) -> Seq<(Seq<Seq<char>>, usize, usize)> {
    states.map_values(|s: GameState| s@)
}

/// Reads a row line of the log, `numeric` telling whether its first three
/// characters are numeric: `None` where cutting it after its first four
/// bytes fails, else the cells it gives, if any.
pub fn row_cells_given(line: &Vec<char>, width: usize, numeric: bool) -> (r: Option<Option<Vec<char>>>)
    ensures
        match r {
            None => row_cut_fails_given(line@, numeric),
            Some(None) => !row_cut_fails_given(line@, numeric) && row_cells_given_spec(line@, width as int, numeric) is None,
            Some(Some(cells)) => !row_cut_fails_given(line@, numeric)
                && row_cells_given_spec(line@, width as int, numeric) == Some(cells@),
        },
{
    if !has_four_bytes(line) || !numeric {
        return Some(None);
    }
    match split_after_four_bytes(line) {
        None => None,
        Some(cells) => {
            if cells.len() == width {
                Some(Some(cells))
            } else {
                Some(None)
            }
        },
    }
}

/// Tells whether the first three characters of the line (or all, where it
/// has fewer) are numeric.
fn has_numeric_prefix(line: &Vec<char>) -> (b: bool)
    ensures
        b == numeric_prefix(line@),
{
    let mut k: usize = 0;
    while k < 3 && k < line.len()
        invariant
            k <= 3,
            forall|j: int| 0 <= j < k && j < line@.len() ==> #[trigger] char_numeric(line@[j]),
        decreases 3 - k,
    {
        if !is_numeric_char(line[k]) {
            return false;
        }
        k += 1;
    }
    true
}

/// Reads a row line: `None` where cutting it fails, else the cells it
/// gives, if any.
fn read_log_row(line: &Vec<char>, width: usize) -> (r: Option<Option<Vec<char>>>)
    ensures
        match r {
            None => row_cut_fails(line@),
            Some(None) => !row_cut_fails(line@) && row_cells(line@, width as int) is None,
            Some(Some(cells)) => !row_cut_fails(line@) && row_cells(line@, width as int) == Some(cells@),
        },
{
    let numeric = has_numeric_prefix(line);
    row_cells_given(line, width, numeric)
}

/// The board's size that a line announces, as (height, width), or `None`
/// where it announces none.
fn announced_size(line: &Vec<char>) -> (r: Option<(usize, usize)>)
    ensures
        match r {
            Some((h, w)) => announces_state(line@) && state_size(line@) == (h as int, w as int),
            None => !announces_state(line@),
        },
{
    let pat: [char; 7] = ['A', 'n', 'f', 'i', 'e', 'l', 'd'];
    let colon: [char; 1] = [':'];
    assert(pat@ =~= anfield());
    assert(colon@ =~= seq![':']);
    if !(has_prefix(line, &pat) && has_infix(line, &colon)) {
        return None;
    }
    let parts = split_words(line);
    assert(rows_of(parts@).len() == parts@.len());
    if parts.len() < 3 {
        return None;
    }
    assert(rows_of(parts@)[1] == parts@[1]@);
    assert(rows_of(parts@)[2] == parts@[2]@);
    let trimmed = strip_trailing_colons(&parts[2]);
    let height = match parse_number(&trimmed) {
        Some(h) => h,
        None => 0,
    };
    let width = match parse_number(&parts[1]) {
        Some(w) => w,
        None => 0,
    };
    if height == 0 || width == 0 {
        return None;
    }
    Some((height, width))
}

/// Reads the boards out of a log; `None` where the reading fails.
fn scan_log(lines: &Vec<Vec<char>>) -> (r: Option<Vec<GameState>>)
    ensures
        match r {
            None => log_fails_from(rows_of(lines@), 0),
            Some(states) => !log_fails_from(rows_of(lines@), 0) && state_views(states@) == states_from(rows_of(lines@), 0),
        },
{
    let ghost all = rows_of(lines@);
    let mut states: Vec<GameState> = Vec::new();
    let mut i: usize = 0;
    assert(state_views(states@) =~= Seq::empty());
    while i < lines.len()
        invariant
            all == rows_of(lines@),
            lines@.len() == lines.len(),
            state_views(states@) + states_from(all, i as int) == states_from(all, 0),
            log_fails_from(all, i as int) == log_fails_from(all, 0),
        decreases lines.len() - i,
    {
        assert(all[i as int] == lines@[i as int]@);
        match announced_size(&lines[i]) {
            None => {
                i += 1;
            },
            Some((height, width)) => {
                if lines.len() - i <= 2 {
                    proof {
                        let n = rows_after(all, i as int, height as int);
                        assert(n == 0);
                        assert(rows_from(all, i + 2, 0, width as int) =~= Seq::empty());
                        assert(!rows_fail(all, i + 2, 0));
                        assert(states_from(all, i + 3) =~= Seq::empty());
                        assert(!log_fails_from(all, i + 3));
                    }
                    assert(states_from(all, i as int) =~= Seq::empty());
                    assert(state_views(states@) + Seq::empty() =~= state_views(states@));
                    return Some(states);
                }
                let start = i + 2;
                let left = lines.len() - start;
                let n = if height < left { height } else { left };
                assert(n == rows_after(all, i as int, height as int));
                let mut map: Vec<Vec<char>> = Vec::new();
                let mut r: usize = 0;
                assert(rows_of(map@) =~= Seq::<Seq<char>>::empty());
                while r < n
                    invariant
                        all == rows_of(lines@),
                        lines@.len() == lines.len(),
                        i < lines@.len(),
                        announces_state(all[i as int]),
                        state_size(all[i as int]) == (height as int, width as int),
                        start == i + 2,
                        n == rows_after(all, i as int, height as int),
                        log_fails_from(all, i as int) == log_fails_from(all, 0),
                        state_views(states@) + states_from(all, i as int) == states_from(all, 0),
                        start + n <= lines@.len(),
                        r <= n,
                        rows_of(map@) == rows_from(all, start as int, r as int, width as int),
                        !rows_fail(all, start as int, r as int),
                        forall|y: int| 0 <= y < map@.len() ==> (#[trigger] map@[y])@.len() == width,
                    decreases n - r,
                {
                    assert(all[start + r] == lines@[start + r]@);
                    match read_log_row(&lines[start + r], width) {
                        None => {
                            proof {
                                assert(rows_fail(all, start as int, n as int)) by {
                                    assert(row_cut_fails(all[start + r]));
                                }
                                assert(log_fails_from(all, i as int));
                            }
                            return None;
                        },
                        Some(None) => {},
                        Some(Some(cells)) => {
                            let ghost before = map@;
                            let ghost got = cells@;
                            map.push(cells);
                            assert(rows_of(map@) =~= rows_of(before).push(got));
                        },
                    }
                    proof {
                        assert forall|k: int| 0 <= k < r + 1 implies !#[trigger] row_cut_fails(all[start + k]) by {
                            if k < r {
                                assert(!rows_fail(all, start as int, r as int));
                            }
                        }
                    }
                    r += 1;
                }
                let ghost next = start + n + 1;
                if map.len() == height {
                    let state = GameState { map, height, width };
                    let ghost before = states@;
                    states.push(state);
                    assert(state_views(states@) =~= state_views(before).push(state@));
                    assert(states_from(all, i as int) =~= seq![state@] + states_from(all, next));
                    assert(state_views(states@) + states_from(all, next) =~= state_views(before) + states_from(all, i as int));
                } else {
                    assert(states_from(all, i as int) == states_from(all, next));
                }
                if left - n == 0 {
                    assert(states_from(all, next) =~= Seq::empty());
                    assert(!log_fails_from(all, next));
                    assert(state_views(states@) + Seq::empty() =~= state_views(states@));
                    return Some(states);
                }
                i = start + n + 1;
            },
        }
    }
    assert(states_from(all, i as int) =~= Seq::empty());
    assert(state_views(states@) + Seq::empty() =~= state_views(states@));
    Some(states)
}

/// Reads the boards out of a game's log, given as its lines: each board
/// opens with a line that begins with "Anfield" and holds a colon, whose
/// second and third words give its width and height; after the next line,
/// each row line whose first three characters are numeric gives the cells
/// that follow its first four bytes. A board counts where all its rows
/// came with the announced width.
pub fn parse_log_lines(lines: &Vec<Vec<char>>) -> (r: Vec<GameState>)
    requires
        !log_fails_from(rows_of(lines@), 0),
    ensures
        state_views(r@) == states_from(rows_of(lines@), 0),
{
    match scan_log(lines) {
        Some(states) => states,
        None => Vec::new(),
    }
}

/// Tells whether reading the boards out of this log fails: where a row
/// line is cut after its fourth byte, and that byte does not end a
/// character.
pub fn log_would_fail(lines: &Vec<Vec<char>>) -> (b: bool)
    ensures
        b == log_fails_from(rows_of(lines@), 0),
{
    match scan_log(lines) {
        Some(_) => false,
        None => true,
    }
}

/// The lines that announce the boards that `states_from(lines, i)` gives,
/// in the same order.
pub open spec fn state_lines(lines: Seq<Seq<char>>, i: int) -> Seq<int>
    decreases (if i < lines.len() { lines.len() - i } else { 0 }),
{
    if i < 0 || i >= lines.len() {
        Seq::empty()
    } else if announces_state(lines[i]) {
        let (h, w) = state_size(lines[i]);
        let n = rows_after(lines, i, h);
        let rows = rows_from(lines, i + 2, n, w);
        let rest = state_lines(lines, i + 2 + n + 1);
        if rows.len() == h {
            seq![i] + rest
        } else {
            rest
        }
    } else {
        state_lines(lines, i + 1)
    }
}

/// Every row that row lines give has the width asked for.
proof fn lemma_rows_from_width(lines: Seq<Seq<char>>, start: int, n: int, width: int)
    ensures
        forall|r: int| 0 <= r < rows_from(lines, start, n, width).len() ==> (#[trigger] rows_from(lines, start, n, width)[r]).len() == width,
    decreases n,
{
    if n > 0 {
        lemma_rows_from_width(lines, start, n - 1, width);
        let before = rows_from(lines, start, n - 1, width);
        match row_cells(lines[start + n - 1], width) {
            Some(row) => {
                assert forall|r: int| 0 <= r < before.push(row).len() implies (#[trigger] before.push(row)[r]).len() == width by {
                    if r < before.len() {
                        assert(before.push(row)[r] == before[r]);
                    }
                }
            },
            None => {},
        }
    }
}

/// Law: every board read from a log has a height and a width above zero,
/// as many rows as its height, each as long as its width; the boards come
/// in the order of the lines that announce them, each announcing its size.
pub proof fn law_log_states(lines: Seq<Seq<char>>, i: int)
    requires
        0 <= i,
    ensures
        state_lines(lines, i).len() == states_from(lines, i).len(),
        forall|k: int| 0 <= k < states_from(lines, i).len() ==> {
            let s = #[trigger] states_from(lines, i)[k];
            let j = state_lines(lines, i)[k];
            &&& s.1 > 0 && s.2 > 0
            &&& s.0.len() == s.1
            &&& forall|r: int| 0 <= r < s.0.len() ==> (#[trigger] s.0[r]).len() == s.2
            &&& i <= j < lines.len()
            &&& announces_state(lines[j])
            &&& state_size(lines[j]) == (s.1 as int, s.2 as int)
        },
        forall|k: int, l: int| 0 <= k < l < state_lines(lines, i).len() ==> #[trigger] state_lines(lines, i)[k] < #[trigger] state_lines(lines, i)[l],
    decreases (if i < lines.len() { lines.len() - i } else { 0 }),
{
    if i >= lines.len() {
    } else if announces_state(lines[i]) {
        let (h, w) = state_size(lines[i]);
        let n = rows_after(lines, i, h);
        let rows = rows_from(lines, i + 2, n, w);
        let next = i + 2 + n + 1;
        law_log_states(lines, next);
        lemma_rows_from_width(lines, i + 2, n, w);
        let rest_s = states_from(lines, next);
        let rest_l = state_lines(lines, next);
        if rows.len() == h {
            let here = (rows, h as usize, w as usize);
            let all_s = states_from(lines, i);
            let all_l = state_lines(lines, i);
            assert(all_s == seq![here] + rest_s);
            assert(all_l == seq![i] + rest_l);
            assert forall|k: int| 0 <= k < all_s.len() implies {
                let s = #[trigger] all_s[k];
                let j = all_l[k];
                &&& s.1 > 0 && s.2 > 0
                &&& s.0.len() == s.1
                &&& forall|r: int| 0 <= r < s.0.len() ==> (#[trigger] s.0[r]).len() == s.2
                &&& i <= j < lines.len()
                &&& announces_state(lines[j])
                &&& state_size(lines[j]) == (s.1 as int, s.2 as int)
            } by {
                if k == 0 {
                    assert(all_s[0] == here);
                    assert(all_l[0] == i);
                } else {
                    assert(all_s[k] == rest_s[k - 1]);
                    assert(all_l[k] == rest_l[k - 1]);
                }
            }
            assert forall|k: int, l: int| 0 <= k < l < all_l.len() implies #[trigger] all_l[k] < #[trigger] all_l[l] by {
                assert(all_l[l] == rest_l[l - 1]);
                let t = states_from(lines, next)[l - 1];
                assert(next <= rest_l[l - 1]);
                if k > 0 {
                    assert(all_l[k] == rest_l[k - 1]);
                } else {
                    assert(all_l[k] == i);
                }
            }
        }
    } else {
        law_log_states(lines, i + 1);
    }
}

// ----------------------------------------------------------------------
// Drawing
// ----------------------------------------------------------------------

/// The colour, as red, green and blue, that a cell is drawn in: shades of
/// blue for the first player's marks ('@', and 'a' for its last piece),
/// of red for the second's ('$' and 's'), dark grey for any other cell.
pub open spec fn cell_rgb(c: char) -> (u8, u8, u8) {
    if c == '@' {
        (100, 150, 255)
    } else if c == 'a' {
        (80, 120, 200)
    } else if c == '$' {
        (255, 100, 100)
    } else if c == 's' {
        (200, 80, 80)
    } else {
        (40, 40, 50)
    }
}

/// The colour a cell is drawn in.
pub fn cell_color(c: char) -> (r: (u8, u8, u8))
    ensures
        r == cell_rgb(c),
{
    if c == '@' {
        (100, 150, 255)
    } else if c == 'a' {
        (80, 120, 200)
    } else if c == '$' {
        (255, 100, 100)
    } else if c == 's' {
        (200, 80, 80)
    } else {
        (40, 40, 50)
    }
}

/// The colour the window is cleared to before a board is drawn.
pub fn background_color() -> (r: (u8, u8, u8))
    ensures
        r == (20u8, 20u8, 30u8),
{
    (20, 20, 30)
}

/// Where the square of the cell at column `x`, row `y` is drawn: its left
/// and top edges `x * cell_size` and `y * cell_size` (computed in `u32`,
/// wrapping, then taken as `i32`), its width and height one pixel less
/// than the cell's size, so that a gap shows between cells.
pub fn cell_rect(x: usize, y: usize, cell_size: u32) -> (r: (i32, i32, u32, u32))
    ensures
        r.0 == ((x as u32).wrapping_mul(cell_size)) as i32,
        r.1 == ((y as u32).wrapping_mul(cell_size)) as i32,
        r.2 == (if cell_size > 0 { cell_size - 1 } else { 0 }),
        r.3 == r.2,
{
    let pad: u32 = 1;
    let left = (x as u32).wrapping_mul(cell_size) as i32;
    let top = (y as u32).wrapping_mul(cell_size) as i32;
    let side = cell_size.saturating_sub(pad);
    (left, top, side, side)
}

/// The least and the greatest size of a cell on screen, in pixels.
pub open spec fn clamp_cell(size: int) -> int {
    if size < 2 {
        2
    } else if size > 60 {
        60
    } else {
        size
    }
}

/// The size of a cell and of the window for a board of `cols` columns and
/// `rows` rows on a screen of `screen_w` by `screen_h` pixels: the screen
/// less a margin of 80 pixels each way, shared out among the cells, the
/// smaller share kept and held between 2 and 60; the window is that many
/// pixels per column and per row (in `u32`, wrapping).
pub open spec fn layout(screen_w: u32, screen_h: u32, cols: usize, rows: usize) -> (u32, u32, u32) {
    let avail_w: u32 = if screen_w >= 80 { (screen_w - 80) as u32 } else { 0 };
    let avail_h: u32 = if screen_h >= 80 { (screen_h - 80) as u32 } else { 0 };
    let cell_w = avail_w / (cols as u32);
    let cell_h = avail_h / (rows as u32);
    let cell = clamp_cell(if cell_w < cell_h { cell_w as int } else { cell_h as int }) as u32;
    (cell, (cols as u32).wrapping_mul(cell), (rows as u32).wrapping_mul(cell))
}

/// Sizes the cells and the window for a board of `cols` columns and `rows`
/// rows: gives the cell's size, the window's width and its height.
pub fn window_layout(screen_w: u32, screen_h: u32, cols: usize, rows: usize) -> (r: (u32, u32, u32))
    requires
        cols as u32 != 0,
        rows as u32 != 0,
    ensures
        r == layout(screen_w, screen_h, cols, rows),
        2 <= r.0 <= 60,
{
    let margin: u32 = 80;
    let avail_w = screen_w.saturating_sub(margin);
    let avail_h = screen_h.saturating_sub(margin);
    let cell_w = avail_w / (cols as u32);
    let cell_h = avail_h / (rows as u32);
    let smaller = if cell_w < cell_h { cell_w } else { cell_h };
    let cell_size: u32 = if smaller < 2 {
        2
    } else if smaller > 60 {
        60
    } else {
        smaller
    };
    let window_width = (cols as u32).wrapping_mul(cell_size);
    let window_height = (rows as u32).wrapping_mul(cell_size);
    (cell_size, window_width, window_height)
}

// ----------------------------------------------------------------------
// Moving between boards
// ----------------------------------------------------------------------

/// What the viewer gets from the window.
#[derive(Clone, Copy, Debug)]
pub enum ViewerInput {
    /// The window was closed.
    Quit,
    /// The Escape key.
    Escape,
    /// The Q key.
    Q,
    /// The right arrow: the next board.
    Right,
    /// The left arrow: the board before.
    Left,
    /// The up arrow: the last board.
    Up,
    /// The down arrow: the first board.
    Down,
    /// Any other key, or any other event.
    Other,
}

/// The board shown after an input, of `count` boards, `current` being
/// shown: none where the viewer stops.
pub open spec fn turn_after(current: usize, count: usize, input: ViewerInput) -> Option<usize> {
    match input {
        ViewerInput::Quit | ViewerInput::Escape | ViewerInput::Q => None,
        ViewerInput::Right => Some(if current < count - 1 { (current + 1) as usize } else { current }),
        ViewerInput::Left => Some(if current > 0 { (current - 1) as usize } else { current }),
        ViewerInput::Up => Some((count - 1) as usize),
        ViewerInput::Down => Some(0),
        ViewerInput::Other => Some(current),
    }
}

/// Which of `count` boards to show after an input while `current` is
/// shown: the next or the one before (staying at either end), the last,
/// the first, the same; `None` where the input stops the viewer.
pub fn next_turn(current: usize, count: usize, input: ViewerInput) -> (r: Option<usize>)
    requires
        count >= 1,
    ensures
        r == turn_after(current, count, input),
{
    match input {
        ViewerInput::Quit | ViewerInput::Escape | ViewerInput::Q => None,
        ViewerInput::Right => {
            if current < count - 1 {
                Some(current + 1)
            } else {
                Some(current)
            }
        },
        ViewerInput::Left => {
            if current > 0 {
                Some(current - 1)
            } else {
                Some(current)
            }
        },
        ViewerInput::Up => Some(count - 1),
        ViewerInput::Down => Some(0),
        ViewerInput::Other => Some(current),
    }
}

/// Law: the viewer always shows one of the boards: from one of `count`
/// boards, every input leads to one of them, or stops.
pub proof fn law_turn_stays_in_range(current: usize, count: usize, input: ViewerInput)
    requires
        count >= 1,
        current < count,
    ensures
        turn_after(current, count, input) matches Some(next) ==> next < count,
{
}

/// Law: the window's cells fit the screen: where the screen, less its
/// margin of 80 pixels, leaves each row (column) at least 2 pixels, the
/// cells of all the rows (columns) take no more than that; and a cell is
/// never smaller than 2 nor larger than 60 pixels.
pub proof fn law_layout_fits_screen(screen_w: u32, screen_h: u32, cols: usize, rows: usize)
    requires
        0 < cols <= u32::MAX,
        0 < rows <= u32::MAX,
    ensures
        2 <= layout(screen_w, screen_h, cols, rows).0 <= 60,
        screen_h >= 80 && (screen_h - 80) / (rows as int) >= 2 ==> layout(screen_w, screen_h, cols, rows).0 * rows <= screen_h - 80,
        screen_w >= 80 && (screen_w - 80) / (cols as int) >= 2 ==> layout(screen_w, screen_h, cols, rows).0 * cols <= screen_w - 80,
{
    let cell = layout(screen_w, screen_h, cols, rows).0 as int;
    assert((cols as u32) as int == cols as int);
    assert((rows as u32) as int == rows as int);
    if screen_h >= 80 && (screen_h - 80) / (rows as int) >= 2 {
        let a = (screen_h - 80) as int;
        let r = rows as int;
        assert(cell <= a / r);
        assert(cell * r <= a) by (nonlinear_arith)
            requires
                cell <= a / r,
                0 < r,
                0 <= a,
                0 <= cell,
        {
            assert(cell * r <= (a / r) * r);
            assert((a / r) * r <= a);
        }
    }
    if screen_w >= 80 && (screen_w - 80) / (cols as int) >= 2 {
        let a = (screen_w - 80) as int;
        let c = cols as int;
        assert(cell <= a / c);
        assert(cell * c <= a) by (nonlinear_arith)
            requires
                cell <= a / c,
                0 < c,
                0 <= a,
                0 <= cell,
        {
            assert(cell * c <= (a / c) * c);
            assert((a / c) * c <= a);
        }
    }
}

/// Law: what each input does to the board shown, of `count` boards, the
/// board `current` being shown: the up arrow shows the last board and the
/// down arrow the first, whichever is shown; the right arrow shows the
/// next one and the left arrow goes back to it, and each stays put at its
/// end; any other input leaves the board shown; closing the window,
/// Escape and Q stop the viewer.
pub proof fn law_turn_inputs(current: usize, count: usize)
    requires
        1 <= count,
        current < count,
    ensures
        turn_after(current, count, ViewerInput::Up) == Some((count - 1) as usize),
        turn_after(current, count, ViewerInput::Down) == Some(0usize),
        turn_after(current, count, ViewerInput::Other) == Some(current),
        turn_after(current, count, ViewerInput::Quit) is None,
        turn_after(current, count, ViewerInput::Escape) is None,
        turn_after(current, count, ViewerInput::Q) is None,
        current + 1 < count ==> turn_after(current, count, ViewerInput::Right) == Some((current + 1) as usize)
            && turn_after((current + 1) as usize, count, ViewerInput::Left) == Some(current),
        current + 1 == count ==> turn_after(current, count, ViewerInput::Right) == Some(current),
        current == 0 ==> turn_after(current, count, ViewerInput::Left) == Some(current),
{
}

} // verus!
