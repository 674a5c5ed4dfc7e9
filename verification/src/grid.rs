//! Folds over the cells of a rectangle, row by row, and the facts about
//! them that the searches need.

use vstd::prelude::*;

verus! {

/// The smaller of two integers.
pub open spec fn min_int(a: int, b: int) -> int {
    if b < a { b } else { a }
}

/// The sum of `f(y, x)` over the columns `x < n` of row `y`.
pub open spec fn row_sum(y: int, n: int, f: spec_fn(int, int) -> int) -> int
    decreases n,
{
    if n <= 0 { 0 } else { row_sum(y, n - 1, f) + f(y, n - 1) }
}

/// The sum of `f` over the rows `y < h` of a rectangle `w` cells wide.
pub open spec fn grid_sum(h: int, w: int, f: spec_fn(int, int) -> int) -> int
    decreases h,
{
    if h <= 0 { 0 } else { grid_sum(h - 1, w, f) + row_sum(h - 1, w, f) }
}

/// The least of `usize::MAX` and `f(y, x)` over the columns `x < n` of row `y`.
pub open spec fn row_min(y: int, n: int, f: spec_fn(int, int) -> int) -> int
    decreases n,
{
    if n <= 0 { usize::MAX as int } else { min_int(row_min(y, n - 1, f), f(y, n - 1)) }
}

/// The least of `usize::MAX` and `f` over the rows `y < h` of a rectangle
/// `w` cells wide.
pub open spec fn grid_min(h: int, w: int, f: spec_fn(int, int) -> int) -> int
    decreases h,
{
    if h <= 0 { usize::MAX as int } else { min_int(grid_min(h - 1, w, f), row_min(h - 1, w, f)) }
}

/// The coordinates `(y, x)` of the cells of row `y`, among its first `n`,
/// whose character satisfies `keep`, left to right.
pub open spec fn row_scan(row: Seq<char>, y: int, n: int, keep: spec_fn(char) -> bool) -> Seq<(usize, usize)>
    decreases n,
{
    if n <= 0 {
        Seq::empty()
    } else {
        let before = row_scan(row, y, n - 1, keep);
        if keep(row[n - 1]) { before.push((y as usize, (n - 1) as usize)) } else { before }
    }
}

/// The coordinates of the cells among the first `h` rows and `w` columns
/// whose character satisfies `keep`, row by row, left to right.
pub open spec fn grid_scan(rows: Seq<Seq<char>>, h: int, w: int, keep: spec_fn(char) -> bool) -> Seq<(usize, usize)>
    decreases h,
{
    if h <= 0 {
        Seq::empty()
    } else {
        grid_scan(rows, h - 1, w, keep) + row_scan(rows[h - 1], h - 1, w, keep)
    }
}

/// The sum over a row grows with the number of columns, for a function
/// that is never negative.
pub proof fn lemma_row_sum_monotone(y: int, n: int, m: int, f: spec_fn(int, int) -> int)
    requires
        0 <= n <= m,
        forall|x: int| 0 <= x < m ==> #[trigger] f(y, x) >= 0,
    ensures
        0 <= row_sum(y, n, f) <= row_sum(y, m, f),
    decreases m,
{
    if m > n {
        lemma_row_sum_monotone(y, n, m - 1, f);
    } else if n > 0 {
        lemma_row_sum_monotone(y, n - 1, n - 1, f);
    }
}

/// A row sum of values between 0 and `c` is between 0 and `c * n`.
pub proof fn lemma_row_sum_bounds(y: int, n: int, f: spec_fn(int, int) -> int, c: int)
    requires
        0 <= n,
        0 <= c,
        forall|x: int| 0 <= x < n ==> 0 <= #[trigger] f(y, x) <= c,
    ensures
        0 <= row_sum(y, n, f) <= c * n,
    decreases n,
{
    if n > 0 {
        lemma_row_sum_bounds(y, n - 1, f, c);
        assert(c * (n - 1) + c == c * n) by (nonlinear_arith);
    }
}

/// A grid sum of values between 0 and `c` is between 0 and `c * h * w`.
pub proof fn lemma_grid_sum_bounds(h: int, w: int, f: spec_fn(int, int) -> int, c: int)
    requires
        0 <= h,
        0 <= w,
        0 <= c,
        forall|y: int, x: int| 0 <= y < h && 0 <= x < w ==> 0 <= #[trigger] f(y, x) <= c,
    ensures
        0 <= grid_sum(h, w, f) <= c * (h * w),
    decreases h,
{
    if h > 0 {
        lemma_grid_sum_bounds(h - 1, w, f, c);
        lemma_row_sum_bounds(h - 1, w, f, c);
        assert(c * ((h - 1) * w) + c * w == c * (h * w)) by (nonlinear_arith);
    }
}

/// The sum over the first rows and part of the next one is at most the
/// sum over the whole rectangle, for a function that is never negative.
pub proof fn lemma_grid_sum_partial(h: int, w: int, y: int, n: int, f: spec_fn(int, int) -> int)
    requires
        0 <= y < h,
        0 <= n <= w,
        forall|yy: int, xx: int| 0 <= yy < h && 0 <= xx < w ==> #[trigger] f(yy, xx) >= 0,
    ensures
        grid_sum(y, w, f) + row_sum(y, n, f) <= grid_sum(h, w, f),
    decreases h,
{
    if h > y + 1 {
        lemma_grid_sum_partial(h - 1, w, y, n, f);
        lemma_row_sum_monotone(h - 1, 0, w, f);
    } else {
        lemma_row_sum_monotone(y, n, w, f);
    }
}

/// A row minimum is at most every value it is taken over and at most
/// `usize::MAX`; where a value is at most `usize::MAX`, it is one of them.
pub proof fn lemma_row_min(y: int, n: int, f: spec_fn(int, int) -> int)
    requires
        0 <= n,
    ensures
        row_min(y, n, f) <= usize::MAX,
        forall|x: int| 0 <= x < n ==> row_min(y, n, f) <= #[trigger] f(y, x),
        row_min(y, n, f) == usize::MAX || exists|x: int| 0 <= x < n && row_min(y, n, f) == #[trigger] f(y, x),
    decreases n,
{
    if n > 0 {
        lemma_row_min(y, n - 1, f);
    }
}

/// A grid minimum is at most every value it is taken over and at most
/// `usize::MAX`; where it is below `usize::MAX`, it is one of them.
pub proof fn lemma_grid_min(h: int, w: int, f: spec_fn(int, int) -> int)
    requires
        0 <= h,
        0 <= w,
    ensures
        grid_min(h, w, f) <= usize::MAX,
        forall|y: int, x: int| 0 <= y < h && 0 <= x < w ==> grid_min(h, w, f) <= #[trigger] f(y, x),
        grid_min(h, w, f) == usize::MAX || exists|y: int, x: int|
            0 <= y < h && 0 <= x < w && grid_min(h, w, f) == #[trigger] f(y, x),
    decreases h,
{
    if h > 0 {
        lemma_grid_min(h - 1, w, f);
        lemma_row_min(h - 1, w, f);
        assert forall|y: int, x: int| 0 <= y < h && 0 <= x < w implies grid_min(h, w, f) <= #[trigger] f(y, x) by {
            if y < h - 1 {
            } else {
                assert(row_min(h - 1, w, f) <= f(h - 1, x));
            }
        }
    }
}

/// A cell is listed by a row scan exactly when it lies in the scanned
/// part of the row and its character satisfies `keep`.
pub proof fn lemma_row_scan(row: Seq<char>, y: int, n: int, keep: spec_fn(char) -> bool)
    requires
        0 <= y <= usize::MAX,
        0 <= n <= row.len(),
        n <= usize::MAX + 1,
    ensures
        row_scan(row, y, n, keep).len() <= n,
        forall|i: int| 0 <= i < row_scan(row, y, n, keep).len() ==> {
            let p = #[trigger] row_scan(row, y, n, keep)[i];
            &&& p.0 == y
            &&& p.1 < n
            &&& keep(row[p.1 as int])
        },
        forall|x: int| 0 <= x < n && keep(row[x]) ==> #[trigger] row_scan(row, y, n, keep).contains((y as usize, x as usize)),
    decreases n,
{
    if n > 0 {
        lemma_row_scan(row, y, n - 1, keep);
        let before = row_scan(row, y, n - 1, keep);
        assert forall|x: int| 0 <= x < n && keep(row[x]) implies #[trigger] row_scan(row, y, n, keep).contains((y as usize, x as usize)) by {
            if x < n - 1 {
                assert(before.contains((y as usize, x as usize)));
                let j = choose|j: int| 0 <= j < before.len() && before[j] == (y as usize, x as usize);
                if keep(row[n - 1]) {
                    assert(row_scan(row, y, n, keep)[j] == before[j]);
                }
                assert(row_scan(row, y, n, keep)[j] == (y as usize, x as usize));
            } else {
                assert(row_scan(row, y, n, keep)[before.len() as int] == (y as usize, x as usize));
            }
        }
    }
}

/// A cell is listed by a grid scan exactly when it lies in the scanned
/// rectangle and its character satisfies `keep`.
pub proof fn lemma_grid_scan(rows: Seq<Seq<char>>, h: int, w: int, keep: spec_fn(char) -> bool)
    requires
        0 <= h <= rows.len(),
        h <= usize::MAX + 1,
        0 <= w <= usize::MAX + 1,
        forall|y: int| 0 <= y < h ==> #[trigger] rows[y].len() == w,
    ensures
        forall|i: int| 0 <= i < grid_scan(rows, h, w, keep).len() ==> {
            let p = #[trigger] grid_scan(rows, h, w, keep)[i];
            &&& p.0 < h
            &&& p.1 < w
            &&& keep(rows[p.0 as int][p.1 as int])
        },
        forall|y: int, x: int| 0 <= y < h && 0 <= x < w && keep(rows[y][x]) ==>
            #[trigger] grid_scan(rows, h, w, keep).contains((y as usize, x as usize)),
    decreases h,
{
    if h > 0 {
        lemma_grid_scan(rows, h - 1, w, keep);
        lemma_row_scan(rows[h - 1], h - 1, w, keep);
        let a = grid_scan(rows, h - 1, w, keep);
        let b = row_scan(rows[h - 1], h - 1, w, keep);
        let s = grid_scan(rows, h, w, keep);
        assert(s == a + b);
        assert forall|i: int| 0 <= i < s.len() implies {
            let p = #[trigger] s[i];
            &&& p.0 < h
            &&& p.1 < w
            &&& keep(rows[p.0 as int][p.1 as int])
        } by {
            if i < a.len() {
                assert(s[i] == a[i]);
            } else {
                assert(s[i] == b[i - a.len()]);
            }
        }
        assert forall|y: int, x: int| 0 <= y < h && 0 <= x < w && keep(rows[y][x]) implies
            #[trigger] s.contains((y as usize, x as usize)) by {
            if y < h - 1 {
                assert(a.contains((y as usize, x as usize)));
                let j = choose|j: int| 0 <= j < a.len() && a[j] == (y as usize, x as usize);
                assert(s[j] == a[j]);
            } else {
                assert(b.contains((y as usize, x as usize)));
                let j = choose|j: int| 0 <= j < b.len() && b[j] == (y as usize, x as usize);
                assert(s[a.len() + j] == b[j]);
            }
        }
    }
}

/// A grid minimum of values no smaller than `c` (itself at most
/// `usize::MAX`) is no smaller than `c`.
pub proof fn lemma_grid_min_lower(h: int, w: int, f: spec_fn(int, int) -> int, c: int)
    requires
        c <= usize::MAX,
        forall|y: int, x: int| 0 <= y < h && 0 <= x < w ==> c <= #[trigger] f(y, x),
    ensures
        c <= grid_min(h, w, f),
    decreases h,
{
    if h > 0 {
        lemma_grid_min_lower(h - 1, w, f, c);
        lemma_row_min_lower(h - 1, w, f, c);
    }
}

/// A row minimum of values no smaller than `c` (itself at most
/// `usize::MAX`) is no smaller than `c`.
proof fn lemma_row_min_lower(y: int, n: int, f: spec_fn(int, int) -> int, c: int)
    requires
        c <= usize::MAX,
        forall|x: int| 0 <= x < n ==> c <= #[trigger] f(y, x),
    ensures
        c <= row_min(y, n, f),
    decreases n,
{
    if n > 0 {
        lemma_row_min_lower(y, n - 1, f, c);
    }
}

/// A row sum of a function that is 1 at column `ox` of row `oy` and 0
/// elsewhere is 1 where that cell is counted, else 0.
proof fn lemma_row_sum_single(y: int, n: int, f: spec_fn(int, int) -> int, oy: int, ox: int)
    requires
        0 <= ox,
        forall|x: int| 0 <= x < n ==> #[trigger] f(y, x) == (if y == oy && x == ox { 1int } else { 0int }),
    ensures
        row_sum(y, n, f) == (if y == oy && ox < n { 1int } else { 0int }),
    decreases n,
{
    if n > 0 {
        lemma_row_sum_single(y, n - 1, f, oy, ox);
    }
}

/// A grid sum of a function that is 1 at one cell of the rectangle and 0
/// at every other is 1.
pub proof fn lemma_grid_sum_single(h: int, w: int, f: spec_fn(int, int) -> int, oy: int, ox: int)
    requires
        0 <= oy < h,
        0 <= ox < w,
        forall|y: int, x: int| 0 <= y < h && 0 <= x < w ==> #[trigger] f(y, x) == (if y == oy && x == ox { 1int } else { 0int }),
    ensures
        grid_sum(h, w, f) == 1,
    decreases h,
{
    lemma_row_sum_single(h - 1, w, f, oy, ox);
    if h - 1 > oy {
        lemma_grid_sum_single(h - 1, w, f, oy, ox);
    } else {
        lemma_grid_sum_zero(h - 1, w, f);
    }
}

/// A grid sum of a function that is 0 on the rectangle is 0.
pub proof fn lemma_grid_sum_zero(h: int, w: int, f: spec_fn(int, int) -> int)
    requires
        forall|y: int, x: int| 0 <= y < h && 0 <= x < w ==> #[trigger] f(y, x) == 0,
    ensures
        grid_sum(h, w, f) == 0,
    decreases h,
{
    if h > 0 {
        lemma_grid_sum_zero(h - 1, w, f);
        lemma_row_sum_single(h - 1, w, f, -1, 0);
    }
}

/// `f` takes only the values 0 and 1 on the rectangle.
pub open spec fn zero_one(h: int, w: int, f: spec_fn(int, int) -> int) -> bool {
    forall|y: int, x: int| 0 <= y < h && 0 <= x < w ==> #[trigger] f(y, x) == 0 || f(y, x) == 1
}

/// `(oy, ox)` is the one cell of the rectangle where `f` is 1, and `f` is 0
/// at every other.
pub open spec fn only_one_at(h: int, w: int, f: spec_fn(int, int) -> int, oy: int, ox: int) -> bool {
    &&& 0 <= oy < h
    &&& 0 <= ox < w
    &&& f(oy, ox) == 1
    &&& forall|y: int, x: int| 0 <= y < h && 0 <= x < w && (y != oy || x != ox) ==> #[trigger] f(y, x) == 0
}

/// A row sum of zeros and ones is 0 only where every value is 0.
proof fn lemma_row_sum_zero_all(y: int, n: int, f: spec_fn(int, int) -> int)
    requires
        forall|x: int| 0 <= x < n ==> #[trigger] f(y, x) == 0 || f(y, x) == 1,
        row_sum(y, n, f) == 0,
    ensures
        forall|x: int| 0 <= x < n ==> #[trigger] f(y, x) == 0,
    decreases n,
{
    if n > 0 {
        lemma_row_sum_bounds(y, n - 1, f, 1);
        lemma_row_sum_zero_all(y, n - 1, f);
    }
}

/// `ox` is the one column among the first `n` of row `y` where `f` is 1,
/// and `f` is 0 at every other.
pub open spec fn only_one_in_row(y: int, n: int, f: spec_fn(int, int) -> int, ox: int) -> bool {
    0 <= ox < n && f(y, ox) == 1 && forall|x: int| 0 <= x < n && x != ox ==> #[trigger] f(y, x) == 0
}

/// A row sum of zeros and ones is 1 only where one value is 1 and the
/// others 0.
proof fn lemma_row_sum_one(y: int, n: int, f: spec_fn(int, int) -> int)
    requires
        forall|x: int| 0 <= x < n ==> #[trigger] f(y, x) == 0 || f(y, x) == 1,
        row_sum(y, n, f) == 1,
    ensures
        exists|ox: int| #[trigger] only_one_in_row(y, n, f, ox),
    decreases n,
{
    lemma_row_sum_bounds(y, n - 1, f, 1);
    if f(y, n - 1) == 1 {
        lemma_row_sum_zero_all(y, n - 1, f);
        assert(only_one_in_row(y, n, f, n - 1));
    } else {
        lemma_row_sum_one(y, n - 1, f);
        let ox = choose|ox: int| #[trigger] only_one_in_row(y, n - 1, f, ox);
        assert(only_one_in_row(y, n, f, ox));
    }
}

/// A grid sum of zeros and ones is 0 only where every value is 0.
proof fn lemma_grid_sum_zero_all(h: int, w: int, f: spec_fn(int, int) -> int)
    requires
        zero_one(h, w, f),
        grid_sum(h, w, f) == 0,
        0 <= w,
    ensures
        forall|y: int, x: int| 0 <= y < h && 0 <= x < w ==> #[trigger] f(y, x) == 0,
    decreases h,
{
    if h > 0 {
        assert forall|x: int| 0 <= x < w implies 0 <= #[trigger] f(h - 1, x) <= 1 by {}
        lemma_row_sum_bounds(h - 1, w, f, 1);
        assert(zero_one(h - 1, w, f));
        assert forall|y: int, x: int| 0 <= y < h - 1 && 0 <= x < w implies 0 <= #[trigger] f(y, x) <= 1 by {}
        lemma_grid_sum_bounds(h - 1, w, f, 1);
        lemma_grid_sum_zero_all(h - 1, w, f);
        lemma_row_sum_zero_all(h - 1, w, f);
    }
}

/// A grid sum of zeros and ones is 1 only where one value is 1 and the
/// others 0.
pub proof fn lemma_grid_sum_one(h: int, w: int, f: spec_fn(int, int) -> int)
    requires
        zero_one(h, w, f),
        grid_sum(h, w, f) == 1,
        0 <= w,
    ensures
        exists|oy: int, ox: int| #[trigger] only_one_at(h, w, f, oy, ox),
    decreases h,
{
    assert forall|x: int| 0 <= x < w implies 0 <= #[trigger] f(h - 1, x) <= 1 by {}
    lemma_row_sum_bounds(h - 1, w, f, 1);
    assert(zero_one(h - 1, w, f));
    assert forall|y: int, x: int| 0 <= y < h - 1 && 0 <= x < w implies 0 <= #[trigger] f(y, x) <= 1 by {}
    if h - 1 > 0 {
        lemma_grid_sum_bounds(h - 1, w, f, 1);
    }
    if row_sum(h - 1, w, f) == 1 {
        lemma_row_sum_one(h - 1, w, f);
        let ox = choose|ox: int| #[trigger] only_one_in_row(h - 1, w, f, ox);
        if h - 1 > 0 {
            lemma_grid_sum_zero_all(h - 1, w, f);
        }
        assert(only_one_at(h, w, f, h - 1, ox));
    } else {
        lemma_row_sum_zero_all(h - 1, w, f);
        lemma_grid_sum_one(h - 1, w, f);
        let (oy, ox) = choose|oy: int, ox: int| #[trigger] only_one_at(h - 1, w, f, oy, ox);
        assert(only_one_at(h, w, f, oy, ox));
    }
}

} // verus!
