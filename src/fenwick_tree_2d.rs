//! A two-dimensional Fenwick tree: point additions and rectangle sums over a
//! 1-indexed `n × m` grid, in wrapping `u64` arithmetic.
use vstd::prelude::*;
use vstd::arithmetic::div_mod::{lemma_add_mod_noop, lemma_small_mod, lemma_sub_mod_noop};

verus! {

/// The lowest set bit of `i`.
pub open spec fn lsb(i: u64) -> u64 {
    i & ((!i + 1) as u64)
}

proof fn lemma_lsb_bounds(i: u64)
    requires
        i > 0,
    ensures
        0 < lsb(i) <= i,
{
    assert(0 < (i & ((!i + 1) as u64)) <= i) by (bit_vector)
        requires
            i > 0,
    ;
}

/// Climbing by the lowest set bit never lowers the start of the range.
proof fn lemma_lsb_climb(i: u64, k: u64)
    requires
        0 < i < 0x4000_0000_0000_0000,
        k == i + lsb(i),
    ensures
        k - lsb(k) <= i - lsb(i),
{
    assert(k - (k & ((!k + 1) as u64)) <= i - (i & ((!i + 1) as u64))) by (bit_vector)
        requires
            0 < i < 0x4000_0000_0000_0000,
            k == i + (i & ((!i + 1) as u64)),
    ;
}

/// Strictly between `i` and `i + lsb(i)`, every range starts at or after `i`.
proof fn lemma_lsb_between(i: u64, j: u64)
    requires
        0 < i < 0x4000_0000_0000_0000,
        i < j,
        j < i + lsb(i),
    ensures
        j - lsb(j) >= i,
{
    assert(j - (j & ((!j + 1) as u64)) >= i) by (bit_vector)
        requires
            0 < i < 0x4000_0000_0000_0000,
            i < j,
            j < i + (i & ((!i + 1) as u64)),
    ;
}

/// `2^64`: sums are kept modulo it.
pub open spec fn modulus() -> int {
    0x1_0000_0000_0000_0000
}

/// The values `row[y0 + 1..=y1]` added up.
pub open spec fn row_sum(row: Seq<int>, y0: int, y1: int) -> int
    decreases y1 - y0,
{
    if y1 <= y0 {
        0
    } else {
        row_sum(row, y0, y1 - 1) + row[y1]
    }
}

/// The values of rows `x0 + 1..=x1` and columns `y0 + 1..=y1` added up.
pub open spec fn rect(vals: Seq<Seq<int>>, x0: int, x1: int, y0: int, y1: int) -> int
    decreases x1 - x0,
{
    if x1 <= x0 {
        0
    } else {
        rect(vals, x0, x1 - 1, y0, y1) + row_sum(vals[x1], y0, y1)
    }
}

/// The rectangle whose sum the tree keeps at cell `(i, j)`: the rows and
/// columns that the lowest set bits of `i` and `j` reach down over.
pub open spec fn cell_rect(vals: Seq<Seq<int>>, i: int, j: int) -> int {
    rect(vals, i - lsb(i as u64), i, j - lsb(j as u64), j)
}

/// Range `(i - lsb(i), i]` holds `x`.
pub open spec fn covers(i: int, x: int) -> bool {
    i - lsb(i as u64) < x <= i
}

/// `vals` with `v` added at `(x, y)`.
pub open spec fn add_at(vals: Seq<Seq<int>>, x: int, y: int, v: int) -> Seq<Seq<int>> {
    vals.update(x, vals[x].update(y, vals[x][y] + v))
}

proof fn lemma_row_split(row: Seq<int>, a: int, b: int, c: int)
    requires
        a <= b <= c,
    ensures
        row_sum(row, a, c) == row_sum(row, a, b) + row_sum(row, b, c),
    decreases c - b,
{
    if b < c {
        lemma_row_split(row, a, b, c - 1);
    }
}

proof fn lemma_rect_split_rows(vals: Seq<Seq<int>>, a: int, b: int, c: int, y0: int, y1: int)
    requires
        a <= b <= c,
    ensures
        rect(vals, a, c, y0, y1) == rect(vals, a, b, y0, y1) + rect(vals, b, c, y0, y1),
    decreases c - b,
{
    if b < c {
        lemma_rect_split_rows(vals, a, b, c - 1, y0, y1);
    }
}

proof fn lemma_rect_split_cols(vals: Seq<Seq<int>>, x0: int, x1: int, a: int, b: int, c: int)
    requires
        a <= b <= c,
    ensures
        rect(vals, x0, x1, a, c) == rect(vals, x0, x1, a, b) + rect(vals, x0, x1, b, c),
    decreases x1 - x0,
{
    if x0 < x1 {
        lemma_rect_split_cols(vals, x0, x1 - 1, a, b, c);
        lemma_row_split(vals[x1], a, b, c);
    }
}

proof fn lemma_row_add(row: Seq<int>, y: int, v: int, y0: int, y1: int)
    requires
        0 <= y < row.len(),
        0 <= y0,
        y1 < row.len(),
    ensures
        row_sum(row.update(y, row[y] + v), y0, y1) == row_sum(row, y0, y1) + if y0 < y <= y1 {
            v
        } else {
            0
        },
    decreases y1 - y0,
{
    if y0 < y1 {
        lemma_row_add(row, y, v, y0, y1 - 1);
    }
}

proof fn lemma_rect_add(vals: Seq<Seq<int>>, x: int, y: int, v: int, x0: int, x1: int, y0: int, y1: int)
    requires
        0 <= x < vals.len(),
        0 <= y < vals[x].len(),
        0 <= x0,
        x1 < vals.len(),
        0 <= y0,
        y1 < vals[x].len(),
    ensures
        rect(add_at(vals, x, y, v), x0, x1, y0, y1) == rect(vals, x0, x1, y0, y1) + if x0 < x <= x1
            && y0 < y <= y1 {
            v
        } else {
            0
        },
    decreases x1 - x0,
{
    if x0 < x1 {
        lemma_rect_add(vals, x, y, v, x0, x1 - 1, y0, y1);
        if x1 == x {
            lemma_row_add(vals[x], y, v, y0, y1);
        } else {
            assert(add_at(vals, x, y, v)[x1] == vals[x1]);
        }
    }
}

proof fn lemma_wrapping_add(a: u64, b: u64)
    ensures
        a.wrapping_add(b) as int == (a + b) % modulus(),
{
    if a + b < modulus() {
        lemma_small_mod((a + b) as nat, modulus() as nat);
    } else {
        lemma_small_mod((a + b - modulus()) as nat, modulus() as nat);
        assert((a + b) % modulus() == (a + b - modulus()) % modulus());
    }
}

proof fn lemma_wrapping_sub(a: u64, b: u64)
    ensures
        a.wrapping_sub(b) as int == (a - b) % modulus(),
{
    if a >= b {
        lemma_small_mod((a - b) as nat, modulus() as nat);
    } else {
        lemma_small_mod((a - b + modulus()) as nat, modulus() as nat);
        assert((a - b) % modulus() == (a - b + modulus()) % modulus());
    }
}

/// Cells `1..=n × 1..=m`, each holding the sum of the values over the
/// rectangle that its lowest set bits reach down over; row and column `0`
/// stay unused.
pub struct FenwickTree2d {
    tr: Vec<Vec<u64>>,
    n: usize,
    m: usize,
    vals: Ghost<Seq<Seq<int>>>,
}

impl FenwickTree2d {
    /// The grid is `(n + 1) × (m + 1)`, every cell holds its rectangle's sum,
    /// and stepping past `n` or `m` by a lowest set bit cannot overflow.
    pub closed spec fn wf(&self) -> bool {
        &&& self.n < 0x4000_0000_0000_0000
        &&& self.m < 0x4000_0000_0000_0000
        &&& self.n < usize::MAX / 2
        &&& self.m < usize::MAX / 2
        &&& self.tr@.len() == self.n + 1
        &&& forall|i: int| 0 <= i <= self.n ==> (#[trigger] self.tr@[i])@.len() == self.m + 1
        &&& self.vals@.len() == self.n + 1
        &&& forall|i: int| 0 <= i <= self.n ==> (#[trigger] self.vals@[i]).len() == self.m + 1
        &&& forall|i: int, j: int|
            1 <= i <= self.n && 1 <= j <= self.m ==> #[trigger] self.tr@[i]@[j] as int == cell_rect(
                self.vals@,
                i,
                j,
            ) % modulus()
    }

    /// The value added so far at each cell, row by row.
    pub closed spec fn values(&self) -> Seq<Seq<int>> {
        self.vals@
    }

    /// Number of rows.
    pub closed spec fn rows(&self) -> nat {
        self.n as nat
    }

    /// Number of columns.
    pub closed spec fn cols(&self) -> nat {
        self.m as nat
    }

    /// The lowest set bit of `x`.
    fn lowbit(x: usize) -> (r: usize)
        requires
            x > 0,
        ensures
            r == lsb(x as u64),
            0 < r <= x,
    {
        let y = x as u64;
        assert(!y < 0xffff_ffff_ffff_ffffu64) by (bit_vector)
            requires
                y > 0,
        ;
        let z: u64 = !y + 1;
        let r = y & z;
        proof {
            lemma_lsb_bounds(y);
        }
        r as usize
    }

    /// An all-zero grid of `n` rows and `m` columns.
    pub fn new(n: usize, m: usize) -> (r: Self)
        requires
            n < usize::MAX / 2,
            m < usize::MAX / 2,
            n < 0x4000_0000_0000_0000,
            m < 0x4000_0000_0000_0000,
        ensures
            r.wf(),
            r.rows() == n,
            r.cols() == m,
            forall|i: int, j: int| 0 <= i <= n && 0 <= j <= m ==> #[trigger] r.values()[i][j] == 0,
    {
        let ghost zero_row = Seq::new((m + 1) as nat, |j: int| 0int);
        let ghost vals = Seq::new((n + 1) as nat, |i: int| zero_row);
        let mut tr: Vec<Vec<u64>> = Vec::new();
        let mut i: usize = 0;
        while i <= n
            invariant
                n < usize::MAX / 2,
                m < usize::MAX / 2,
                i <= n + 1,
                tr@.len() == i,
                forall|k: int| 0 <= k < i ==> (#[trigger] tr@[k])@.len() == m + 1,
                forall|k: int, j: int| 0 <= k < i && 0 <= j <= m ==> #[trigger] tr@[k]@[j] == 0,
            decreases n + 1 - i,
        {
            tr.push(vec![0u64; m + 1]);
            i = i + 1;
        }
        proof {
            assert forall|a: int, b: int| 1 <= a <= n && 1 <= b <= m implies #[trigger] tr@[a]@[b]
                as int == cell_rect(vals, a, b) % modulus() by {
                lemma_lsb_bounds(a as u64);
                lemma_lsb_bounds(b as u64);
                lemma_rect_zero(vals, a - lsb(a as u64), a, b - lsb(b as u64), b, m as int);
            }
        }
        FenwickTree2d { tr, n, m, vals: Ghost(vals) }
    }

    /// Adds `v` at cell `(x, y)`; a cell outside the grid is left out.
    pub fn add(&mut self, x: usize, y: usize, v: u64)
        requires
            old(self).wf(),
            1 <= x,
            1 <= y,
        ensures
            final(self).wf(),
            final(self).rows() == old(self).rows(),
            final(self).cols() == old(self).cols(),
            final(self).values() == if x <= old(self).rows() && y <= old(self).cols() {
                add_at(old(self).values(), x as int, y as int, v as int)
            } else {
                old(self).values()
            },
    {
        let ghost old_vals = self.vals@;
        let ghost old_tr = self.tr@;
        let ghost inside = x <= self.n && y <= self.m;
        let ghost new_vals = if inside {
            add_at(old_vals, x as int, y as int, v as int)
        } else {
            old_vals
        };
        proof {
            assert forall|a: int, b: int| 1 <= a <= self.n && 1 <= b <= self.m implies #[trigger] cell_rect(
                new_vals,
                a,
                b,
            ) == cell_rect(old_vals, a, b) + if inside && covers(a, x as int) && covers(b, y as int) {
                v as int
            } else {
                0
            } by {
                lemma_lsb_bounds(a as u64);
                lemma_lsb_bounds(b as u64);
                if inside {
                    lemma_rect_add(
                        old_vals,
                        x as int,
                        y as int,
                        v as int,
                        a - lsb(a as u64),
                        a,
                        b - lsb(b as u64),
                        b,
                    );
                }
            }
        }
        proof {
            lemma_lsb_bounds(x as u64);
            lemma_lsb_bounds(y as u64);
        }
        let mut i = x;
        while i <= self.n
            invariant
                inside == (x <= self.n && y <= self.m),
                new_vals == if inside {
                    add_at(old_vals, x as int, y as int, v as int)
                } else {
                    old_vals
                },
                forall|a: int, b: int|
                    1 <= a <= self.n && 1 <= b <= self.m ==> #[trigger] cell_rect(new_vals, a, b) == cell_rect(
                        old_vals,
                        a,
                        b,
                    ) + if inside && covers(a, x as int) && covers(b, y as int) {
                        v as int
                    } else {
                        0
                    },
                covers(y as int, y as int),
                self.n == old(self).n,
                self.m == old(self).m,
                self.vals@ == old_vals,
                self.n < 0x4000_0000_0000_0000,
                self.m < 0x4000_0000_0000_0000,
                self.n < usize::MAX / 2,
                self.m < usize::MAX / 2,
                self.tr@.len() == self.n + 1,
                forall|a: int| 0 <= a <= self.n ==> (#[trigger] self.tr@[a])@.len() == self.m + 1,
                i >= x >= 1,
                y >= 1,
                i <= self.n ==> covers(i as int, x as int),
                forall|a: int, b: int|
                    1 <= a <= self.n && 1 <= b <= self.m ==> #[trigger] self.tr@[a]@[b] as int == if a < i
                        && covers(a, x as int) && covers(b, y as int) && inside {
                        (cell_rect(old_vals, a, b) + v) % modulus()
                    } else {
                        cell_rect(old_vals, a, b) % modulus()
                    },
            decreases if i <= self.n {
                self.n + 1 - i
            } else {
                0
            },
        {
            let mut j = y;
            while j <= self.m
                invariant
                    self.n == old(self).n,
                    self.m == old(self).m,
                    self.vals@ == old_vals,
                    inside == (x <= self.n && y <= self.m),
                    self.m < 0x4000_0000_0000_0000,
                    self.m < usize::MAX / 2,
                    self.tr@.len() == self.n + 1,
                    forall|a: int| 0 <= a <= self.n ==> (#[trigger] self.tr@[a])@.len() == self.m + 1,
                    1 <= i <= self.n,
                    covers(i as int, x as int),
                    j >= y >= 1,
                    j <= self.m ==> covers(j as int, y as int),
                    forall|a: int, b: int|
                        1 <= a <= self.n && 1 <= b <= self.m ==> #[trigger] self.tr@[a]@[b] as int == if (
                        a < i || (a == i && b < j)) && covers(a, x as int) && covers(b, y as int)
                            && inside {
                            (cell_rect(old_vals, a, b) + v) % modulus()
                        } else {
                            cell_rect(old_vals, a, b) % modulus()
                        },
                decreases if j <= self.m {
                    self.m + 1 - j
                } else {
                    0
                },
            {
                let mut row: Vec<u64> = Vec::new();
                self.tr.set_and_swap(i, &mut row);
                let old_cell = row[j];
                let cell = old_cell.wrapping_add(v);
                row.set(j, cell);
                self.tr.set_and_swap(i, &mut row);
                let step = Self::lowbit(j);
                proof {
                    lemma_wrapping_add(old_cell, v);
                    lemma_add_mod_noop(cell_rect(old_vals, i as int, j as int), v as int, modulus());
                    lemma_small_mod(v as nat, modulus() as nat);
                    lemma_mod_twice_small(cell_rect(old_vals, i as int, j as int));
                    assert(inside);
                    if j + step <= self.m {
                        lemma_lsb_climb(j as u64, (j + step) as u64);
                    }
                    assert forall|b: int| j < b < j + step implies !covers(b, y as int) by {
                        lemma_lsb_between(j as u64, b as u64);
                    }
                }
                j = j + step;
            }
            let step = Self::lowbit(i);
            proof {
                if i + step <= self.n {
                    lemma_lsb_climb(i as u64, (i + step) as u64);
                }
                assert forall|a: int| i < a < i + step implies !covers(a, x as int) by {
                    lemma_lsb_between(i as u64, a as u64);
                }
            }
            i = i + step;
        }
        self.vals = Ghost(new_vals);
        proof {
            assert forall|a: int, b: int| 1 <= a <= self.n && 1 <= b <= self.m implies #[trigger] self.tr@[a]@[b]
                as int == cell_rect(new_vals, a, b) % modulus() by {
            }
            if inside {
                assert forall|a: int| 0 <= a <= self.n implies (#[trigger] new_vals[a]).len() == self.m + 1 by {
                    if a == x {
                    }
                }
            }
        }
    }

    /// The sum, modulo `2^64`, over the rectangle `1..=x × 1..=y`.
    pub fn sum(&self, x: usize, y: usize) -> (r: u64)
        requires
            self.wf(),
            x <= self.rows(),
            y <= self.cols(),
        ensures
            r as int == rect(self.values(), 0, x as int, 0, y as int) % modulus(),
    {
        let ghost vals = self.vals@;
        let mut res: u64 = 0;
        let mut i = x;
        while i > 0
            invariant
                self.wf(),
                vals == self.vals@,
                i <= x <= self.n,
                y <= self.m,
                res as int == rect(vals, i as int, x as int, 0, y as int) % modulus(),
            decreases i,
        {
            let step = Self::lowbit(i);
            let mut j = y;
            let ghost before = res as int;
            proof {
                lemma_rect_empty_cols(vals, i - step, i as int, y as int);
                lemma_mod_twice_small(rect(vals, i as int, x as int, 0, y as int));
            }
            while j > 0
                invariant
                    self.wf(),
                    vals == self.vals@,
                    1 <= i <= x <= self.n,
                    j <= y <= self.m,
                    step == lsb(i as u64),
                    0 < step <= i,
                    before == rect(vals, i as int, x as int, 0, y as int) % modulus(),
                    res as int == (before + rect(vals, i - step, i as int, j as int, y as int)) % modulus(),
                decreases j,
            {
                let cell = self.tr[i][j];
                let jstep = Self::lowbit(j);
                proof {
                    lemma_wrapping_add(res, cell);
                    lemma_rect_split_cols(vals, i - step, i as int, j - jstep, j as int, y as int);
                    lemma_add_mod_noop(
                        before + rect(vals, i - step, i as int, j as int, y as int),
                        cell_rect(vals, i as int, j as int),
                        modulus(),
                    );
                    lemma_mod_twice_small(cell_rect(vals, i as int, j as int));
                    lemma_mod_twice_small(before + rect(vals, i - step, i as int, j as int, y as int));
                }
                res = res.wrapping_add(cell);
                j = j - jstep;
            }
            proof {
                lemma_rect_split_rows(vals, i - step, i as int, x as int, 0, y as int);
                lemma_mod_plus_mod(rect(vals, i as int, x as int, 0, y as int), rect(vals, i - step, i as int, 0, y as int));
            }
            i = i - step;
        }
        res
    }

    /// The sum, modulo `2^64`, over the rectangle `x1..=x2 × y1..=y2`, by
    /// inclusion and exclusion of four prefix sums.
    pub fn query(&self, x1: usize, y1: usize, x2: usize, y2: usize) -> (r: u64)
        requires
            self.wf(),
            1 <= x1 <= x2 + 1,
            1 <= y1 <= y2 + 1,
            x2 <= self.rows(),
            y2 <= self.cols(),
        ensures
            r as int == rect(self.values(), x1 - 1, x2 as int, y1 - 1, y2 as int) % modulus(),
    {
        let a = self.sum(x2, y2);
        let b = self.sum(x2, y1 - 1);
        let c = self.sum(x1 - 1, y2);
        let d = self.sum(x1 - 1, y1 - 1);
        let ab = a.wrapping_sub(b);
        let abc = ab.wrapping_sub(c);
        let r = abc.wrapping_add(d);
        proof {
            let vals = self.vals@;
            let big = rect(vals, 0, x2 as int, 0, y2 as int);
            let left = rect(vals, 0, x2 as int, 0, y1 - 1);
            let top = rect(vals, 0, x1 - 1, 0, y2 as int);
            let corner = rect(vals, 0, x1 - 1, 0, y1 - 1);
            lemma_rect_split_rows(vals, 0, x1 - 1, x2 as int, 0, y2 as int);
            lemma_rect_split_rows(vals, 0, x1 - 1, x2 as int, 0, y1 - 1);
            lemma_rect_split_cols(vals, x1 - 1, x2 as int, 0, y1 - 1, y2 as int);
            lemma_wrapping_sub(a, b);
            lemma_wrapping_sub(ab, c);
            lemma_wrapping_add(abc, d);
            lemma_sub_mod_noop(big, left, modulus());
            lemma_sub_mod_noop(big - left, top, modulus());
            lemma_add_mod_noop(big - left - top, corner, modulus());
            lemma_mod_twice_small(big - left);
            lemma_mod_twice_small(big - left - top);
        }
        r
    }
}

/// A rectangle without columns sums to zero.
proof fn lemma_rect_empty_cols(vals: Seq<Seq<int>>, x0: int, x1: int, y: int)
    ensures
        rect(vals, x0, x1, y, y) == 0,
    decreases x1 - x0,
{
    if x0 < x1 {
        lemma_rect_empty_cols(vals, x0, x1 - 1, y);
    }
}

/// A rectangle of an all-zero grid sums to zero.
proof fn lemma_rect_zero(vals: Seq<Seq<int>>, x0: int, x1: int, y0: int, y1: int, m: int)
    requires
        forall|i: int| 0 <= i < vals.len() ==> #[trigger] vals[i] == Seq::new((m + 1) as nat, |j: int| 0int),
        0 <= x0,
        x1 < vals.len(),
        0 <= y0,
        y1 <= m,
    ensures
        rect(vals, x0, x1, y0, y1) == 0,
    decreases x1 - x0,
{
    if x0 < x1 {
        lemma_rect_zero(vals, x0, x1 - 1, y0, y1, m);
        lemma_row_zero(vals[x1], y0, y1, m);
    }
}

proof fn lemma_row_zero(row: Seq<int>, y0: int, y1: int, m: int)
    requires
        row == Seq::new((m + 1) as nat, |j: int| 0int),
        0 <= y0,
        y1 <= m,
    ensures
        row_sum(row, y0, y1) == 0,
    decreases y1 - y0,
{
    if y0 < y1 {
        lemma_row_zero(row, y0, y1 - 1, m);
    }
}

proof fn lemma_mod_twice_small(a: int)
    ensures
        (a % modulus()) % modulus() == a % modulus(),
{
    lemma_small_mod((a % modulus()) as nat, modulus() as nat);
}

proof fn lemma_mod_plus_mod(a: int, b: int)
    ensures
        (a % modulus() + b) % modulus() == (a + b) % modulus(),
{
    lemma_add_mod_noop(a, b, modulus());
    lemma_add_mod_noop(a % modulus(), b, modulus());
    lemma_mod_twice_small(a);
}

} // verus!
