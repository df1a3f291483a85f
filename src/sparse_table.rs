//! Sparse tables: range queries in constant time for idempotent operations,
//! after an `n log n` build.
use vstd::prelude::*;
use crate::number_theory::{gcd, lemma_gcd_associative, lemma_gcd_commutative, power, spec_gcd};

verus! {

/// An associative, commutative operation that may count an element twice
/// without changing the result.
pub trait Repeatable {
    type S: Copy;

    /// The operation, as the contracts speak of it.
    spec fn op(a: Self::S, b: Self::S) -> Self::S;

    /// The operation.
    fn operation(a: Self::S, b: Self::S) -> (r: Self::S)
        ensures
            r == Self::op(a, b);

    /// Grouping does not matter.
    proof fn lemma_associative(a: Self::S, b: Self::S, c: Self::S)
        ensures
            Self::op(Self::op(a, b), c) == Self::op(a, Self::op(b, c));

    /// Order does not matter.
    proof fn lemma_commutative(a: Self::S, b: Self::S)
        ensures
            Self::op(a, b) == Self::op(b, a);

    /// Counting an element twice does not matter.
    proof fn lemma_idempotent(a: Self::S)
        ensures
            Self::op(a, a) == a;
}

/// The maximum.
pub struct Max;

impl Repeatable for Max {
    type S = u64;

    open spec fn op(a: u64, b: u64) -> u64 {
        if a >= b {
            a
        } else {
            b
        }
    }

    fn operation(a: u64, b: u64) -> (r: u64) {
        if a >= b {
            a
        } else {
            b
        }
    }

    proof fn lemma_associative(a: u64, b: u64, c: u64) {
    }

    proof fn lemma_commutative(a: u64, b: u64) {
    }

    proof fn lemma_idempotent(a: u64) {
    }
}

/// The minimum.
pub struct Min;

impl Repeatable for Min {
    type S = u64;

    open spec fn op(a: u64, b: u64) -> u64 {
        if a <= b {
            a
        } else {
            b
        }
    }

    fn operation(a: u64, b: u64) -> (r: u64) {
        if a <= b {
            a
        } else {
            b
        }
    }

    proof fn lemma_associative(a: u64, b: u64, c: u64) {
    }

    proof fn lemma_commutative(a: u64, b: u64) {
    }

    proof fn lemma_idempotent(a: u64) {
    }
}

/// Bitwise and.
pub struct And;

impl Repeatable for And {
    type S = u64;

    open spec fn op(a: u64, b: u64) -> u64 {
        a & b
    }

    fn operation(a: u64, b: u64) -> (r: u64) {
        a & b
    }

    proof fn lemma_associative(a: u64, b: u64, c: u64) {
        assert((a & b) & c == a & (b & c)) by (bit_vector);
    }

    proof fn lemma_commutative(a: u64, b: u64) {
        assert(a & b == b & a) by (bit_vector);
    }

    proof fn lemma_idempotent(a: u64) {
        assert(a & a == a) by (bit_vector);
    }
}

/// Bitwise or.
pub struct Or;

impl Repeatable for Or {
    type S = u64;

    open spec fn op(a: u64, b: u64) -> u64 {
        a | b
    }

    fn operation(a: u64, b: u64) -> (r: u64) {
        a | b
    }

    proof fn lemma_associative(a: u64, b: u64, c: u64) {
        assert((a | b) | c == a | (b | c)) by (bit_vector);
    }

    proof fn lemma_commutative(a: u64, b: u64) {
        assert(a | b == b | a) by (bit_vector);
    }

    proof fn lemma_idempotent(a: u64) {
        assert(a | a == a) by (bit_vector);
    }
}

/// The greatest common divisor.
pub struct Gcd;

impl Repeatable for Gcd {
    type S = u64;

    open spec fn op(a: u64, b: u64) -> u64 {
        spec_gcd(a as nat, b as nat) as u64
    }

    fn operation(a: u64, b: u64) -> (r: u64) {
        gcd(a, b)
    }

    proof fn lemma_associative(a: u64, b: u64, c: u64) {
        let ab = gcd_fits(a, b);
        let bc = gcd_fits(b, c);
        lemma_gcd_associative(a as nat, b as nat, c as nat);
        gcd_fits(ab, c);
        gcd_fits(a, bc);
    }

    proof fn lemma_commutative(a: u64, b: u64) {
        lemma_gcd_commutative(a as nat, b as nat);
    }

    proof fn lemma_idempotent(a: u64) {
        assert(spec_gcd(a as nat, a as nat) == spec_gcd(a as nat, 0));
    }
}

/// The Euclidean gcd of two `u64` values is itself a `u64` value.
proof fn gcd_fits(a: u64, b: u64) -> (g: u64)
    ensures
        g == spec_gcd(a as nat, b as nat),
    decreases b,
{
    if b == 0 {
        a
    } else {
        gcd_fits(b, a % b)
    }
}

/// The operation folded over the `len` elements of `a` from `i` on.
pub open spec fn fold<T: Repeatable>(a: Seq<T::S>, i: int, len: nat) -> T::S
    decreases len,
{
    if len <= 1 {
        a[i]
    } else {
        T::op(fold::<T>(a, i, (len - 1) as nat), a[i + len - 1])
    }
}

/// A fold over `x + y` elements splits into folds over the first `x` and the
/// next `y`.
pub proof fn lemma_fold_split<T: Repeatable>(a: Seq<T::S>, i: int, x: nat, y: nat)
    requires
        x >= 1,
        y >= 1,
    ensures
        fold::<T>(a, i, x + y) == T::op(fold::<T>(a, i, x), fold::<T>(a, i + x, y)),
    decreases y,
{
    if y > 1 {
        lemma_fold_split::<T>(a, i, x, (y - 1) as nat);
        T::lemma_associative(fold::<T>(a, i, x), fold::<T>(a, i + x, (y - 1) as nat), a[i + x + y - 1]);
        assert(i + (x + y) - 1 == i + x + y - 1);
    }
}

/// Two folds of `x` elements that start `len - x` apart and overlap cover
/// the `len` elements exactly once as far as an idempotent operation can
/// tell.
pub proof fn lemma_fold_overlap<T: Repeatable>(a: Seq<T::S>, i: int, x: nat, len: nat)
    requires
        1 <= x <= len <= 2 * x,
    ensures
        T::op(fold::<T>(a, i, x), fold::<T>(a, i + len - x, x)) == fold::<T>(a, i, len),
{
    let d = (len - x) as nat;
    if d == 0 {
        T::lemma_idempotent(fold::<T>(a, i, x));
    } else if d == x {
        lemma_fold_split::<T>(a, i, x, x);
    } else {
        let fa = fold::<T>(a, i, d);
        let fb = fold::<T>(a, i + d, (x - d) as nat);
        let fc = fold::<T>(a, i + x, d);
        lemma_fold_split::<T>(a, i, d, (x - d) as nat);
        lemma_fold_split::<T>(a, i + d, (x - d) as nat, d);
        assert(i + d + (x - d) == i + x);
        lemma_fold_split::<T>(a, i, x, d);
        T::lemma_associative(fa, fb, T::op(fb, fc));
        T::lemma_associative(fb, fb, fc);
        T::lemma_idempotent(fb);
        T::lemma_associative(fa, fb, fc);
    }
}

/// `⌊log₂ x⌋`.
pub fn ilog2(x: usize) -> (r: usize)
    requires
        x >= 1,
    ensures
        power(2, r as nat) <= x < 2 * power(2, r as nat),
{
    let mut r: usize = 0;
    let mut v: usize = 1;
    while v <= x / 2
        invariant
            x >= 1,
            1 <= v <= x,
            v == power(2, r as nat),
            r < v,
        decreases x - v,
    {
        v = v * 2;
        r = r + 1;
        proof {
            lemma_power_two_grows(r as nat);
        }
    }
    r
}

proof fn lemma_power_two_grows(r: nat)
    ensures
        power(2, r) >= r + 1,
    decreases r,
{
    if r > 0 {
        lemma_power_two_grows((r - 1) as nat);
    }
}

proof fn lemma_power_two_at_least(r: nat, s: nat)
    requires
        s <= r,
    ensures
        power(2, r) >= power(2, s),
        power(2, s) >= 1,
    decreases r,
{
    if s < r {
        lemma_power_two_at_least((r - 1) as nat, s);
    } else if s > 0 {
        lemma_power_two_at_least((s - 1) as nat, (s - 1) as nat);
    }
}

/// For each power of two `2^k` up to the length, the operation folded over
/// each window of `2^k` elements.
pub struct SparseTable<T: Repeatable> {
    st: Vec<Vec<T::S>>,
    data: Ghost<Seq<T::S>>,
}

impl<T: Repeatable> SparseTable<T> {
    /// Level `k` holds the folds over the windows of `2^k` elements, and the
    /// levels reach the largest power of two within the length.
    pub closed spec fn wf(&self) -> bool {
        let n = self.data@.len();
        &&& 1 <= n <= usize::MAX
        &&& self.st@.len() >= 1
        &&& power(2, (self.st@.len() - 1) as nat) <= n < power(2, self.st@.len() as nat)
        &&& forall|k: int| 0 <= k < self.st@.len() ==> (#[trigger] self.st@[k])@.len() == n - power(2, k as nat) + 1
        &&& forall|k: int, i: int|
            0 <= k < self.st@.len() && 0 <= i < self.st@[k]@.len() ==> #[trigger] self.st@[k]@[i]
                == fold::<T>(self.data@, i, power(2, k as nat) as nat)
    }

    /// The elements the table was built from.
    pub closed spec fn data(&self) -> Seq<T::S> {
        self.data@
    }

    /// Builds the table over `a`.
    pub fn new(a: Vec<T::S>) -> (r: Self)
        requires
            a@.len() >= 1,
        ensures
            r.wf(),
            r.data() == a@,
    {
        let n = a.len();
        let log2 = ilog2(n);
        let ghost data = a@;
        let mut st: Vec<Vec<T::S>> = Vec::new();
        st.push(a);
        let mut pw: usize = 1;
        let mut half: usize = 1;
        proof {
            assert(power(2, 0) == 1);
            assert(power(2, 1) == 2);
        }
        while pw <= log2
            invariant
                n == data.len(),
                n >= 1,
                power(2, log2 as nat) <= n < 2 * power(2, log2 as nat),
                1 <= pw <= log2 + 1,
                st@.len() == pw,
                half == power(2, (pw - 1) as nat),
                forall|k: int| 0 <= k < pw ==> (#[trigger] st@[k])@.len() == n - power(2, k as nat) + 1,
                forall|k: int, i: int|
                    0 <= k < pw && 0 <= i < st@[k]@.len() ==> #[trigger] st@[k]@[i] == fold::<T>(
                        data,
                        i,
                        power(2, k as nat) as nat,
                    ),
            decreases log2 + 1 - pw,
        {
            proof {
                lemma_power_two_at_least(log2 as nat, pw as nat);
                assert(power(2, pw as nat) == 2 * power(2, (pw - 1) as nat));
            }
            let span = half * 2;
            let len = n - span + 1;
            let mut row: Vec<T::S> = Vec::new();
            let mut i: usize = 0;
            while i < len
                invariant
                    n == data.len(),
                    1 <= pw,
                    st@.len() == pw,
                    half == power(2, (pw - 1) as nat),
                    span == 2 * half,
                    span <= n,
                    len == n - span + 1,
                    i <= len,
                    row@.len() == i,
                    st@[pw - 1]@.len() == n - half + 1,
                    forall|j: int| 0 <= j < st@[pw - 1]@.len() ==> #[trigger] st@[pw - 1]@[j] == fold::<T>(
                        data,
                        j,
                        half as nat,
                    ),
                    forall|j: int| 0 <= j < i ==> #[trigger] row@[j] == fold::<T>(data, j, span as nat),
                decreases len - i,
            {
                let x = T::operation(st[pw - 1][i], st[pw - 1][i + half]);
                proof {
                    assert(half >= 1) by {
                        lemma_power_two_at_least((pw - 1) as nat, 0);
                    }
                    lemma_fold_split::<T>(data, i as int, half as nat, half as nat);
                }
                row.push(x);
                i = i + 1;
            }
            st.push(row);
            proof {
                lemma_power_two_grows(log2 as nat);
            }
            pw = pw + 1;
            half = span;
        }
        SparseTable { st, data: Ghost(data) }
    }

    /// The operation folded over the elements `l..=r`.
    pub fn query(&self, l: usize, r: usize) -> (x: T::S)
        requires
            self.wf(),
            l <= r < self.data().len(),
        ensures
            x == fold::<T>(self.data(), l as int, (r + 1 - l) as nat),
    {
        let len = r + 1 - l;
        let k = ilog2(len);
        proof {
            let levels = self.st@.len();
            if k >= levels {
                lemma_power_two_at_least(k as nat, levels as nat);
            }
        }
        let span = pow2_usize(k, len);
        proof {
            lemma_fold_overlap::<T>(self.data@, l as int, span as nat, len as nat);
            assert(l + len - span == r + 1 - span);
        }
        T::operation(self.st[k][l], self.st[k][r + 1 - span])
    }
}

/// `2^k`, given a bound `x` that it does not exceed.
fn pow2_usize(k: usize, x: usize) -> (r: usize)
    requires
        power(2, k as nat) <= x,
    ensures
        r == power(2, k as nat),
{
    let mut r: usize = 1;
    let mut i: usize = 0;
    while i < k
        invariant
            i <= k,
            r == power(2, i as nat),
            power(2, k as nat) <= x,
        decreases k - i,
    {
        proof {
            lemma_power_two_at_least(k as nat, (i + 1) as nat);
        }
        r = r * 2;
        i = i + 1;
    }
    r
}

} // verus!
