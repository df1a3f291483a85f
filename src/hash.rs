//! Polynomial rolling hashes of a byte string under several moduli at once.
use vstd::prelude::*;
use vstd::arithmetic::div_mod::{
    lemma_add_mod_noop, lemma_mod_add_multiples_vanish, lemma_mod_pos_bound, lemma_mod_twice, lemma_mul_mod_noop_left,
    lemma_mul_mod_noop_right, lemma_small_mod, lemma_sub_mod_noop, lemma_sub_mod_noop_right,
};

verus! {

/// The hash of the first `i` bytes of `s`: `s` read as digits in `base`,
/// reduced modulo `p` at every step.
pub open spec fn prefix_hash(s: Seq<u8>, i: nat, base: int, p: int) -> int
    decreases i,
{
    if i == 0 {
        0
    } else {
        (prefix_hash(s, (i - 1) as nat, base, p) * base + s[i - 1] as int) % p
    }
}

/// `base^i`, reduced modulo `p` at every step after the first.
pub open spec fn power_mod(base: int, i: nat, p: int) -> int
    decreases i,
{
    if i == 0 {
        1
    } else {
        (power_mod(base, (i - 1) as nat, p) * base) % p
    }
}

/// Shifting the prefix hash up to `l` by `k` places and taking it from the
/// prefix hash up to `l + k` leaves, modulo `p`, the hash of the `k` bytes
/// from `l` on.
pub proof fn lemma_window_hash(s: Seq<u8>, l: nat, len: nat, k: nat, base: int, p: int)
    requires
        base >= 0,
        p > 0,
        k <= len,
        l + len <= s.len(),
    ensures
        (prefix_hash(s, l + k, base, p) - prefix_hash(s, l, base, p) * power_mod(base, k, p)) % p
            == prefix_hash(s.subrange(l as int, (l + len) as int), k, base, p),
    decreases k,
{
    let sub = s.subrange(l as int, (l + len) as int);
    let c = prefix_hash(s, l, base, p);
    if k == 0 {
        assert(c - c * 1 == 0);
    } else {
        let j = (k - 1) as nat;
        lemma_window_hash(s, l, len, j, base, p);
        let a = prefix_hash(s, l + j, base, p);
        let m = power_mod(base, j, p);
        let x = s[(l + j) as int] as int;
        let y = a - c * m;
        let q = prefix_hash(sub, j, base, p);
        assert(sub[j as int] == s[(l + j) as int]);
        assert(((l + k) - 1) as nat == l + j);
        // The new prefix hash and power, up to multiples of `p`.
        let u = a * base + x;
        let v = m * base;
        assert(prefix_hash(s, l + k, base, p) == u % p);
        assert(power_mod(base, k, p) == v % p);
        lemma_mul_mod_noop_right(c, v, p);
        lemma_sub_mod_noop(u % p, c * (v % p), p);
        lemma_mod_twice(u, p);
        lemma_sub_mod_noop(u, c * v, p);
        assert((u % p - c * (v % p)) % p == (u - c * v) % p);
        assert(u - c * v == y * base + x) by (nonlinear_arith)
            requires
                u == a * base + x,
                v == m * base,
                y == a - c * m,
        ;
        lemma_mul_mod_noop_left(y, base, p);
        lemma_mul_mod_noop_left(q, base, p);
        assert(q % p == q) by {
            lemma_prefix_hash_bound(sub, j, base, p);
            lemma_small_mod(q as nat, p as nat);
        }
        lemma_add_mod_noop(y * base, x, p);
        lemma_add_mod_noop(q * base, x, p);
    }
}

/// A prefix hash past the empty prefix is a residue modulo `p`.
pub proof fn lemma_prefix_hash_bound(s: Seq<u8>, i: nat, base: int, p: int)
    requires
        base >= 0,
        p > 0,
    ensures
        0 <= prefix_hash(s, i, base, p),
        i > 0 ==> prefix_hash(s, i, base, p) < p,
    decreases i,
{
    if i > 0 {
        lemma_prefix_hash_bound(s, (i - 1) as nat, base, p);
        let prev = prefix_hash(s, (i - 1) as nat, base, p);
        assert(prev * base >= 0) by (nonlinear_arith)
            requires
                prev >= 0,
                base >= 0,
        ;
        lemma_mod_pos_bound(prev * base + s[i - 1] as int, p);
    }
}

/// The prefix hashes and powers of one string, for each modulus.
pub struct Hash {
    h: Vec<Vec<u32>>,
    pw: Vec<Vec<u32>>,
    p: Vec<u32>,
    way: usize,
    base: usize,
    text: Ghost<Seq<u8>>,
}

impl Hash {
    /// The tables hold the prefix hashes and the powers of the hashed string.
    pub closed spec fn wf(&self) -> bool {
        &&& self.way == self.p@.len()
        &&& self.h@.len() == self.way
        &&& self.pw@.len() == self.way
        &&& self.base <= u32::MAX
        &&& self.text@.len() < usize::MAX
        &&& forall|w: int| 0 <= w < self.way ==> #[trigger] self.p@[w] > 0
        &&& forall|w: int| 0 <= w < self.way ==> (#[trigger] self.h@[w])@.len() == self.text@.len() + 1
        &&& forall|w: int| 0 <= w < self.way ==> (#[trigger] self.pw@[w])@.len() == self.text@.len() + 1
        &&& forall|w: int, i: int|
            0 <= w < self.way && 0 <= i <= self.text@.len() ==> #[trigger] self.h@[w]@[i]
                == prefix_hash(self.text@, i as nat, self.base as int, self.p@[w] as int)
        &&& forall|w: int, i: int|
            0 <= w < self.way && 0 <= i <= self.text@.len() ==> #[trigger] self.pw@[w]@[i]
                == power_mod(self.base as int, i as nat, self.p@[w] as int)
    }

    /// The hashed string.
    pub closed spec fn text(&self) -> Seq<u8> {
        self.text@
    }

    /// The moduli.
    pub closed spec fn moduli(&self) -> Seq<u32> {
        self.p@
    }

    /// The base.
    pub closed spec fn base(&self) -> nat {
        self.base as nat
    }

    /// Hashes `s` in `base` modulo each of `p`.
    pub fn new(s: &Vec<u8>, base: usize, p: Vec<u32>) -> (r: Self)
        requires
            base <= u32::MAX,
            s@.len() < usize::MAX,
            forall|w: int| 0 <= w < p@.len() ==> #[trigger] p@[w] > 0,
        ensures
            r.wf(),
            r.text() == s@,
            r.moduli() == p@,
            r.base() == base,
    {
        let n = s.len();
        let way = p.len();
        let mut h: Vec<Vec<u32>> = Vec::new();
        let mut pw: Vec<Vec<u32>> = Vec::new();
        let mut w: usize = 0;
        while w < way
            invariant
                way == p@.len(),
                n == s@.len(),
                n < usize::MAX,
                base <= u32::MAX,
                forall|v: int| 0 <= v < p@.len() ==> #[trigger] p@[v] > 0,
                w <= way,
                h@.len() == w,
                pw@.len() == w,
                forall|v: int| 0 <= v < w ==> (#[trigger] h@[v])@.len() == n + 1,
                forall|v: int| 0 <= v < w ==> (#[trigger] pw@[v])@.len() == n + 1,
                forall|v: int, i: int|
                    0 <= v < w && 0 <= i <= n ==> #[trigger] h@[v]@[i] == prefix_hash(
                        s@,
                        i as nat,
                        base as int,
                        p@[v] as int,
                    ),
                forall|v: int, i: int|
                    0 <= v < w && 0 <= i <= n ==> #[trigger] pw@[v]@[i] == power_mod(
                        base as int,
                        i as nat,
                        p@[v] as int,
                    ),
            decreases way - w,
        {
            let m = p[w] as u64;
            let mut hrow: Vec<u32> = vec![0u32];
            let mut prow: Vec<u32> = vec![1u32];
            let mut i: usize = 1;
            while i <= n
                invariant
                    n == s@.len(),
                    n < usize::MAX,
                    base <= u32::MAX,
                    m > 0,
                    m <= u32::MAX,
                    1 <= i <= n + 1,
                    hrow@.len() == i,
                    prow@.len() == i,
                    forall|k: int| 0 <= k < i ==> #[trigger] hrow@[k] == prefix_hash(
                        s@,
                        k as nat,
                        base as int,
                        m as int,
                    ),
                    forall|k: int| 0 <= k < i ==> #[trigger] prow@[k] == power_mod(
                        base as int,
                        k as nat,
                        m as int,
                    ),
                decreases n + 1 - i,
            {
                let prev_p = prow[i - 1] as u64;
                let prev_h = hrow[i - 1] as u64;
                proof {
                    assert(prev_p * (base as u64) <= u32::MAX * u32::MAX) by (nonlinear_arith)
                        requires
                            prev_p <= u32::MAX,
                            base <= u32::MAX,
                    ;
                    assert(prev_h * (base as u64) <= u32::MAX * u32::MAX) by (nonlinear_arith)
                        requires
                            prev_h <= u32::MAX,
                            base <= u32::MAX,
                    ;
                    lemma_mod_pos_bound(prev_p * base as int, m as int);
                    lemma_mod_pos_bound(prev_h * base as int + s@[i - 1] as int, m as int);
                }
                let np = (prev_p * base as u64 % m) as u32;
                let nh = ((prev_h * base as u64 + s[i - 1] as u64) % m) as u32;
                assert(prev_p == power_mod(base as int, (i - 1) as nat, m as int));
                assert(prev_h == prefix_hash(s@, (i - 1) as nat, base as int, m as int));
                assert(np == (power_mod(base as int, (i - 1) as nat, m as int) * base) % (m as int));
                assert(nh == (prefix_hash(s@, (i - 1) as nat, base as int, m as int) * base
                    + s@[i - 1] as int) % (m as int));
                prow.push(np);
                hrow.push(nh);
                assert(prow@[i as int] == power_mod(base as int, i as nat, m as int));
                assert(hrow@[i as int] == prefix_hash(s@, i as nat, base as int, m as int));
                i = i + 1;
            }
            h.push(hrow);
            pw.push(prow);
            w = w + 1;
        }
        Hash { h, pw, p, way, base, text: Ghost(s@) }
    }

    /// The hash of the bytes `l..=r` (0-indexed, both included) under each
    /// modulus.
    pub fn get(&self, l: usize, r: usize) -> (ans: Vec<u32>)
        requires
            self.wf(),
            l <= r < self.text().len(),
        ensures
            ans@.len() == self.moduli().len(),
            forall|w: int|
                0 <= w < ans@.len() ==> #[trigger] ans@[w] == prefix_hash(
                    self.text().subrange(l as int, r + 1),
                    (r + 1 - l) as nat,
                    self.base() as int,
                    self.moduli()[w] as int,
                ),
    {
        let mut ans: Vec<u32> = Vec::new();
        let mut w: usize = 0;
        while w < self.way
            invariant
                self.wf(),
                l <= r < self.text().len(),
                w <= self.way,
                ans@.len() == w,
                forall|v: int|
                    0 <= v < w ==> #[trigger] ans@[v] == prefix_hash(
                        self.text().subrange(l as int, r + 1),
                        (r + 1 - l) as nat,
                        self.base() as int,
                        self.moduli()[v] as int,
                    ),
            decreases self.way - w,
        {
            let m = self.p[w] as u64;
            let hl = self.h[w][l] as u64;
            let pl = self.pw[w][r - l + 1] as u64;
            let hr = self.h[w][r + 1] as u64;
            proof {
                assert(hl * pl <= u32::MAX * u32::MAX) by (nonlinear_arith)
                    requires
                        hl <= u32::MAX,
                        pl <= u32::MAX,
                ;
                lemma_mod_pos_bound(hl * pl, m as int);
                lemma_prefix_hash_bound(self.text(), (r + 1) as nat, self.base as int, m as int);
            }
            let t = hl * pl % m;
            let v = ((hr + m - t) % m) as u32;
            proof {
                let len = (r + 1 - l) as nat;
                let w_ = hl * pl;
                lemma_mod_add_multiples_vanish(hr - t, m as int);
                lemma_sub_mod_noop_right(hr as int, w_ as int, m as int);
                lemma_window_hash(self.text(), l as nat, len, len, self.base as int, m as int);
                assert(l + len == r + 1);
            }
            ans.push(v);
            w = w + 1;
        }
        ans
    }
}

} // verus!
