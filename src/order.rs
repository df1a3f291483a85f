//! Lexicographic comparison of symbol strings (bytes, or `u32` names), as
//! the contracts of the suffix table and its construction speak of it.
use vstd::prelude::*;

verus! {

/// A symbol of a text. Symbols sort by their rank, and two symbols of the
/// same rank are the same symbol.
pub trait Symbol: Copy {
    /// The position of the symbol in the order.
    spec fn rank(self) -> int;

    /// Equal ranks mean equal symbols.
    proof fn lemma_rank_injective(a: Self, b: Self)
        ensures
            a.rank() == b.rank() ==> a == b;

    /// The two symbols are equal.
    fn same(&self, other: &Self) -> (r: bool)
        ensures
            r == (*self == *other);

    /// This symbol sorts before the other.
    fn below(&self, other: &Self) -> (r: bool)
        ensures
            r == (self.rank() < other.rank());
}

impl Symbol for u8 {
    open spec fn rank(self) -> int {
        self as int
    }

    proof fn lemma_rank_injective(a: u8, b: u8) {
    }

    fn same(&self, other: &u8) -> (r: bool) {
        *self == *other
    }

    fn below(&self, other: &u8) -> (r: bool) {
        *self < *other
    }
}

impl Symbol for u32 {
    open spec fn rank(self) -> int {
        self as int
    }

    proof fn lemma_rank_injective(a: u32, b: u32) {
    }

    fn same(&self, other: &u32) -> (r: bool) {
        *self == *other
    }

    fn below(&self, other: &u32) -> (r: bool) {
        *self < *other
    }
}

/// The suffix of `t` that starts at offset `p`; an offset past the end gives
/// the empty suffix.
pub open spec fn suffix<T: Symbol>(t: Seq<T>, p: int) -> Seq<T> {
    if p < t.len() {
        t.subrange(p, t.len() as int)
    } else {
        Seq::empty()
    }
}

/// Three-way comparison of `a` and `b` from index `i` on: negative when `a`
/// sorts first, zero when the remainders are equal, positive otherwise.
pub open spec fn cmp_from<T: Symbol>(a: Seq<T>, b: Seq<T>, i: nat) -> int
    decreases a.len() - i,
{
    if i >= a.len() && i >= b.len() {
        0
    } else if i >= a.len() {
        -1
    } else if i >= b.len() {
        1
    } else if a[i as int] == b[i as int] {
        cmp_from(a, b, i + 1)
    } else if a[i as int].rank() < b[i as int].rank() {
        -1
    } else {
        1
    }
}

/// Byte-lexicographic three-way comparison.
pub open spec fn lex_cmp<T: Symbol>(a: Seq<T>, b: Seq<T>) -> int {
    cmp_from(a, b, 0)
}

/// `a` sorts no later than `b`.
pub open spec fn lex_le<T: Symbol>(a: Seq<T>, b: Seq<T>) -> bool {
    lex_cmp(a, b) <= 0
}

/// Length of the common prefix of `a` and `b`, counted from index `i`.
pub open spec fn lcp_from<T: Symbol>(a: Seq<T>, b: Seq<T>, i: nat) -> nat
    decreases a.len() - i,
{
    if i < a.len() && i < b.len() && a[i as int] == b[i as int] {
        lcp_from(a, b, i + 1)
    } else {
        i
    }
}

/// Length of the longest common prefix of `a` and `b`.
pub open spec fn lcp<T: Symbol>(a: Seq<T>, b: Seq<T>) -> nat {
    lcp_from(a, b, 0)
}

/// `s` begins with `q`.
pub open spec fn starts_with<T: Symbol>(s: Seq<T>, q: Seq<T>) -> bool {
    q.len() <= s.len() && s.subrange(0, q.len() as int) == q
}

/// The first `m` symbols of `s` (all of `s` when it is shorter).
pub open spec fn truncate<T: Symbol>(s: Seq<T>, m: nat) -> Seq<T> {
    if m < s.len() {
        s.subrange(0, m as int)
    } else {
        s
    }
}

/// Comparison is antisymmetric.
pub proof fn lemma_cmp_antisym<T: Symbol>(a: Seq<T>, b: Seq<T>, i: nat)
    ensures
        cmp_from(a, b, i) == -cmp_from(b, a, i),
    decreases a.len() - i,
{
    if i < a.len() && i < b.len() {
        T::lemma_rank_injective(a[i as int], b[i as int]);
        if a[i as int] == b[i as int] {
            lemma_cmp_antisym(a, b, i + 1);
        }
    }
}

/// Comparison is zero exactly on equal remainders.
pub proof fn lemma_cmp_zero<T: Symbol>(a: Seq<T>, b: Seq<T>, i: nat)
    requires
        i <= a.len(),
        i <= b.len(),
    ensures
        cmp_from(a, b, i) == 0 <==> a.subrange(i as int, a.len() as int) == b.subrange(
            i as int,
            b.len() as int,
        ),
    decreases a.len() - i,
{
    let ra = a.subrange(i as int, a.len() as int);
    let rb = b.subrange(i as int, b.len() as int);
    if i < a.len() && i < b.len() && a[i as int] == b[i as int] {
        lemma_cmp_zero(a, b, i + 1);
        let sa = a.subrange((i + 1) as int, a.len() as int);
        let sb = b.subrange((i + 1) as int, b.len() as int);
        assert(ra == seq![a[i as int]] + sa);
        assert(rb == seq![b[i as int]] + sb);
        if ra == rb {
            assert(sa == ra.drop_first());
            assert(sb == rb.drop_first());
        }
    } else if i < a.len() && i < b.len() {
        assert(ra[0] != rb[0]);
    } else if i < a.len() || i < b.len() {
        assert(ra.len() != rb.len());
    } else {
        assert(ra =~= rb);
    }
}

/// Comparison is transitive, strictly where either step is strict.
pub proof fn lemma_cmp_trans<T: Symbol>(a: Seq<T>, b: Seq<T>, c: Seq<T>, i: nat)
    requires
        cmp_from(a, b, i) <= 0,
        cmp_from(b, c, i) <= 0,
    ensures
        cmp_from(a, c, i) <= 0,
        cmp_from(a, b, i) < 0 || cmp_from(b, c, i) < 0 ==> cmp_from(a, c, i) < 0,
    decreases a.len() - i,
{
    if i < a.len() && i < b.len() && i < c.len() {
        T::lemma_rank_injective(a[i as int], b[i as int]);
        T::lemma_rank_injective(b[i as int], c[i as int]);
        T::lemma_rank_injective(a[i as int], c[i as int]);
        if a[i as int] == b[i as int] && b[i as int] == c[i as int] {
            lemma_cmp_trans(a, b, c, i + 1);
        }
    }
}

/// The comparison is decided where the common prefix ends.
pub proof fn lemma_cmp_at_lcp<T: Symbol>(a: Seq<T>, b: Seq<T>, i: nat)
    ensures
        i <= lcp_from(a, b, i),
        lcp_from(a, b, i) <= a.len() || lcp_from(a, b, i) == i,
        lcp_from(a, b, i) <= b.len() || lcp_from(a, b, i) == i,
        cmp_from(a, b, i) == cmp_from(a, b, lcp_from(a, b, i)),
        lcp_from(a, b, lcp_from(a, b, i)) == lcp_from(a, b, i),
    decreases a.len() - i,
{
    if i < a.len() && i < b.len() && a[i as int] == b[i as int] {
        lemma_cmp_at_lcp(a, b, i + 1);
    }
}

/// Cutting both sides to the same length keeps their order.
pub proof fn lemma_truncate_monotone<T: Symbol>(a: Seq<T>, b: Seq<T>, m: nat, i: nat)
    requires
        cmp_from(a, b, i) <= 0,
        i <= m,
    ensures
        cmp_from(truncate(a, m), truncate(b, m), i) <= 0,
    decreases a.len() - i,
{
    let ta = truncate(a, m);
    let tb = truncate(b, m);
    if i < m && i < a.len() && i < b.len() && a[i as int] == b[i as int] {
        lemma_truncate_monotone(a, b, m, i + 1);
    } else if i >= m {
        assert(ta.len() <= i && tb.len() <= i);
    }
}

/// A truncation equals `q` exactly when `s` starts with `q`.
pub proof fn lemma_truncate_starts_with<T: Symbol>(s: Seq<T>, q: Seq<T>)
    ensures
        (lex_cmp(truncate(s, q.len()), q) == 0) <==> starts_with(s, q),
{
    lemma_cmp_zero(truncate(s, q.len()), q, 0);
    assert(truncate(s, q.len()).subrange(0, truncate(s, q.len()).len() as int) =~= truncate(
        s,
        q.len(),
    ));
    assert(q.subrange(0, q.len() as int) =~= q);
    if q.len() <= s.len() {
        assert(truncate(s, q.len()) =~= s.subrange(0, q.len() as int));
    }
}

/// Suffixes at two different offsets differ.
pub proof fn lemma_suffixes_distinct<T: Symbol>(t: Seq<T>, p: int, q: int)
    requires
        0 <= p < t.len(),
        0 <= q < t.len(),
        p != q,
    ensures
        lex_cmp(suffix(t, p), suffix(t, q)) != 0,
{
    lemma_cmp_zero(suffix(t, p), suffix(t, q), 0);
    assert(suffix(t, p).subrange(0, suffix(t, p).len() as int) =~= suffix(t, p));
    assert(suffix(t, q).subrange(0, suffix(t, q).len() as int) =~= suffix(t, q));
}

/// `tab` lists every offset of a text of length `n` exactly once.
pub open spec fn is_permutation(tab: Seq<u32>, n: nat) -> bool {
    &&& tab.len() == n
    &&& forall|i: int| 0 <= i < n ==> #[trigger] tab[i] < n
    &&& forall|i: int, j: int| 0 <= i < j < n ==> #[trigger] tab[i] != #[trigger] tab[j]
    &&& forall|p: int| 0 <= p < n ==> #[trigger] occurs(tab, p)
}

/// Offset `p` is listed somewhere in `tab`.
pub open spec fn occurs(tab: Seq<u32>, p: int) -> bool {
    exists|i: int| 0 <= i < tab.len() && #[trigger] tab[i] == p
}

/// Each suffix listed in `tab` sorts no later than the next one.
pub open spec fn is_sorted<T: Symbol>(t: Seq<T>, tab: Seq<u32>) -> bool {
    forall|i: int|
        0 <= i < tab.len() - 1 ==> lex_le(
            #[trigger] suffix(t, tab[i] as int),
            suffix(t, tab[i + 1] as int),
        )
}

/// `tab` is the suffix array of `t`: all offsets, in sorted suffix order.
pub open spec fn is_suffix_table<T: Symbol>(t: Seq<T>, tab: Seq<u32>) -> bool {
    is_permutation(tab, t.len()) && is_sorted(t, tab)
}

/// The rank of the suffix at `x`, with the empty suffix at `n` ranked below
/// every other.
pub open spec fn ext_rank(rank: Seq<u32>, n: int, x: int) -> int {
    if x >= n {
        -1
    } else {
        rank[x] as int
    }
}

/// `rank` inverts `tab`: the offset `p` is listed at rank `rank[p]`.
pub open spec fn is_rank_of(tab: Seq<u32>, rank: Seq<u32>, n: int) -> bool {
    &&& rank.len() == n
    &&& forall|p: int| 0 <= p < n ==> #[trigger] rank[p] < n && tab[rank[p] as int] == p
    &&& forall|i: int| 0 <= i < n ==> #[trigger] rank[tab[i] as int] == i
}

/// The ranks `i` and `i + 1` are in order by their first symbol, and on
/// equal first symbols by the ranks of the suffixes one symbol further on.
pub open spec fn locally_ordered<T: Symbol>(t: Seq<T>, tab: Seq<u32>, rank: Seq<u32>, i: int) -> bool {
    let n = t.len() as int;
    let a = tab[i] as int;
    let b = tab[i + 1] as int;
    t[a].rank() < t[b].rank() || (t[a] == t[b] && ext_rank(rank, n, a + 1) < ext_rank(
        rank,
        n,
        b + 1,
    ))
}

/// Comparing two suffixes from index `k + 1` on is comparing the suffixes one
/// symbol further on from index `k` on.
pub proof fn lemma_cmp_shift<T: Symbol>(t: Seq<T>, p: int, q: int, k: nat)
    requires
        0 <= p < t.len(),
        0 <= q < t.len(),
    ensures
        cmp_from(suffix(t, p), suffix(t, q), k + 1) == cmp_from(suffix(t, p + 1), suffix(t, q + 1), k),
    decreases t.len() - p - k,
{
    let sp = suffix(t, p);
    let sq = suffix(t, q);
    let sp1 = suffix(t, p + 1);
    let sq1 = suffix(t, q + 1);
    assert(sp.len() == t.len() - p);
    assert(sp1.len() == t.len() - p - 1);
    assert(sq.len() == t.len() - q);
    assert(sq1.len() == t.len() - q - 1);
    if k + 1 < sp.len() && k + 1 < sq.len() {
        assert(sp[(k + 1) as int] == sp1[k as int]);
        assert(sq[(k + 1) as int] == sq1[k as int]);
        if sp[(k + 1) as int] == sq[(k + 1) as int] {
            lemma_cmp_shift(t, p, q, k + 1);
        }
    }
}

/// With every pair of neighbouring ranks locally ordered, first symbols
/// never decrease along the table.
proof fn lemma_first_symbols_sorted<T: Symbol>(t: Seq<T>, tab: Seq<u32>, rank: Seq<u32>, i: int, j: int)
    requires
        is_permutation(tab, t.len()),
        forall|k: int| 0 <= k < t.len() - 1 ==> #[trigger] locally_ordered(t, tab, rank, k),
        0 <= i <= j < t.len(),
    ensures
        t[tab[i] as int].rank() <= t[tab[j] as int].rank(),
    decreases j - i,
{
    if i < j {
        lemma_first_symbols_sorted(t, tab, rank, i, j - 1);
        assert(locally_ordered(t, tab, rank, j - 1));
        assert(tab[j - 1 + 1] == tab[j]);
    }
}

/// Between two ranks whose suffixes start with the same symbol, the suffixes
/// one symbol further on are ranked in the same order.
proof fn lemma_next_ranks_sorted<T: Symbol>(t: Seq<T>, tab: Seq<u32>, rank: Seq<u32>, i: int, j: int)
    requires
        is_permutation(tab, t.len()),
        forall|k: int| 0 <= k < t.len() - 1 ==> #[trigger] locally_ordered(t, tab, rank, k),
        0 <= i < j < t.len(),
        t[tab[i] as int] == t[tab[j] as int],
    ensures
        ext_rank(rank, t.len() as int, tab[i] + 1) < ext_rank(rank, t.len() as int, tab[j] + 1),
    decreases j - i,
{
    lemma_first_symbols_sorted(t, tab, rank, i, j - 1);
    assert(locally_ordered(t, tab, rank, j - 1));
    assert(tab[j - 1 + 1] == tab[j]);
    T::lemma_rank_injective(t[tab[j - 1] as int], t[tab[j] as int]);
    T::lemma_rank_injective(t[tab[i] as int], t[tab[j - 1] as int]);
    if i < j - 1 {
        lemma_next_ranks_sorted(t, tab, rank, i, j - 1);
    }
}

/// Where all neighbouring ranks are locally ordered, a lower rank holds a
/// smaller suffix.
proof fn lemma_rank_order<T: Symbol>(t: Seq<T>, tab: Seq<u32>, rank: Seq<u32>, p: int, q: int)
    requires
        is_permutation(tab, t.len()),
        is_rank_of(tab, rank, t.len() as int),
        forall|k: int| 0 <= k < t.len() - 1 ==> #[trigger] locally_ordered(t, tab, rank, k),
        0 <= p < t.len(),
        0 <= q < t.len(),
        rank[p] < rank[q],
    ensures
        lex_cmp(suffix(t, p), suffix(t, q)) < 0,
    decreases 2 * t.len() - p - q,
{
    let n = t.len() as int;
    let i = rank[p] as int;
    let j = rank[q] as int;
    lemma_first_symbols_sorted(t, tab, rank, i, j);
    let sp = suffix(t, p);
    let sq = suffix(t, q);
    assert(sp[0] == t[p] && sq[0] == t[q]);
    T::lemma_rank_injective(t[p], t[q]);
    if t[p] == t[q] {
        lemma_next_ranks_sorted(t, tab, rank, i, j);
        lemma_cmp_shift(t, p, q, 0);
        if p + 1 < n {
            lemma_rank_order(t, tab, rank, p + 1, q + 1);
        } else {
            assert(suffix(t, p + 1).len() == 0);
            assert(suffix(t, q + 1).len() > 0);
        }
    }
}

/// A table that lists every offset once, with every pair of neighbouring
/// ranks locally ordered, is the suffix array.
pub proof fn lemma_locally_ordered_sorted<T: Symbol>(t: Seq<T>, tab: Seq<u32>, rank: Seq<u32>)
    requires
        is_permutation(tab, t.len()),
        is_rank_of(tab, rank, t.len() as int),
        forall|k: int| 0 <= k < t.len() - 1 ==> #[trigger] locally_ordered(t, tab, rank, k),
    ensures
        is_suffix_table(t, tab),
{
    assert forall|i: int| 0 <= i < tab.len() - 1 implies lex_le(
        #[trigger] suffix(t, tab[i] as int),
        suffix(t, tab[i + 1] as int),
    ) by {
        lemma_rank_order(t, tab, rank, tab[i] as int, tab[i + 1] as int);
    }
}

/// In a suffix array every pair of neighbouring ranks is locally ordered.
pub proof fn lemma_sorted_locally_ordered<T: Symbol>(t: Seq<T>, tab: Seq<u32>, rank: Seq<u32>, i: int)
    requires
        is_suffix_table(t, tab),
        is_rank_of(tab, rank, t.len() as int),
        0 <= i < t.len() - 1,
    ensures
        locally_ordered(t, tab, rank, i),
{
    let n = t.len() as int;
    let a = tab[i] as int;
    let b = tab[i + 1] as int;
    lemma_sorted_strict(t, tab, i, i + 1);
    let sa = suffix(t, a);
    let sb = suffix(t, b);
    assert(sa[0] == t[a] && sb[0] == t[b]);
    if t[a] == t[b] {
        lemma_cmp_shift(t, a, b, 0);
        if b + 1 >= n {
            assert(suffix(t, b + 1).len() == 0);
        }
        if a + 1 < n && b + 1 < n {
            let ra = rank[a + 1] as int;
            let rb = rank[b + 1] as int;
            if ra > rb {
                lemma_sorted_strict(t, tab, rb, ra);
                lemma_cmp_antisym(suffix(t, b + 1), suffix(t, a + 1), 0);
            } else if ra == rb {
                lemma_cmp_zero(suffix(t, a + 1), suffix(t, b + 1), 0);
                assert(suffix(t, a + 1).subrange(0, suffix(t, a + 1).len() as int) =~= suffix(t, a + 1));
            }
        }
    }
}

/// Texts whose symbols have the same ranks compare alike.
pub proof fn lemma_cmp_same_ranks<T: Symbol, U: Symbol>(a: Seq<T>, b: Seq<T>, c: Seq<U>, d: Seq<U>, i: nat)
    requires
        a.len() == c.len(),
        b.len() == d.len(),
        forall|k: int| 0 <= k < a.len() ==> (#[trigger] a[k]).rank() == c[k].rank(),
        forall|k: int| 0 <= k < b.len() ==> (#[trigger] b[k]).rank() == d[k].rank(),
    ensures
        cmp_from(a, b, i) == cmp_from(c, d, i),
    decreases a.len() - i,
{
    if i < a.len() && i < b.len() {
        T::lemma_rank_injective(a[i as int], b[i as int]);
        U::lemma_rank_injective(c[i as int], d[i as int]);
        if a[i as int] == b[i as int] {
            lemma_cmp_same_ranks(a, b, c, d, i + 1);
        }
    }
}

/// A suffix array of one text is the suffix array of every text whose
/// symbols have the same ranks.
pub proof fn lemma_suffix_table_same_ranks<T: Symbol, U: Symbol>(t: Seq<T>, w: Seq<U>, tab: Seq<u32>)
    requires
        t.len() == w.len(),
        forall|k: int| 0 <= k < t.len() ==> (#[trigger] t[k]).rank() == w[k].rank(),
        is_suffix_table(w, tab),
    ensures
        is_suffix_table(t, tab),
{
    assert forall|i: int| 0 <= i < tab.len() - 1 implies lex_le(
        #[trigger] suffix(t, tab[i] as int),
        suffix(t, tab[i + 1] as int),
    ) by {
        assert(lex_le(suffix(w, tab[i] as int), suffix(w, tab[i + 1] as int)));
        let p = tab[i] as int;
        let q = tab[i + 1] as int;
        assert forall|k: int| 0 <= k < suffix(t, p).len() implies (#[trigger] suffix(t, p)[k]).rank()
            == suffix(w, p)[k].rank() by {
            assert(suffix(t, p)[k] == t[p + k]);
        }
        assert forall|k: int| 0 <= k < suffix(t, q).len() implies (#[trigger] suffix(t, q)[k]).rank()
            == suffix(w, q)[k].rank() by {
            assert(suffix(t, q)[k] == t[q + k]);
        }
        lemma_cmp_same_ranks(suffix(t, p), suffix(t, q), suffix(w, p), suffix(w, q), 0);
    }
}

/// In a suffix array the listed suffixes strictly increase.
pub proof fn lemma_sorted_strict<T: Symbol>(t: Seq<T>, tab: Seq<u32>, i: int, j: int)
    requires
        is_suffix_table(t, tab),
        0 <= i < j < tab.len(),
    ensures
        lex_cmp(suffix(t, tab[i] as int), suffix(t, tab[j] as int)) < 0,
    decreases j - i,
{
    let n = tab.len() as int;
    assert(lex_le(suffix(t, tab[j - 1] as int), suffix(t, tab[j - 1 + 1] as int)));
    assert(tab[j - 1] != tab[j]);
    lemma_suffixes_distinct(t, tab[j - 1] as int, tab[j] as int);
    if i < j - 1 {
        lemma_sorted_strict(t, tab, i, j - 1);
        lemma_cmp_trans(
            suffix(t, tab[i] as int),
            suffix(t, tab[j - 1] as int),
            suffix(t, tab[j] as int),
            0,
        );
    }
}

/// In a suffix array, an earlier rank never holds a later suffix.
pub proof fn lemma_sorted_le<T: Symbol>(t: Seq<T>, tab: Seq<u32>, i: int, j: int)
    requires
        is_suffix_table(t, tab),
        0 <= i <= j < tab.len(),
    ensures
        lex_le(suffix(t, tab[i] as int), suffix(t, tab[j] as int)),
{
    if i < j {
        lemma_sorted_strict(t, tab, i, j);
    } else {
        lemma_cmp_zero(suffix(t, tab[i] as int), suffix(t, tab[i] as int), 0);
    }
}

/// Two suffix arrays of one text agree on their first `i` ranks.
proof fn lemma_unique_prefix<T: Symbol>(t: Seq<T>, a: Seq<u32>, b: Seq<u32>, i: int)
    requires
        is_suffix_table(t, a),
        is_suffix_table(t, b),
        0 <= i <= t.len(),
    ensures
        forall|k: int| 0 <= k < i ==> a[k] == b[k],
    decreases i,
{
    if i > 0 {
        let n = t.len() as int;
        let j = i - 1;
        lemma_unique_prefix(t, a, b, j);
        if a[j] != b[j] {
            let aj = a[j] as int;
            let bj = b[j] as int;
            assert(occurs(b, aj));
            assert(occurs(a, bj));
            let k = choose|k: int| 0 <= k < n && #[trigger] b[k] == aj;
            let m = choose|m: int| 0 <= m < n && #[trigger] a[m] == bj;
            if k < j {
                assert(a[k] == b[k]);
                assert(a[k] != a[j]);
            }
            if m < j {
                assert(a[m] == b[m]);
                assert(b[m] != b[j]);
            }
            assert(k > j && m > j);
            lemma_sorted_strict(t, b, j, k);
            lemma_sorted_strict(t, a, j, m);
            lemma_cmp_trans(suffix(t, bj), suffix(t, aj), suffix(t, bj), 0);
            lemma_cmp_zero(suffix(t, bj), suffix(t, bj), 0);
        }
    }
}

/// A text has one suffix array only.
pub proof fn lemma_suffix_table_unique<T: Symbol>(t: Seq<T>, a: Seq<u32>, b: Seq<u32>)
    requires
        is_suffix_table(t, a),
        is_suffix_table(t, b),
    ensures
        a == b,
{
    lemma_unique_prefix(t, a, b, t.len() as int);
    assert(a =~= b);
}

} // verus!
