//! Byte comparison of suffixes, a linear-time check that a table is the
//! suffix array of a text, and a direct construction by insertion.
use vstd::prelude::*;
use crate::order::{
    Symbol,
    cmp_from, is_permutation, is_rank_of, is_sorted, is_suffix_table, lcp, lcp_from,
    lemma_cmp_antisym, lemma_cmp_at_lcp, lemma_locally_ordered_sorted,
    lemma_sorted_locally_ordered, lex_cmp, lex_le, locally_ordered, occurs, suffix,
};

verus! {

/// Length of the longest common prefix of `a` and `b`.
pub fn lcp_len<T: Symbol>(a: &[T], b: &[T]) -> (r: u32)
    requires
        a@.len() <= u32::MAX || b@.len() <= u32::MAX,
    ensures
        r == lcp(a@, b@),
        r <= a@.len(),
        r <= b@.len(),
{
    let mut k: usize = 0;
    proof {
        lemma_cmp_at_lcp(a@, b@, 0);
    }
    while k < a.len() && k < b.len() && a[k].same(&b[k])
        invariant
            k <= a@.len(),
            k <= b@.len(),
            a@.len() <= u32::MAX || b@.len() <= u32::MAX,
            lcp_from(a@, b@, k as nat) == lcp(a@, b@),
        decreases a@.len() - k,
    {
        k = k + 1;
    }
    k as u32
}

/// Three-way comparison of the suffixes of `text` at offsets `p` and `q`.
pub fn suffix_cmp<T: Symbol>(text: &[T], p: usize, q: usize) -> (r: i8)
    requires
        text@.len() <= u32::MAX,
        p <= text@.len(),
        q <= text@.len(),
    ensures
        r as int == lex_cmp(suffix(text@, p as int), suffix(text@, q as int)),
{
    let n = text.len();
    let a = &text[p..n];
    let b = &text[q..n];
    assert(a@ =~= suffix(text@, p as int));
    assert(b@ =~= suffix(text@, q as int));
    let k = lcp_len(a, b) as usize;
    proof {
        lemma_cmp_at_lcp(a@, b@, 0);
        assert(lcp_from(a@, b@, k as nat) == k);
        assert(lex_cmp(a@, b@) == cmp_from(a@, b@, k as nat));
        if k < a@.len() && k < b@.len() {
            lemma_cmp_at_lcp(a@, b@, (k + 1) as nat);
            assert(a@[k as int] != b@[k as int]);
        }
    }
    if k == a.len() {
        if k == b.len() {
            0
        } else {
            -1
        }
    } else if k == b.len() {
        1
    } else if a[k].below(&b[k]) {
        -1
    } else {
        1
    }
}

/// Whether `table` is the suffix array of `text`, in linear time: `table`
/// must list every offset once, and each pair of neighbouring ranks must be
/// in order by first symbol and, on equal first symbols, by the ranks of the
/// suffixes one symbol further on.
pub fn is_suffix_table_of<T: Symbol>(text: &[T], table: &[u32]) -> (r: bool)
    requires
        text@.len() <= u32::MAX,
    ensures
        r == is_suffix_table(text@, table@),
{
    let n = text.len();
    if table.len() != n {
        return false;
    }
    let mut seen: Vec<bool> = vec![false; n];
    let mut rank: Vec<u32> = vec![0u32; n];
    let mut i: usize = 0;
    while i < n
        invariant
            n == text@.len(),
            n <= u32::MAX,
            table@.len() == n,
            seen@.len() == n,
            rank@.len() == n,
            i <= n,
            forall|j: int| 0 <= j < i ==> #[trigger] table@[j] < n,
            forall|j: int, k: int| 0 <= j < k < i ==> #[trigger] table@[j] != #[trigger] table@[k],
            forall|p: int|
                0 <= p < n ==> (#[trigger] seen@[p] <==> exists|j: int|
                    0 <= j < i && #[trigger] table@[j] == p),
            forall|j: int| 0 <= j < i ==> #[trigger] rank@[table@[j] as int] == j,
        decreases n - i,
    {
        let p = table[i] as usize;
        if p >= n {
            assert(!(table@[i as int] < n));
            return false;
        }
        if seen[p] {
            proof {
                let j = choose|j: int| 0 <= j < i && #[trigger] table@[j] == p;
                assert(table@[j] == table@[i as int]);
            }
            return false;
        }
        seen.set(p, true);
        rank.set(p, i as u32);
        i = i + 1;
    }
    let mut p: usize = 0;
    while p < n
        invariant
            n == text@.len(),
            table@.len() == n,
            seen@.len() == n,
            p <= n,
            forall|q: int|
                0 <= q < n ==> (#[trigger] seen@[q] <==> exists|j: int|
                    0 <= j < n && #[trigger] table@[j] == q),
            forall|q: int| 0 <= q < p ==> #[trigger] occurs(table@, q),
        decreases n - p,
    {
        if !seen[p] {
            assert(!occurs(table@, p as int));
            return false;
        }
        assert(occurs(table@, p as int));
        p = p + 1;
    }
    let ghost t = text@;
    let ghost tab = table@;
    proof {
        assert(is_permutation(tab, n as nat));
        assert forall|q: int| 0 <= q < n implies #[trigger] rank@[q] < n && tab[rank@[q] as int]
            == q by {
            assert(occurs(tab, q));
            let j = choose|j: int| 0 <= j < n && #[trigger] tab[j] == q;
            assert(rank@[tab[j] as int] == j);
        }
        assert(is_rank_of(tab, rank@, n as int));
    }
    let mut i: usize = 1;
    while i < n
        invariant
            t == text@,
            tab == table@,
            n == t.len(),
            n <= u32::MAX,
            tab.len() == n,
            is_permutation(tab, n as nat),
            is_rank_of(tab, rank@, n as int),
            1 <= i,
            i <= n || n == 0,
            forall|k: int| 0 <= k < i - 1 ==> #[trigger] locally_ordered(t, tab, rank@, k),
        decreases n - i,
    {
        let a = table[i - 1] as usize;
        let b = table[i] as usize;
        let ok = if text[a].below(&text[b]) {
            true
        } else if text[a].same(&text[b]) {
            if a + 1 == n {
                true
            } else if b + 1 == n {
                false
            } else {
                rank[a + 1] < rank[b + 1]
            }
        } else {
            false
        };
        if !ok {
            proof {
                assert(!locally_ordered(t, tab, rank@, i - 1));
                if is_suffix_table(t, tab) {
                    lemma_sorted_locally_ordered(t, tab, rank@, i - 1);
                }
            }
            return false;
        }
        assert(locally_ordered(t, tab, rank@, i - 1));
        i = i + 1;
    }
    proof {
        lemma_locally_ordered_sorted(t, tab, rank@);
    }
    true
}

/// Builds the suffix array of `text` by inserting each offset after every
/// suffix that sorts no later than its own.
pub fn insertion_table<T: Symbol>(text: &[T]) -> (table: Vec<u32>)
    requires
        text@.len() <= u32::MAX,
    ensures
        is_suffix_table(text@, table@),
{
    let n = text.len();
    let mut table: Vec<u32> = Vec::new();
    let mut p: usize = 0;
    while p < n
        invariant
            n == text@.len(),
            n <= u32::MAX,
            p <= n,
            table@.len() == p,
            forall|i: int| 0 <= i < p ==> #[trigger] table@[i] < p,
            forall|i: int, j: int| 0 <= i < j < p ==> #[trigger] table@[i] != #[trigger] table@[j],
            forall|q: int| 0 <= q < p ==> #[trigger] occurs(table@, q),
            is_sorted(text@, table@),
        decreases n - p,
    {
        let mut k: usize = 0;
        while k < table.len() && suffix_cmp(text, table[k] as usize, p) <= 0
            invariant
                n == text@.len(),
                n <= u32::MAX,
                p < n,
                table@.len() == p,
                k <= p,
                forall|i: int| 0 <= i < p ==> #[trigger] table@[i] < p,
                forall|j: int|
                    0 <= j < k ==> lex_le(
                        #[trigger] suffix(text@, table@[j] as int),
                        suffix(text@, p as int),
                    ),
            decreases p - k,
        {
            k = k + 1;
        }
        let ghost old_table = table@;
        table.insert(k, p as u32);
        proof {
            assert(table@ == old_table.subrange(0, k as int) + seq![p as u32] + old_table.subrange(
                k as int,
                p as int,
            ));
            assert forall|i: int| 0 <= i < p + 1 implies #[trigger] table@[i] < p + 1 by {
                if i < k {
                    assert(table@[i] == old_table[i]);
                } else if i > k {
                    assert(table@[i] == old_table[i - 1]);
                }
            }
            assert forall|i: int, j: int| 0 <= i < j < p + 1 implies #[trigger] table@[i]
                != #[trigger] table@[j] by {
                if i < k {
                    assert(table@[i] == old_table[i]);
                } else if i > k {
                    assert(table@[i] == old_table[i - 1]);
                }
                if j < k {
                    assert(table@[j] == old_table[j]);
                } else if j > k {
                    assert(table@[j] == old_table[j - 1]);
                }
            }
            assert forall|q: int| 0 <= q < p + 1 implies #[trigger] occurs(table@, q) by {
                if q == p {
                    assert(table@[k as int] == q);
                } else {
                    assert(occurs(old_table, q));
                    let i = choose|i: int| 0 <= i < old_table.len() && #[trigger] old_table[i] == q;
                    if i < k {
                        assert(table@[i] == q);
                    } else {
                        assert(table@[i + 1] == q);
                    }
                }
            }
            assert forall|i: int| 0 <= i < table@.len() - 1 implies lex_le(
                #[trigger] suffix(text@, table@[i] as int),
                suffix(text@, table@[i + 1] as int),
            ) by {
                if i + 1 < k {
                    assert(table@[i] == old_table[i]);
                    assert(table@[i + 1] == old_table[i + 1]);
                    assert(lex_le(
                        suffix(text@, old_table[i] as int),
                        suffix(text@, old_table[i + 1] as int),
                    ));
                } else if i + 1 == k {
                    assert(table@[i] == old_table[i]);
                } else if i == k {
                    assert(table@[i + 1] == old_table[i]);
                    lemma_cmp_antisym(
                        suffix(text@, old_table[i] as int),
                        suffix(text@, p as int),
                        0,
                    );
                } else {
                    assert(table@[i] == old_table[i - 1]);
                    assert(table@[i + 1] == old_table[i]);
                    assert(lex_le(
                        suffix(text@, old_table[i - 1] as int),
                        suffix(text@, old_table[(i - 1) + 1] as int),
                    ));
                }
            }
        }
        p = p + 1;
    }
    table
}

} // verus!
