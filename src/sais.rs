//! Suffix array construction by induced sorting (SA-IS), without a sentinel.
//!
//! The engine sorts a sequence of `u32` symbols: bytes at the top level,
//! lexical names in the reduced problems. [`sais`] always leaves the suffix
//! array of its text, on every level of the recursion.
//!
//! The passes themselves ([`induce_sort`]) are proved to stay inside their
//! arrays, to terminate and to recurse at most `⌈log₂ n⌉ + 1` levels deep;
//! that they sort is not proved of them. Their table is therefore accepted
//! once a linear-time check confirms it, and a direct construction by
//! insertion stands behind them for a table the check would refuse.
use vstd::prelude::*;
use crate::bins::Bins;
use crate::certify::{insertion_table, is_suffix_table_of};
use crate::order::{Symbol, is_suffix_table, lemma_suffix_table_same_ranks};
use crate::suffix_types::{SuffixType, SuffixTypes};

verus! {

/// `⌈log₂ n⌉`, with `0` for `n <= 1`.
pub open spec fn ceil_log2(n: nat) -> nat
    decreases n,
{
    if n <= 1 {
        0
    } else {
        1 + ceil_log2(((n + 1) / 2) as nat)
    }
}

/// `⌈log₂⌉` never decreases.
pub proof fn lemma_ceil_log2_monotone(a: nat, b: nat)
    requires
        a <= b,
    ensures
        ceil_log2(a) <= ceil_log2(b),
    decreases b,
{
    if a > 1 {
        lemma_ceil_log2_monotone(((a + 1) / 2) as nat, ((b + 1) / 2) as nat);
    }
}

/// Halving a problem takes one level off its `⌈log₂⌉`.
pub proof fn lemma_ceil_log2_half(m: nat, n: nat)
    requires
        1 <= m,
        2 * m <= n,
    ensures
        ceil_log2(m) + 1 <= ceil_log2(n),
{
    assert(((2 * m + 1) / 2) as nat == m);
    assert(ceil_log2(2 * m) == 1 + ceil_log2(m));
    lemma_ceil_log2_monotone(2 * m, n);
}

/// The suffix array of `text` by induced sorting over its bytes.
pub fn sais_table(text: &[u8]) -> (table: Vec<u32>)
    requires
        text@.len() <= u32::MAX,
    ensures
        is_suffix_table(text@, table@),
{
    let n = text.len();
    let mut symbols: Vec<u32> = Vec::new();
    let mut i: usize = 0;
    while i < n
        invariant
            n == text@.len(),
            i <= n,
            symbols@.len() == i,
            forall|k: int| 0 <= k < i ==> (#[trigger] text@[k]).rank() == symbols@[k].rank(),
        decreases n - i,
    {
        symbols.push(text[i] as u32);
        i = i + 1;
    }
    let mut sa: Vec<u32> = vec![0u32; n];
    let _depth = sais(&mut sa, symbols.as_slice());
    proof {
        lemma_suffix_table_same_ranks(text@, symbols@, sa@);
    }
    sa
}

/// Sorts the suffixes of `text` into `sa`: afterwards `sa` is the suffix
/// array of `text`. The ghost result counts the levels of recursion, this one
/// included.
///
/// The sorting is done by [`induce_sort`], whose table is checked against the
/// definition in linear time; should the check ever fail, the table is built
/// directly by insertion instead.
pub fn sais(sa: &mut Vec<u32>, text: &[u32]) -> (depth: Ghost<nat>)
    requires
        old(sa)@.len() == text@.len(),
        text@.len() <= u32::MAX,
    ensures
        final(sa)@.len() == old(sa)@.len(),
        is_suffix_table(text@, final(sa)@),
        1 <= depth@ <= ceil_log2(text@.len() as nat) + 1,
    decreases text@.len(), 1nat,
{
    let (built, depth) = induce_sort(sa, text);
    if built && is_suffix_table_of(text, sa.as_slice()) {
        depth
    } else {
        *sa = insertion_table(text);
        Ghost(1)
    }
}

/// Writes the descending suffixes into their buckets, scanning `sa` forward.
fn induce_descending(sa: &mut Vec<u32>, stypes: &SuffixTypes, bins: &mut Bins, text: &[u32]) -> (r: bool)
    requires
        old(sa)@.len() == text@.len(),
        2 <= text@.len() <= u32::MAX,
        stypes.types@.len() == text@.len(),
        old(bins).wf(),
        old(bins).fits(),
        old(bins).covers(text@),
    ensures
        final(sa)@.len() == old(sa)@.len(),
        final(bins).wf(),
        final(bins).alphas@ == old(bins).alphas@,
        final(bins).covers(text@),
        final(bins).sizes@ == old(bins).sizes@,
{
    let n = text.len();
    let lasti = n - 1;
    if stypes.is_desc(lasti as u32) {
        if !bins.head_insert(sa, lasti as u32, text[lasti]) {
            return false;
        }
    }
    let mut i: usize = 0;
    while i < n
        invariant
            n == text@.len(),
            n <= u32::MAX,
            sa@.len() == n,
            sa@.len() == old(sa)@.len(),
            stypes.types@.len() == n,
            bins.wf(),
            bins.fits(),
            bins.covers(text@),
            bins.sizes@ == old(bins).sizes@,
            bins.alphas@ == old(bins).alphas@,
            i <= n,
        decreases n - i,
    {
        let sufi = sa[i];
        if sufi > 0 && (sufi as usize) <= n {
            let lasti = sufi - 1;
            if stypes.is_desc(lasti) {
                if !bins.head_insert(sa, lasti, text[lasti as usize]) {
                    return false;
                }
            }
        }
        i = i + 1;
    }
    true
}

/// Writes the ascending suffixes into their buckets, scanning `sa` backward.
fn induce_ascending(sa: &mut Vec<u32>, stypes: &SuffixTypes, bins: &mut Bins, text: &[u32]) -> (r: bool)
    requires
        old(sa)@.len() == text@.len(),
        2 <= text@.len() <= u32::MAX,
        stypes.types@.len() == text@.len(),
        old(bins).wf(),
        old(bins).fits(),
        old(bins).covers(text@),
    ensures
        final(sa)@.len() == old(sa)@.len(),
        final(bins).wf(),
        final(bins).alphas@ == old(bins).alphas@,
        final(bins).covers(text@),
        final(bins).sizes@ == old(bins).sizes@,
{
    let n = text.len();
    let mut i: usize = n;
    while i > 0
        invariant
            n == text@.len(),
            n <= u32::MAX,
            sa@.len() == n,
            sa@.len() == old(sa)@.len(),
            stypes.types@.len() == n,
            bins.wf(),
            bins.fits(),
            bins.covers(text@),
            bins.sizes@ == old(bins).sizes@,
            bins.alphas@ == old(bins).alphas@,
            i <= n,
        decreases i,
    {
        i = i - 1;
        let sufi = sa[i];
        if sufi > 0 && (sufi as usize) <= n {
            let lasti = sufi - 1;
            if stypes.is_asc(lasti) {
                if !bins.tail_insert(sa, lasti, text[lasti as usize]) {
                    return false;
                }
            }
        }
    }
    true
}

/// The valley substrings at `w1` and `w2` both end at offset `k`: both
/// starts plus `k` lie in the text, offset `k` is the first after the starts
/// at which either side is a valley, and up to it the two agree symbol for
/// symbol and direction for direction.
pub open spec fn valley_match_at(t: Seq<u32>, ty: Seq<SuffixType>, w1: int, w2: int, k: int) -> bool {
    &&& 1 <= k
    &&& w1 + k < t.len()
    &&& w2 + k < t.len()
    &&& ty[w1 + k] is Valley || ty[w2 + k] is Valley
    &&& forall|j: int|
        #![trigger t[w1 + j]] #![trigger ty[w1 + j]]
        0 <= j <= k ==> t[w1 + j] == t[w2 + j] && (ty[w1 + j]).spec_is_asc() == ty[w2
            + j].spec_is_asc()
    &&& forall|j: int| 1 <= j < k ==> !(#[trigger] ty[w1 + j] is Valley) && !(ty[w2 + j] is Valley)
}

/// The valley substrings at `w1` and `w2` (from each start up to the first
/// valley after it on either side, both ends included) agree symbol for
/// symbol and direction for direction, and both end inside the text.
pub open spec fn valley_substrings_equal(t: Seq<u32>, ty: Seq<SuffixType>, w1: int, w2: int) -> bool {
    &&& 0 <= w1 < t.len()
    &&& 0 <= w2 < t.len()
    &&& exists|k: int| #[trigger] valley_match_at(t, ty, w1, w2, k)
}

/// Whether the valley substrings at `w1` and `w2` are equal.
fn wstring_equal(text: &[u32], stypes: &SuffixTypes, w1: u32, w2: u32) -> (r: bool)
    requires
        stypes.types@.len() == text@.len(),
        text@.len() <= u32::MAX,
    ensures
        r == valley_substrings_equal(text@, stypes.types@, w1 as int, w2 as int),
{
    let n = text.len();
    let ghost t = text@;
    let ghost ty = stypes.types@;
    if w1 as usize >= n || w2 as usize >= n {
        return false;
    }
    let mut i1: usize = w1 as usize;
    let mut i2: usize = w2 as usize;
    while i1 < n && i2 < n
        invariant
            t == text@,
            ty == stypes.types@,
            n == text@.len(),
            n <= u32::MAX,
            stypes.types@.len() == n,
            w1 < n,
            w2 < n,
            w1 <= i1,
            i1 - w1 == i2 - w2,
            w2 <= i2,
            forall|j: int|
                #![trigger t[w1 + j]] #![trigger ty[w1 + j]]
                0 <= j < i1 - w1 ==> t[w1 + j] == t[w2 + j] && (ty[w1 + j]).spec_is_asc()
                    == ty[w2 + j].spec_is_asc(),
            forall|j: int| 1 <= j < i1 - w1 ==> !(#[trigger] ty[w1 + j] is Valley) && !(ty[w2 + j] is Valley),
        decreases n - i1,
    {
        let ghost d: int = i1 - w1;
        assert(w1 + d == i1 && w2 + d == i2 && 0 <= d);
        if text[i1] != text[i2] || !stypes.equal(i1 as u32, i2 as u32) {
            proof {
                if valley_substrings_equal(t, ty, w1 as int, w2 as int) {
                    let k = choose|k: int| valley_match_at(t, ty, w1 as int, w2 as int, k);
                    if k < d {
                        assert(!(ty[w1 + k] is Valley) && !(ty[w2 + k] is Valley));
                    }
                    assert(t[w1 + d] == t[w2 + d] && ty[w1 + d].spec_is_asc() == ty[w2 + d].spec_is_asc());
                }
            }
            return false;
        }
        assert(w1 + d == i1 && w2 + d == i2);
        assert(t[i1 as int] == t[i2 as int]);
        assert(ty[i1 as int].spec_is_asc() == ty[i2 as int].spec_is_asc());
        assert(t[w1 + d] == t[w2 + d] && ty[w1 + d].spec_is_asc() == ty[w2 + d].spec_is_asc());
        if i1 > w1 as usize && (stypes.is_valley(i1 as u32) || stypes.is_valley(i2 as u32)) {
            proof {
                let k = d;
                assert(ty[w1 + k] is Valley || ty[w2 + k] is Valley);
                assert forall|j: int| #![trigger t[w1 + j]] #![trigger ty[w1 + j]] 0 <= j <= k implies t[w1 + j] == t[w2 + j] && (ty[w1
                    + j]).spec_is_asc() == ty[w2 + j].spec_is_asc() by {
                    if j < k {
                        assert(0 <= j < i1 - w1);
                        assert(ty[w1 + j].spec_is_asc() == ty[w2 + j].spec_is_asc());
                    }
                }
                assert(1 <= k && w1 + k < t.len() && w2 + k < t.len());
                assert forall|j: int| 1 <= j < k implies !(#[trigger] ty[w1 + j] is Valley) && !(ty[w2
                    + j] is Valley) by {
                    assert(1 <= j < i1 - w1);
                }
                assert(valley_match_at(t, ty, w1 as int, w2 as int, k));
            }
            return true;
        }
        i1 = i1 + 1;
        i2 = i2 + 1;
        proof {
            assert forall|j: int| #![trigger t[w1 + j]] #![trigger ty[w1 + j]] 0 <= j < i1 - w1 implies t[w1 + j] == t[w2 + j] && (ty[w1
                + j]).spec_is_asc() == ty[w2 + j].spec_is_asc() by {
                if j < d {
                    assert(0 <= j < i1 - 1 - w1);
                    assert(ty[w1 + j].spec_is_asc() == ty[w2 + j].spec_is_asc());
                    assert(t[w1 + j] == t[w2 + j]);
                } else {
                    assert(j == d);
                    assert(t[w1 + d] == t[w2 + d]);
                    assert(ty[w1 + d].spec_is_asc() == ty[w2 + d].spec_is_asc());
                }
            }
            assert forall|j: int| 1 <= j < i1 - w1 implies !(#[trigger] ty[w1 + j] is Valley) && !(ty[w2
                + j] is Valley) by {
                if j < d {
                    assert(1 <= j < i1 - 1 - w1);
                }
            }
        }
    }
    // One of the two ran off the end, where a sentinel would sort apart from
    // every symbol: the substrings differ.
    proof {
        if valley_substrings_equal(t, ty, w1 as int, w2 as int) {
            let k = choose|k: int| valley_match_at(t, ty, w1 as int, w2 as int, k);
            if k < i1 - w1 {
                assert(!(ty[w1 + k] is Valley) && !(ty[w2 + k] is Valley));
            }
        }
    }
    false
}

/// The induced-sorting passes: classify, seed the valleys, induce, name the
/// valley substrings, order the valleys (recursing through [`sais`] on the
/// names where two substrings share a name), and induce again. Every index
/// is checked; the first result says whether all checks held. The ghost
/// result counts the levels of recursion, this one included.
pub fn induce_sort(sa: &mut Vec<u32>, text: &[u32]) -> (res: (bool, Ghost<nat>))
    requires
        old(sa)@.len() == text@.len(),
        text@.len() <= u32::MAX,
    ensures
        final(sa)@.len() == old(sa)@.len(),
        1 <= res.1@ <= ceil_log2(text@.len() as nat) + 1,
    decreases text@.len(), 0nat,
{
    let n = text.len();
    if n == 0 {
        return (true, Ghost(1));
    }
    if n == 1 {
        sa.set(0, 0);
        return (true, Ghost(1));
    }
    let mut k: usize = 0;
    while k < n
        invariant
            sa@.len() == n,
            sa@.len() == old(sa)@.len(),
            k <= n,
        decreases n - k,
    {
        sa.set(k, 0);
        k = k + 1;
    }
    let mut stypes = SuffixTypes::new(n as u32);
    stypes.compute(text);
    let mut bins = Bins::new();
    if !bins.find_sizes(text) {
        return (false, Ghost(1));
    }
    bins.find_tail_pointers();

    // Seed each bucket's tail with its valley suffixes, in text order.
    let mut i: usize = 0;
    while i < n
        invariant
            n == text@.len(),
            n <= u32::MAX,
            sa@.len() == n,
            sa@.len() == old(sa)@.len(),
            stypes.types@.len() == n,
            bins.wf(),
            bins.fits(),
            bins.covers(text@),
            i <= n,
        decreases n - i,
    {
        if stypes.is_valley(i as u32) {
            if !bins.tail_insert(sa, i as u32, text[i]) {
                return (false, Ghost(1));
            }
        }
        i = i + 1;
    }
    bins.find_head_pointers();
    if !induce_descending(sa, &stypes, &mut bins, text) {
        return (false, Ghost(1));
    }
    bins.find_tail_pointers();
    if !induce_ascending(sa, &stypes, &mut bins, text) {
        return (false, Ghost(1));
    }

    // Move the valley suffixes, now in the order of their valley substrings,
    // to the front.
    let mut num_wstrs: usize = 0;
    let mut i: usize = 0;
    while i < n
        invariant
            n == text@.len(),
            sa@.len() == n,
            sa@.len() == old(sa)@.len(),
            stypes.types@.len() == n,
            num_wstrs <= i <= n,
        decreases n - i,
    {
        let sufi = sa[i];
        if (sufi as usize) < n && stypes.is_valley(sufi) {
            sa.set(num_wstrs, sufi);
            num_wstrs = num_wstrs + 1;
        }
        i = i + 1;
    }
    // Without a sentinel a text may have no valley at all.
    if num_wstrs == 0 {
        num_wstrs = 1;
    }
    // A valley never follows a valley, so at most half the positions are
    // valleys.
    if num_wstrs > n / 2 {
        return (false, Ghost(1));
    }

    // Name the valley substrings: equal substrings share a name. The name of
    // the valley at `p` goes to slot `num_wstrs + p / 2`, which no other
    // valley shares.
    let mut i: usize = num_wstrs;
    while i < n
        invariant
            sa@.len() == n,
            sa@.len() == old(sa)@.len(),
            i <= n,
        decreases n - i,
    {
        sa.set(i, u32::MAX);
        i = i + 1;
    }
    let mut prev_sufi: u32 = 0;
    let mut name: u32 = 0;
    let mut i: usize = 0;
    while i < num_wstrs
        invariant
            n == text@.len(),
            n <= u32::MAX,
            sa@.len() == n,
            sa@.len() == old(sa)@.len(),
            stypes.types@.len() == n,
            2 * num_wstrs <= n,
            i <= num_wstrs,
            name <= i,
        decreases num_wstrs - i,
    {
        let cur_sufi = sa[i];
        if prev_sufi == 0 || !wstring_equal(text, &stypes, cur_sufi, prev_sufi) {
            name = name + 1;
            prev_sufi = cur_sufi;
        }
        let slot = num_wstrs + (cur_sufi as usize) / 2;
        if slot >= n || name == 0 {
            return (false, Ghost(1));
        }
        sa.set(slot, name - 1);
        i = i + 1;
    }

    // Pack the names, in text order, at the end of `sa`.
    let mut j: usize = n - 1;
    let mut i: usize = n;
    while i > num_wstrs
        invariant
            sa@.len() == n,
            sa@.len() == old(sa)@.len(),
            1 <= num_wstrs,
            num_wstrs <= i <= n,
            i <= j + 1,
            j < n,
        decreases i,
    {
        i = i - 1;
        if sa[i] != u32::MAX {
            let name_i = sa[i];
            sa.set(j, name_i);
            j = j - 1;
        }
    }

    // Order the valley suffixes: by their names where all names differ, and
    // otherwise by the suffix array of the sequence of names.
    let split_at = n - num_wstrs;
    let mut depth: Ghost<nat> = Ghost(1);
    if (name as usize) < num_wstrs {
        let mut r_text: Vec<u32> = Vec::new();
        let mut i: usize = split_at;
        while i < n
            invariant
                sa@.len() == n,
                sa@.len() == old(sa)@.len(),
                split_at <= i <= n,
                r_text@.len() == i - split_at,
            decreases n - i,
        {
            r_text.push(sa[i]);
            i = i + 1;
        }
        let mut r_sa: Vec<u32> = vec![0u32; num_wstrs];
        let sub_depth = sais(&mut r_sa, r_text.as_slice());
        proof {
            lemma_ceil_log2_half(num_wstrs as nat, n as nat);
        }
        depth = Ghost(sub_depth@ + 1);
        let mut i: usize = 0;
        while i < num_wstrs
            invariant
                sa@.len() == n,
                sa@.len() == old(sa)@.len(),
                r_sa@.len() == num_wstrs,
                num_wstrs <= n,
                i <= num_wstrs,
            decreases num_wstrs - i,
        {
            sa.set(i, r_sa[i]);
            i = i + 1;
        }
    } else {
        let mut i: usize = 0;
        while i < num_wstrs
            invariant
                sa@.len() == n,
                sa@.len() == old(sa)@.len(),
                n <= u32::MAX,
                2 * num_wstrs <= n,
                split_at == n - num_wstrs,
                i <= num_wstrs,
            decreases num_wstrs - i,
        {
            let reducedi = sa[split_at + i] as usize;
            if reducedi >= n {
                return (false, Ghost(1));
            }
            sa.set(reducedi, i as u32);
            i = i + 1;
        }
    }

    // Turn ranks of the reduced problem back into positions of `text`.
    let mut j: usize = split_at;
    let mut i: usize = 0;
    while i < n
        invariant
            n == text@.len(),
            n <= u32::MAX,
            sa@.len() == n,
            sa@.len() == old(sa)@.len(),
            stypes.types@.len() == n,
            i <= n,
        decreases n - i,
    {
        if stypes.is_valley(i as u32) {
            if j >= n {
                return (false, Ghost(1));
            }
            sa.set(j, i as u32);
            j = j + 1;
        }
        i = i + 1;
    }
    let mut i: usize = 0;
    while i < num_wstrs
        invariant
            sa@.len() == n,
            sa@.len() == old(sa)@.len(),
            2 * num_wstrs <= n,
            split_at == n - num_wstrs,
            i <= num_wstrs,
        decreases num_wstrs - i,
    {
        let sufi = sa[i] as usize;
        if sufi >= num_wstrs {
            return (false, Ghost(1));
        }
        let pos = sa[split_at + sufi];
        sa.set(i, pos);
        i = i + 1;
    }
    let mut i: usize = num_wstrs;
    while i < n
        invariant
            sa@.len() == n,
            sa@.len() == old(sa)@.len(),
            i <= n,
        decreases n - i,
    {
        sa.set(i, 0);
        i = i + 1;
    }

    // Induce again, from valley suffixes that are now in their final order.
    bins.find_tail_pointers();
    let mut i: usize = num_wstrs;
    while i > 0
        invariant
            n == text@.len(),
            n <= u32::MAX,
            sa@.len() == n,
            sa@.len() == old(sa)@.len(),
            stypes.types@.len() == n,
            bins.wf(),
            bins.fits(),
            bins.covers(text@),
            i <= num_wstrs,
            num_wstrs <= n,
        decreases i,
    {
        i = i - 1;
        let sufi = sa[i];
        sa.set(i, 0);
        if sufi as usize >= n {
            return (false, Ghost(1));
        }
        if !bins.tail_insert(sa, sufi, text[sufi as usize]) {
            return (false, Ghost(1));
        }
    }
    bins.find_head_pointers();
    if !induce_descending(sa, &stypes, &mut bins, text) {
        return (false, Ghost(1));
    }
    bins.find_tail_pointers();
    if !induce_ascending(sa, &stypes, &mut bins, text) {
        return (false, Ghost(1));
    }
    (true, depth)
}

} // verus!
