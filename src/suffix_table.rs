//! The suffix table: a text together with the sorted order of its suffixes,
//! and the queries it answers.
use vstd::prelude::*;
use vstd::string::StringSliceAdditionalSpecFns;
use vstd::utf8::{encode_utf8, is_char_boundary};
use crate::certify::lcp_len;
use crate::order::{
    cmp_from, is_suffix_table, lcp, lemma_suffix_table_unique, lemma_cmp_antisym, lemma_cmp_trans, lemma_sorted_le,
    lemma_truncate_monotone, lemma_truncate_starts_with, lex_cmp, lex_le, occurs, starts_with,
    suffix, truncate,
};
use crate::sais::sais_table;

verus! {

/// The key that the queries for `q` compare at rank `i`: the first `|q|`
/// bytes of the suffix listed there.
pub open spec fn key(t: Seq<u8>, tab: Seq<u32>, q: Seq<u8>, i: int) -> Seq<u8> {
    truncate(suffix(t, tab[i] as int), q.len())
}

/// The keys for `q` do not decrease along the table.
pub open spec fn keys_sorted(t: Seq<u8>, tab: Seq<u32>, q: Seq<u8>) -> bool {
    forall|i: int, j: int|
        0 <= i <= j < tab.len() ==> lex_le(#[trigger] key(t, tab, q, i), #[trigger] key(t, tab, q, j))
}

/// Some suffix of `t` begins with `q`.
pub open spec fn occurs_in(t: Seq<u8>, q: Seq<u8>) -> bool {
    exists|p: int| 0 <= p < t.len() && #[trigger] starts_with(suffix(t, p), q)
}

/// The suffixes of a suffix array give sorted keys for every query.
pub proof fn lemma_keys_sorted(t: Seq<u8>, tab: Seq<u32>, q: Seq<u8>)
    requires
        is_suffix_table(t, tab),
    ensures
        keys_sorted(t, tab, q),
{
    assert forall|i: int, j: int| 0 <= i <= j < tab.len() implies lex_le(
        #[trigger] key(t, tab, q, i),
        #[trigger] key(t, tab, q, j),
    ) by {
        lemma_sorted_le(t, tab, i, j);
        lemma_truncate_monotone(suffix(t, tab[i] as int), suffix(t, tab[j] as int), q.len(), 0);
    }
}

/// A suffix table owns its text and the offsets of the text's suffixes in
/// sorted order. Offsets are byte offsets.
pub struct SuffixTable {
    text: String,
    table: Vec<u32>,
}

impl SuffixTable {
    /// The bytes of the text.
    pub closed spec fn bytes(&self) -> Seq<u8> {
        encode_utf8(self.text@)
    }

    /// The offsets, rank by rank.
    pub closed spec fn ranks(&self) -> Seq<u32> {
        self.table@
    }

    /// One offset per byte, and every offset fits in `u32`.
    #[verifier::type_invariant]
    spec fn inv(&self) -> bool {
        &&& self.bytes().len() == self.table@.len()
        &&& self.table@.len() <= u32::MAX
    }

    /// The table is the suffix array of the text.
    pub open spec fn is_valid(&self) -> bool {
        is_suffix_table(self.bytes(), self.ranks())
    }

    /// Builds the suffix table of `text`.
    pub fn new(text: &str) -> (r: SuffixTable)
        requires
            text.spec_bytes().len() <= u32::MAX,
        ensures
            r.bytes() == text.spec_bytes(),
            r.is_valid(),
    {
        let owned = text.to_owned();
        let table = sais_table(owned.as_str().as_bytes());
        SuffixTable { text: owned, table }
    }

    /// Pairs `text` with a table that the caller vouches for: it is not
    /// checked to be the suffix array of `text`, only to be as long.
    pub fn from_parts(text: &str, table: Vec<u32>) -> (r: SuffixTable)
        requires
            text.spec_bytes().len() == table@.len(),
            table@.len() <= u32::MAX,
        ensures
            r.bytes() == text.spec_bytes(),
            r.ranks() == table@,
    {
        SuffixTable { text: text.to_owned(), table }
    }

    /// Takes the table apart into its text and its offsets.
    pub fn into_parts(self) -> (r: (String, Vec<u32>))
        ensures
            encode_utf8(r.0@) == self.bytes(),
            r.1@ == self.ranks(),
    {
        (self.text, self.table)
    }

    /// For each rank past the first, the length of the common prefix of its
    /// suffix and the previous rank's suffix; `0` at the first rank.
    pub fn lcp_lens(&self) -> (r: Vec<u32>)
        ensures
            r@.len() == self.ranks().len(),
            r@.len() > 0 ==> r@[0] == 0,
            forall|i: int|
                1 <= i < r@.len() ==> #[trigger] r@[i] == lcp(
                    suffix(self.bytes(), self.ranks()[i - 1] as int),
                    suffix(self.bytes(), self.ranks()[i] as int),
                ),
    {
        proof {
            use_type_invariant(self);
        }
        lcp_lens_quadratic(self.text.as_str().as_bytes(), self.table.as_slice())
    }

    /// The offsets, rank by rank.
    pub fn table(&self) -> (r: &[u32])
        ensures
            r@ == self.ranks(),
    {
        self.table.as_slice()
    }

    /// The text.
    pub fn text(&self) -> (r: &str)
        ensures
            r.spec_bytes() == self.bytes(),
    {
        self.text.as_str()
    }

    /// The number of suffixes, which is the number of bytes of the text.
    pub fn len(&self) -> (r: usize)
        ensures
            r == self.ranks().len(),
            r == self.bytes().len(),
    {
        proof {
            use_type_invariant(self);
        }
        self.table.len()
    }

    /// Whether the text is empty.
    pub fn is_empty(&self) -> (r: bool)
        ensures
            r == (self.bytes().len() == 0),
    {
        self.len() == 0
    }

    /// The suffix at rank `i`, which must start on a character boundary.
    pub fn suffix(&self, i: usize) -> (r: &str)
        requires
            i < self.ranks().len(),
            is_char_boundary(self.bytes(), self.ranks()[i as int] as int),
        ensures
            r.spec_bytes() == suffix(self.bytes(), self.ranks()[i as int] as int),
    {
        proof {
            use_type_invariant(self);
        }
        let text = self.text.as_str();
        let p = self.table[i] as usize;
        proof {
            assert(p <= text.spec_bytes().len()) by {
                vstd::utf8::encode_utf8_valid_utf8(self.text@);
                reveal_with_fuel(is_char_boundary, 1);
            }
        }
        let (_, rest) = text.split_at(p);
        assert(rest.spec_bytes() =~= suffix(self.bytes(), p as int));
        rest
    }

    /// The bytes of the suffix at rank `i`.
    pub fn suffix_bytes(&self, i: usize) -> (r: &[u8])
        requires
            i < self.ranks().len(),
            self.ranks()[i as int] <= self.bytes().len(),
        ensures
            r@ == suffix(self.bytes(), self.ranks()[i as int] as int),
    {
        let bytes = self.text.as_str().as_bytes();
        let p = self.table[i] as usize;
        let r = &bytes[p..bytes.len()];
        assert(r@ =~= suffix(self.bytes(), p as int));
        r
    }

    /// Whether `query` occurs in the text. The empty query occurs nowhere.
    pub fn contains(&self, query: &str) -> (r: bool)
        ensures
            self.is_valid() ==> (r <==> query.spec_bytes().len() > 0 && occurs_in(
                self.bytes(),
                query.spec_bytes(),
            )),
    {
        self.any_position(query).is_some()
    }

    /// The offsets where `query` starts in the text, in the order of their
    /// suffixes. The empty query starts nowhere.
    pub fn positions(&self, query: &str) -> (r: &[u32])
        ensures
            self.is_valid() ==> forall|k: int|
                0 <= k < r@.len() ==> #[trigger] r@[k] < self.bytes().len() && starts_with(
                    suffix(self.bytes(), r@[k] as int),
                    query.spec_bytes(),
                ),
            self.is_valid() ==> forall|p: int|
                0 <= p < self.bytes().len() && query.spec_bytes().len() > 0 && #[trigger] starts_with(
                    suffix(self.bytes(), p),
                    query.spec_bytes(),
                ) ==> occurs(r@, p),
            self.is_valid() ==> forall|k: int, l: int|
                0 <= k < l < r@.len() ==> #[trigger] r@[k] != #[trigger] r@[l],
            query.spec_bytes().len() == 0 ==> r@.len() == 0,
            exists|lo: int, hi: int|
                0 <= lo <= hi <= self.ranks().len() && r@ == self.ranks().subrange(lo, hi),
    {
        proof {
            use_type_invariant(self);
        }
        let text = self.text.as_str().as_bytes();
        let q = query.as_bytes();
        let n = text.len();
        let ghost t = text@;
        let ghost tab = self.table@;
        if n == 0 || q.len() == 0 {
            let r = &self.table.as_slice()[0..0];
            assert(r@ == self.ranks().subrange(0, 0));
            return r;
        }
        if prefix_cmp(text, self.table[0], q) > 0 || prefix_cmp(text, self.table[n - 1], q) < 0 {
            proof {
                if self.is_valid() {
                    lemma_keys_sorted(t, tab, q@);
                    lemma_no_match_outside(t, tab, q@);
                }
            }
            let r = &self.table.as_slice()[0..0];
            assert(r@ == self.ranks().subrange(0, 0));
            return r;
        }
        let (start, _) = binary_search(self.table.as_slice(), text, q, 0, false);
        let (end, _) = binary_search(self.table.as_slice(), text, q, start, true);
        let r = &self.table.as_slice()[start..end];
        assert(r@ == self.ranks().subrange(start as int, end as int));
        proof {
            if self.is_valid() {
                lemma_keys_sorted(t, tab, q@);
                lemma_matching_range(t, tab, q@, start as int, end as int);
            }
        }
        r
    }

    /// One offset where `query` starts in the text, if there is one; not
    /// necessarily the first in text order. The empty query starts nowhere.
    pub fn any_position(&self, query: &str) -> (r: Option<u32>)
        ensures
            self.is_valid() ==> (r matches Some(p) ==> p < self.bytes().len() && starts_with(
                suffix(self.bytes(), p as int),
                query.spec_bytes(),
            )),
            self.is_valid() ==> (r is None <==> query.spec_bytes().len() == 0 || !occurs_in(
                self.bytes(),
                query.spec_bytes(),
            )),
            query.spec_bytes().len() == 0 ==> r is None,
    {
        proof {
            use_type_invariant(self);
        }
        let text = self.text.as_str().as_bytes();
        let q = query.as_bytes();
        let ghost t = text@;
        let ghost tab = self.table@;
        if q.len() == 0 {
            return None;
        }
        let table = self.table.as_slice();
        proof {
            if self.is_valid() {
                lemma_keys_sorted(t, tab, q@);
            }
        }
        let mut lo: usize = 0;
        let mut hi: usize = table.len();
        while lo < hi
            invariant
                t == text@,
                tab == table@,
                t == self.bytes(),
                tab == self.ranks(),
                q@ == query.spec_bytes(),
                text@.len() == table@.len(),
                table@.len() <= u32::MAX,
                lo <= hi <= table@.len(),
                q@.len() > 0,
                self.is_valid() ==> forall|i: int|
                    0 <= i < lo ==> lex_cmp(#[trigger] key(t, tab, q@, i), q@) < 0,
                self.is_valid() ==> forall|i: int|
                    hi <= i < tab.len() ==> lex_cmp(#[trigger] key(t, tab, q@, i), q@) > 0,
                self.is_valid() ==> keys_sorted(t, tab, q@),
            decreases hi - lo,
        {
            let mid = lo + (hi - lo) / 2;
            let c = prefix_cmp(text, table[mid], q);
            if c == 0 {
                proof {
                    lemma_truncate_starts_with(suffix(t, tab[mid as int] as int), q@);
                    if self.is_valid() {
                        assert(tab[mid as int] < t.len());
                    }
                }
                return Some(table[mid]);
            }
            proof {
                if self.is_valid() {
                    if c < 0 {
                        assert forall|i: int| 0 <= i < mid + 1 implies lex_cmp(
                            #[trigger] key(t, tab, q@, i),
                            q@,
                        ) < 0 by {
                            assert(lex_le(key(t, tab, q@, i), key(t, tab, q@, mid as int)));
                            lemma_cmp_trans(key(t, tab, q@, i), key(t, tab, q@, mid as int), q@, 0);
                        }
                    } else {
                        assert forall|i: int| mid <= i < tab.len() implies lex_cmp(
                            #[trigger] key(t, tab, q@, i),
                            q@,
                        ) > 0 by {
                            assert(lex_le(key(t, tab, q@, mid as int), key(t, tab, q@, i)));
                            lemma_cmp_antisym(key(t, tab, q@, mid as int), q@, 0);
                            lemma_cmp_antisym(key(t, tab, q@, i), q@, 0);
                            lemma_cmp_trans(q@, key(t, tab, q@, mid as int), key(t, tab, q@, i), 0);
                        }
                    }
                }
            }
            if c < 0 {
                lo = mid + 1;
            } else {
                hi = mid;
            }
        }
        proof {
            if self.is_valid() {
                if occurs_in(t, q@) {
                    let p = choose|p: int| 0 <= p < t.len() && #[trigger] starts_with(suffix(t, p), q@);
                    assert(occurs(tab, p));
                    let i = choose|i: int| 0 <= i < tab.len() && #[trigger] tab[i] == p;
                    lemma_truncate_starts_with(suffix(t, p), q@);
                    assert(key(t, tab, q@, i) == truncate(suffix(t, p), q@.len()));
                }
            }
        }
        None
    }
}

/// Building a suffix table is deterministic: two valid tables of the same
/// text list the same offsets in the same order.
pub proof fn lemma_build_deterministic(a: &SuffixTable, b: &SuffixTable)
    requires
        a.is_valid(),
        b.is_valid(),
        a.bytes() == b.bytes(),
    ensures
        a.ranks() == b.ranks(),
{
    lemma_suffix_table_unique(a.bytes(), a.ranks(), b.ranks());
}

/// Between the first key that is at least `q` and the first that is greater
/// lie exactly the suffixes that start with `q`, each once.
proof fn lemma_matching_range(t: Seq<u8>, tab: Seq<u32>, q: Seq<u8>, start: int, end: int)
    requires
        is_suffix_table(t, tab),
        0 <= start <= end <= tab.len(),
        forall|i: int| 0 <= i < start ==> lex_cmp(#[trigger] key(t, tab, q, i), q) < 0,
        forall|i: int| start <= i < end ==> lex_cmp(#[trigger] key(t, tab, q, i), q) <= 0,
        forall|i: int| start <= i < tab.len() ==> lex_cmp(#[trigger] key(t, tab, q, i), q) >= 0,
        forall|i: int| end <= i < tab.len() ==> lex_cmp(#[trigger] key(t, tab, q, i), q) > 0,
    ensures
        forall|k: int|
            0 <= k < end - start ==> #[trigger] tab.subrange(start, end)[k] < t.len() && starts_with(
                suffix(t, tab.subrange(start, end)[k] as int),
                q,
            ),
        forall|p: int|
            0 <= p < t.len() && #[trigger] starts_with(suffix(t, p), q) ==> occurs(
                tab.subrange(start, end),
                p,
            ),
        forall|k: int, l: int|
            0 <= k < l < end - start ==> #[trigger] tab.subrange(start, end)[k]
                != #[trigger] tab.subrange(start, end)[l],
{
    let r = tab.subrange(start, end);
    assert forall|k: int| 0 <= k < end - start implies #[trigger] r[k] < t.len() && starts_with(
        suffix(t, r[k] as int),
        q,
    ) by {
        assert(r[k] == tab[start + k]);
        assert(lex_cmp(key(t, tab, q, start + k), q) <= 0);
        assert(lex_cmp(key(t, tab, q, start + k), q) >= 0);
        lemma_truncate_starts_with(suffix(t, tab[start + k] as int), q);
    }
    assert forall|p: int| 0 <= p < t.len() && #[trigger] starts_with(suffix(t, p), q) implies occurs(
        r,
        p,
    ) by {
        assert(occurs(tab, p));
        let i = choose|i: int| 0 <= i < tab.len() && #[trigger] tab[i] == p;
        lemma_truncate_starts_with(suffix(t, p), q);
        assert(key(t, tab, q, i) == truncate(suffix(t, p), q.len()));
        assert(r[i - start] == p);
    }
    assert forall|k: int, l: int| 0 <= k < l < end - start implies #[trigger] r[k]
        != #[trigger] r[l] by {
        assert(r[k] == tab[start + k]);
        assert(r[l] == tab[start + l]);
    }
}

/// Where no key can equal `q` because the first key sorts after it or the
/// last before it, no suffix starts with `q`.
proof fn lemma_no_match_outside(t: Seq<u8>, tab: Seq<u32>, q: Seq<u8>)
    requires
        is_suffix_table(t, tab),
        keys_sorted(t, tab, q),
        tab.len() > 0,
        lex_cmp(key(t, tab, q, 0), q) > 0 || lex_cmp(key(t, tab, q, tab.len() - 1), q) < 0,
    ensures
        !occurs_in(t, q),
{
    if occurs_in(t, q) {
        let p = choose|p: int| 0 <= p < t.len() && #[trigger] starts_with(suffix(t, p), q);
        assert(occurs(tab, p));
        let i = choose|i: int| 0 <= i < tab.len() && #[trigger] tab[i] == p;
        lemma_truncate_starts_with(suffix(t, p), q);
        let last = tab.len() - 1;
        assert(lex_le(key(t, tab, q, 0), key(t, tab, q, i)));
        assert(lex_le(key(t, tab, q, i), key(t, tab, q, last)));
        lemma_cmp_antisym(key(t, tab, q, i), q, 0);
        lemma_cmp_trans(key(t, tab, q, 0), key(t, tab, q, i), q, 0);
        lemma_cmp_trans(q, key(t, tab, q, i), key(t, tab, q, last), 0);
        lemma_cmp_antisym(key(t, tab, q, last), q, 0);
    }
}

/// Compares the first `|q|` bytes of the suffix at offset `p` with `q`; an
/// offset past the end reads as the empty suffix.
fn prefix_cmp(text: &[u8], p: u32, q: &[u8]) -> (r: i8)
    ensures
        r as int == lex_cmp(truncate(suffix(text@, p as int), q@.len()), q@),
{
    let n = text.len();
    let start: usize = if (p as usize) < n {
        p as usize
    } else {
        n
    };
    let ghost s = truncate(suffix(text@, p as int), q@.len());
    let avail = n - start;
    let m: usize = if q.len() < avail {
        q.len()
    } else {
        avail
    };
    assert(s.len() == m);
    let mut i: usize = 0;
    while i < m
        invariant
            s == truncate(suffix(text@, p as int), q@.len()),
            s.len() == m,
            m <= q@.len(),
            start + m <= n,
            n == text@.len(),
            forall|j: int| 0 <= j < m ==> #[trigger] s[j] == text@[start + j],
            i <= m,
            cmp_from(s, q@, 0) == cmp_from(s, q@, i as nat),
        decreases m - i,
    {
        let a = text[start + i];
        let b = q[i];
        if a < b {
            return -1;
        }
        if a > b {
            return 1;
        }
        i = i + 1;
    }
    if m == q.len() {
        0
    } else {
        -1
    }
}

/// The first index in `lo..table.len()` at which the key for `q` is at least
/// `q` (strictly greater, for `strict`); `table.len()` where there is none.
/// Exact where the keys are sorted. The ghost result counts the keys
/// compared: at most `⌊log₂ m⌋ + 1` for the `m` indices searched, none when
/// there are none.
fn binary_search(table: &[u32], text: &[u8], q: &[u8], lo: usize, strict: bool) -> (res: (
    usize,
    Ghost<nat>,
))
    requires
        lo <= table@.len(),
    ensures
        lo <= res.0 <= table@.len(),
        res.1@ <= bit_length((table@.len() - lo) as nat),
        keys_sorted(text@, table@, q@) ==> forall|i: int|
            lo <= i < res.0 ==> if strict {
                lex_cmp(#[trigger] key(text@, table@, q@, i), q@) <= 0
            } else {
                lex_cmp(#[trigger] key(text@, table@, q@, i), q@) < 0
            },
        keys_sorted(text@, table@, q@) ==> forall|i: int|
            res.0 <= i < table@.len() ==> if strict {
                lex_cmp(#[trigger] key(text@, table@, q@, i), q@) > 0
            } else {
                lex_cmp(#[trigger] key(text@, table@, q@, i), q@) >= 0
            },
{
    let ghost t = text@;
    let ghost tab = table@;
    let mut left: usize = lo;
    let mut right: usize = table.len();
    let ghost mut probes: nat = 0;
    while left < right
        invariant
            t == text@,
            tab == table@,
            lo <= left <= right <= table@.len(),
            probes + bit_length((right - left) as nat) <= bit_length((table@.len() - lo) as nat),
            keys_sorted(t, tab, q@) ==> forall|i: int|
                lo <= i < left ==> if strict {
                    lex_cmp(#[trigger] key(t, tab, q@, i), q@) <= 0
                } else {
                    lex_cmp(#[trigger] key(t, tab, q@, i), q@) < 0
                },
            keys_sorted(t, tab, q@) ==> forall|i: int|
                right <= i < tab.len() ==> if strict {
                    lex_cmp(#[trigger] key(t, tab, q@, i), q@) > 0
                } else {
                    lex_cmp(#[trigger] key(t, tab, q@, i), q@) >= 0
                },
        decreases right - left,
    {
        let mid = left + (right - left) / 2;
        let c = prefix_cmp(text, table[mid], q);
        let holds = if strict {
            c > 0
        } else {
            c >= 0
        };
        proof {
            if keys_sorted(t, tab, q@) {
                let km = key(t, tab, q@, mid as int);
                assert forall|i: int| 0 <= i < tab.len() implies (i <= mid ==> lex_le(
                    #[trigger] key(t, tab, q@, i),
                    km,
                )) && (mid <= i ==> lex_le(km, key(t, tab, q@, i))) by {}
                assert forall|i: int| lo <= i < tab.len() implies (holds && mid <= i ==> if strict {
                    lex_cmp(#[trigger] key(t, tab, q@, i), q@) > 0
                } else {
                    lex_cmp(key(t, tab, q@, i), q@) >= 0
                }) && (!holds && i <= mid ==> if strict {
                    lex_cmp(key(t, tab, q@, i), q@) <= 0
                } else {
                    lex_cmp(key(t, tab, q@, i), q@) < 0
                }) by {
                    let ki = key(t, tab, q@, i);
                    lemma_cmp_antisym(km, q@, 0);
                    lemma_cmp_antisym(ki, q@, 0);
                    if mid <= i {
                        lemma_cmp_antisym(km, ki, 0);
                        if lex_cmp(q@, km) <= 0 {
                            lemma_cmp_trans(q@, km, ki, 0);
                        }
                    }
                    if i <= mid {
                        if lex_cmp(km, q@) <= 0 {
                            lemma_cmp_trans(ki, km, q@, 0);
                        }
                    }
                }
            }
        }
        proof {
            let size = (right - left) as nat;
            lemma_bit_length_half(size);
            lemma_bit_length_monotone((mid - left) as nat, size / 2);
            lemma_bit_length_monotone((right - mid - 1) as nat, size / 2);
            probes = probes + 1;
        }
        if holds {
            right = mid;
        } else {
            left = mid + 1;
        }
    }
    (left, Ghost(probes))
}

/// The number of binary digits of `x`: `⌊log₂ x⌋ + 1`, and `0` for `0`.
pub open spec fn bit_length(x: nat) -> nat
    decreases x,
{
    if x == 0 {
        0
    } else {
        1 + bit_length(x / 2)
    }
}

proof fn lemma_bit_length_half(x: nat)
    requires
        x >= 1,
    ensures
        bit_length(x) == 1 + bit_length(x / 2),
{
}

proof fn lemma_bit_length_monotone(a: nat, b: nat)
    requires
        a <= b,
    ensures
        bit_length(a) <= bit_length(b),
    decreases b,
{
    if a > 0 {
        lemma_bit_length_monotone(a / 2, b / 2);
    }
}

/// The longest-common-prefix length of each rank's suffix with the previous
/// rank's, by direct comparison of bytes.
fn lcp_lens_quadratic(text: &[u8], table: &[u32]) -> (r: Vec<u32>)
    requires
        text@.len() <= u32::MAX,
    ensures
        r@.len() == table@.len(),
        r@.len() > 0 ==> r@[0] == 0,
        forall|i: int|
            1 <= i < r@.len() ==> #[trigger] r@[i] == lcp(
                suffix(text@, table@[i - 1] as int),
                suffix(text@, table@[i] as int),
            ),
{
    let n = text.len();
    let mut lcps: Vec<u32> = vec![0u32; table.len()];
    let mut i: usize = 1;
    while i < table.len()
        invariant
            n == text@.len(),
            n <= u32::MAX,
            lcps@.len() == table@.len(),
            1 <= i,
            lcps@.len() > 0 ==> lcps@[0] == 0,
            forall|k: int|
                1 <= k < i && k < lcps@.len() ==> #[trigger] lcps@[k] == lcp(
                    suffix(text@, table@[k - 1] as int),
                    suffix(text@, table@[k] as int),
                ),
        decreases table@.len() - i,
    {
        let a = suffix_slice(text, table[i - 1]);
        let b = suffix_slice(text, table[i]);
        let len = lcp_len(a, b);
        lcps.set(i, len);
        i = i + 1;
    }
    lcps
}

/// The bytes of the suffix at offset `p`; empty past the end.
fn suffix_slice(text: &[u8], p: u32) -> (r: &[u8])
    ensures
        r@ == suffix(text@, p as int),
{
    let n = text.len();
    let start: usize = if (p as usize) < n {
        p as usize
    } else {
        n
    };
    let r = &text[start..n];
    assert(r@ =~= suffix(text@, p as int));
    r
}

} // verus!
