//! Classification of text positions into ascending, descending and valley
//! suffixes.
use vstd::prelude::*;

verus! {

/// How the suffix at a position relates to the suffix after it.
#[derive(Clone, Copy, Debug)]
pub enum SuffixType {
    /// Sorts before the next suffix.
    Ascending,
    /// Sorts after the next suffix.
    Descending,
    /// Ascending, and preceded by a descending position.
    Valley,
}

/// The suffix at `i` sorts before the one at `i + 1`: the first symbol that
/// differs from its successor is smaller, and the last position is never so.
pub open spec fn ascending(t: Seq<u32>, i: int) -> bool
    decreases t.len() - i,
{
    if i < 0 || i + 1 >= t.len() {
        false
    } else if t[i] < t[i + 1] {
        true
    } else if t[i] > t[i + 1] {
        false
    } else {
        ascending(t, i + 1)
    }
}

/// An ascending position right after a descending one.
pub open spec fn valley(t: Seq<u32>, i: int) -> bool {
    0 < i < t.len() && ascending(t, i) && !ascending(t, i - 1)
}

impl SuffixType {
    pub open spec fn spec_is_asc(&self) -> bool {
        !(self is Descending)
    }

    /// Ascending or valley.
    pub fn is_asc(&self) -> (r: bool)
        ensures
            r == self.spec_is_asc(),
    {
        match *self {
            SuffixType::Descending => false,
            _ => true,
        }
    }

    /// Descending.
    pub fn is_desc(&self) -> (r: bool)
        ensures
            r == (*self is Descending),
    {
        match *self {
            SuffixType::Descending => true,
            _ => false,
        }
    }

    /// Valley.
    pub fn is_valley(&self) -> (r: bool)
        ensures
            r == (*self is Valley),
    {
        match *self {
            SuffixType::Valley => true,
            _ => false,
        }
    }

    /// The type a position takes from an equal successor: a valley passes on
    /// only its ascending nature.
    pub fn inherit(&self) -> (r: SuffixType)
        ensures
            r.spec_is_asc() == self.spec_is_asc(),
            !(r is Valley),
    {
        match *self {
            SuffixType::Valley => SuffixType::Ascending,
            SuffixType::Ascending => SuffixType::Ascending,
            SuffixType::Descending => SuffixType::Descending,
        }
    }

    /// Both ascending (valleys included) or both descending.
    pub fn same_direction(&self, other: &SuffixType) -> (r: bool)
        ensures
            r == (self.spec_is_asc() == other.spec_is_asc()),
    {
        (self.is_asc() && other.is_asc()) || (self.is_desc() && other.is_desc())
    }
}

/// The type of every position of one text.
pub struct SuffixTypes {
    pub types: Vec<SuffixType>,
}

impl SuffixTypes {
    /// The types describe the text `t`.
    pub open spec fn describes(&self, t: Seq<u32>) -> bool {
        &&& self.types@.len() == t.len()
        &&& forall|i: int|
            0 <= i < t.len() ==> (#[trigger] self.types@[i]).spec_is_asc() == ascending(t, i)
        &&& forall|i: int| 0 <= i < t.len() ==> (#[trigger] self.types@[i] is Valley) == valley(t, i)
    }

    /// Room for the types of `num_bytes` positions.
    pub fn new(num_bytes: u32) -> (r: SuffixTypes)
        ensures
            r.types@.len() == num_bytes,
    {
        let mut types: Vec<SuffixType> = Vec::new();
        let mut i: u32 = 0;
        while i < num_bytes
            invariant
                types@.len() == i,
                i <= num_bytes,
            decreases num_bytes - i,
        {
            types.push(SuffixType::Ascending);
            i = i + 1;
        }
        SuffixTypes { types }
    }

    /// Classifies every position of `text` in one backward pass.
    pub fn compute(&mut self, text: &[u32])
        requires
            old(self).types@.len() == text@.len(),
        ensures
            final(self).describes(text@),
    {
        let n = text.len();
        if n == 0 {
            return;
        }
        let t = Ghost(text@);
        self.types.set(n - 1, SuffixType::Descending);
        let mut lasti: usize = n - 1;
        while lasti > 0
            invariant
                t@ == text@,
                n == text@.len(),
                self.types@.len() == n,
                0 <= lasti < n,
                forall|j: int|
                    lasti <= j < n ==> (#[trigger] self.types@[j]).spec_is_asc() == ascending(
                        t@,
                        j,
                    ),
                forall|j: int| lasti < j < n ==> (#[trigger] self.types@[j] is Valley) == valley(t@, j),
                !(self.types@[lasti as int] is Valley),
            decreases lasti,
        {
            let i = lasti - 1;
            let c = text[i];
            let lastc = text[lasti];
            if c < lastc {
                self.types.set(i, SuffixType::Ascending);
            } else if c > lastc {
                self.types.set(i, SuffixType::Descending);
            } else {
                let inherited = self.types[lasti].inherit();
                self.types.set(i, inherited);
            }
            assert(self.types@[i as int].spec_is_asc() == ascending(t@, i as int));
            if self.types[i].is_desc() && self.types[lasti].is_asc() {
                self.types.set(lasti, SuffixType::Valley);
            }
            assert((self.types@[lasti as int] is Valley) == valley(t@, lasti as int));
            lasti = i;
        }
        assert(!valley(t@, 0));
    }

    /// The type at `i`.
    pub fn ty(&self, i: u32) -> (r: SuffixType)
        requires
            i < self.types@.len(),
        ensures
            r == self.types@[i as int],
    {
        self.types[i as usize]
    }

    /// The position `i` is ascending or a valley.
    pub fn is_asc(&self, i: u32) -> (r: bool)
        requires
            i < self.types@.len(),
        ensures
            r == self.types@[i as int].spec_is_asc(),
    {
        self.ty(i).is_asc()
    }

    /// The position `i` is descending.
    pub fn is_desc(&self, i: u32) -> (r: bool)
        requires
            i < self.types@.len(),
        ensures
            r == (self.types@[i as int] is Descending),
    {
        self.ty(i).is_desc()
    }

    /// The position `i` is a valley.
    pub fn is_valley(&self, i: u32) -> (r: bool)
        requires
            i < self.types@.len(),
        ensures
            r == (self.types@[i as int] is Valley),
    {
        self.ty(i).is_valley()
    }

    /// The positions `i` and `j` point the same way.
    pub fn equal(&self, i: u32, j: u32) -> (r: bool)
        requires
            i < self.types@.len(),
            j < self.types@.len(),
        ensures
            r == (self.types@[i as int].spec_is_asc() == self.types@[j as int].spec_is_asc()),
    {
        self.ty(i).same_direction(&self.ty(j))
    }
}

} // verus!
