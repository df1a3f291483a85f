//! Counting buckets over a symbol alphabet, with head and tail insertion
//! pointers.
use vstd::prelude::*;

verus! {

/// How often `c` occurs among the first `i` symbols of `chars`.
pub open spec fn count(chars: Seq<u32>, c: int, i: int) -> nat
    decreases i,
{
    if i <= 0 {
        0
    } else {
        count(chars, c, i - 1) + if chars[i - 1] == c {
            1nat
        } else {
            0nat
        }
    }
}

/// The first slot of the `k`-th bucket of the alphabet: the sizes of the
/// buckets before it, added up.
pub open spec fn bucket_start(sizes: Seq<u32>, alphas: Seq<u32>, k: int) -> int
    decreases k,
{
    if k <= 0 {
        0
    } else {
        bucket_start(sizes, alphas, k - 1) + sizes[alphas[k - 1] as int]
    }
}

/// The sizes of the symbols below `c`, added up.
pub open spec fn total(sizes: Seq<u32>, c: int) -> int
    decreases c,
{
    if c <= 0 {
        0
    } else {
        total(sizes, c - 1) + sizes[c - 1]
    }
}

proof fn lemma_total_zero(sizes: Seq<u32>, c: int)
    requires
        0 <= c <= sizes.len(),
        forall|d: int| 0 <= d < c ==> #[trigger] sizes[d] == 0,
    ensures
        total(sizes, c) == 0,
    decreases c,
{
    if c > 0 {
        lemma_total_zero(sizes, c - 1);
    }
}

proof fn lemma_total_inc(sizes: Seq<u32>, x: int, c: int)
    requires
        0 <= x < sizes.len(),
        0 <= c <= sizes.len(),
        sizes[x] < u32::MAX,
    ensures
        total(sizes.update(x, (sizes[x] + 1) as u32), c) == total(sizes, c) + if x < c {
            1int
        } else {
            0
        },
    decreases c,
{
    if c > 0 {
        lemma_total_inc(sizes, x, c - 1);
    }
}

proof fn lemma_bucket_start_push(sizes: Seq<u32>, alphas: Seq<u32>, x: u32, k: int)
    requires
        0 <= k <= alphas.len(),
    ensures
        bucket_start(sizes, alphas.push(x), k) == bucket_start(sizes, alphas, k),
    decreases k,
{
    if k > 0 {
        lemma_bucket_start_push(sizes, alphas, x, k - 1);
    }
}

proof fn lemma_bucket_start_monotone(sizes: Seq<u32>, alphas: Seq<u32>, j: int, k: int)
    requires
        0 <= j <= k,
    ensures
        bucket_start(sizes, alphas, j) <= bucket_start(sizes, alphas, k),
    decreases k,
{
    if j < k {
        lemma_bucket_start_monotone(sizes, alphas, j, k - 1);
    }
}

/// One bucket per symbol value: its size, and a pointer into the suffix array.
pub struct Bins {
    /// The symbols that occur, in increasing order.
    pub alphas: Vec<u32>,
    /// How often each symbol value occurs.
    pub sizes: Vec<u32>,
    /// The next free slot of each bucket.
    pub ptrs: Vec<u32>,
}

impl Bins {
    /// The arrays are indexed by the same symbol range, and the alphabet lists
    /// exactly the symbols that occur, in increasing order.
    pub open spec fn wf(&self) -> bool {
        &&& self.sizes@.len() == self.ptrs@.len()
        &&& forall|k: int|
            0 <= k < self.alphas@.len() ==> #[trigger] self.alphas@[k] < self.sizes@.len()
        &&& forall|k: int| 0 <= k < self.alphas@.len() ==> self.sizes@[#[trigger] self.alphas@[k] as int] > 0
        &&& forall|k: int, l: int|
            0 <= k < l < self.alphas@.len() ==> #[trigger] self.alphas@[k] < #[trigger] self.alphas@[l]
        &&& forall|c: int|
            0 <= c < self.sizes@.len() && #[trigger] self.sizes@[c] > 0 ==> exists|k: int|
                0 <= k < self.alphas@.len() && #[trigger] self.alphas@[k] == c
    }

    /// The buckets fit within `u32` offsets.
    pub open spec fn fits(&self) -> bool {
        bucket_start(self.sizes@, self.alphas@, self.alphas@.len() as int) <= u32::MAX
    }

    /// Every symbol of `chars` has a bucket.
    pub open spec fn covers(&self, chars: Seq<u32>) -> bool {
        forall|i: int| 0 <= i < chars.len() ==> #[trigger] chars[i] < self.ptrs@.len()
    }

    /// Empty buckets.
    pub fn new() -> (r: Bins)
        ensures
            r.wf(),
    {
        Bins { alphas: Vec::new(), sizes: Vec::new(), ptrs: Vec::new() }
    }

    /// Counts the symbols of `chars` and lists the alphabet in increasing
    /// order. Fails only where the largest symbol leaves no room for a bucket
    /// index past it.
    pub fn find_sizes(&mut self, chars: &[u32]) -> (r: bool)
        requires
            chars@.len() <= u32::MAX,
        ensures
            r ==> final(self).wf() && final(self).covers(chars@),
            r ==> forall|c: int|
                0 <= c < final(self).sizes@.len() ==> #[trigger] final(self).sizes@[c] == count(
                    chars@,
                    c,
                    chars@.len() as int,
                ),
            r ==> bucket_start(final(self).sizes@, final(self).alphas@, final(self).alphas@.len() as int)
                == chars@.len(),
            r ==> final(self).sizes@.len() == final(self).ptrs@.len(),
            r ==> forall|c: int| 0 <= c < final(self).ptrs@.len() ==> #[trigger] final(self).ptrs@[c] == 0,
            r ==> chars@.len() > 0 ==> exists|i: int|
                0 <= i < chars@.len() && #[trigger] chars@[i] + 1 == final(self).ptrs@.len(),
            r <==> forall|i: int| 0 <= i < chars@.len() ==> #[trigger] chars@[i] < u32::MAX,
    {
        let n = chars.len();
        let mut top: u32 = 0;
        let mut i: usize = 0;
        while i < n
            invariant
                n == chars@.len(),
                i <= n,
                forall|j: int| 0 <= j < i ==> #[trigger] chars@[j] <= top,
                top == 0 || exists|j: int| 0 <= j < i && #[trigger] chars@[j] == top,
            decreases n - i,
        {
            if chars[i] > top {
                top = chars[i];
                assert(chars@[i as int] == top);
            }
            i = i + 1;
        }
        if top == u32::MAX {
            proof {
                let j = choose|j: int| 0 <= j < n && #[trigger] chars@[j] == top;
                assert(!(chars@[j] < u32::MAX));
            }
            return false;
        }
        let width = top as usize + 1;
        self.sizes = vec![0u32; width];
        proof {
            lemma_total_zero(self.sizes@, width as int);
        }
        let mut i: usize = 0;
        while i < n
            invariant
                n == chars@.len(),
                n <= u32::MAX,
                i <= n,
                self.sizes@.len() == width,
                width == top + 1,
                forall|j: int| 0 <= j < n ==> #[trigger] chars@[j] <= top,
                forall|c: int| 0 <= c < width ==> #[trigger] self.sizes@[c] == count(chars@, c, i as int),
                forall|c: int| 0 <= c < width ==> #[trigger] self.sizes@[c] <= i,
                total(self.sizes@, width as int) == i,
                forall|j: int| 0 <= j < i ==> self.sizes@[#[trigger] chars@[j] as int] > 0,
            decreases n - i,
        {
            proof {
                lemma_total_inc(self.sizes@, chars@[i as int] as int, width as int);
            }
            self.inc_size(chars[i]);
            i = i + 1;
            assert forall|c: int| 0 <= c < width implies #[trigger] self.sizes@[c] == count(
                chars@,
                c,
                i as int,
            ) by {
                assert(count(chars@, c, i as int) == count(chars@, c, i - 1) + if chars@[i - 1] == c {
                    1nat
                } else {
                    0nat
                });
            }
        }
        self.alphas = Vec::new();
        let mut c: usize = 0;
        while c < width
            invariant
                self.sizes@.len() == width,
                width <= u32::MAX,
                width == top + 1,
                n == chars@.len(),
                forall|j: int| 0 <= j < n ==> #[trigger] chars@[j] <= top,
                forall|d: int| 0 <= d < width ==> #[trigger] self.sizes@[d] == count(chars@, d, n as int),
                total(self.sizes@, width as int) == n,
                bucket_start(self.sizes@, self.alphas@, self.alphas@.len() as int) == total(self.sizes@, c as int),
                c <= width,
                forall|k: int| 0 <= k < self.alphas@.len() ==> #[trigger] self.alphas@[k] < c,
                forall|k: int|
                    0 <= k < self.alphas@.len() ==> self.sizes@[#[trigger] self.alphas@[k] as int]
                        > 0,
                forall|k: int, l: int|
                    0 <= k < l < self.alphas@.len() ==> #[trigger] self.alphas@[k]
                        < #[trigger] self.alphas@[l],
                forall|d: int|
                    0 <= d < c && #[trigger] self.sizes@[d] > 0 ==> exists|k: int|
                        0 <= k < self.alphas@.len() && #[trigger] self.alphas@[k] == d,
            decreases width - c,
        {
            if self.sizes[c] > 0 {
                let ghost before = self.alphas@;
                self.alphas.push(c as u32);
                proof {
                    lemma_bucket_start_push(self.sizes@, before, c as u32, before.len() as int);
                }
                assert forall|d: int|
                    0 <= d < c + 1 && #[trigger] self.sizes@[d] > 0 implies exists|k: int|
                    0 <= k < self.alphas@.len() && #[trigger] self.alphas@[k] == d by {
                    if d == c {
                        assert(self.alphas@[before.len() as int] == d);
                    } else {
                        let k = choose|k: int| 0 <= k < before.len() && #[trigger] before[k] == d;
                        assert(self.alphas@[k] == d);
                    }
                }
            }
            c = c + 1;
        }
        self.ptrs = vec![0u32; width];
        proof {
            if n > 0 && top > 0 {
                let j = choose|j: int| 0 <= j < n && #[trigger] chars@[j] == top;
                assert(chars@[j] + 1 == self.ptrs@.len());
            } else if n > 0 {
                assert(chars@[0] <= top);
                assert(chars@[0] + 1 == self.ptrs@.len());
            }
        }
        assert(self.sizes@.len() == self.ptrs@.len());
        assert(self.covers(chars@));
        assert(self.wf());
        true
    }

    /// Sets each pointer to the first slot of its bucket.
    pub fn find_head_pointers(&mut self)
        requires
            old(self).wf(),
            bucket_start(old(self).sizes@, old(self).alphas@, old(self).alphas@.len() as int)
                <= u32::MAX,
        ensures
            final(self).wf(),
            final(self).sizes@ == old(self).sizes@,
            final(self).alphas@ == old(self).alphas@,
            final(self).ptrs@.len() == old(self).ptrs@.len(),
            forall|c: int|
                0 <= c < old(self).ptrs@.len() && (forall|k: int|
                    0 <= k < old(self).alphas@.len() ==> old(self).alphas@[k] != c) ==> #[trigger] final(self).ptrs@[c] == old(self).ptrs@[c],
            forall|k: int|
                0 <= k < final(self).alphas@.len() ==> final(self).ptrs@[#[trigger] final(self).alphas@[k] as int] == bucket_start(final(self).sizes@, final(self).alphas@, k),
    {
        let ghost sizes = self.sizes@;
        let ghost alphas = self.alphas@;
        let mut sum: u32 = 0;
        let mut k: usize = 0;
        while k < self.alphas.len()
            invariant
                self.wf(),
                self.sizes@ == sizes,
                self.alphas@ == alphas,
                sizes == old(self).sizes@,
                alphas == old(self).alphas@,
                self.ptrs@.len() == old(self).ptrs@.len(),
                k <= alphas.len(),
                bucket_start(sizes, alphas, alphas.len() as int) <= u32::MAX,
                sum == bucket_start(sizes, alphas, k as int),
                forall|c: int|
                    0 <= c < self.ptrs@.len() && (forall|j: int| 0 <= j < k ==> alphas[j] != c)
                        ==> #[trigger] self.ptrs@[c] == old(self).ptrs@[c],
                forall|j: int|
                    0 <= j < k ==> self.ptrs@[#[trigger] alphas[j] as int] == bucket_start(
                        sizes,
                        alphas,
                        j,
                    ),
            decreases alphas.len() - k,
        {
            let c = self.alphas[k];
            self.ptrs.set(c as usize, sum);
            let size = self.size(c);
            proof {
                lemma_bucket_start_monotone(sizes, alphas, k + 1, alphas.len() as int);
                assert(bucket_start(sizes, alphas, k + 1) == sum + size);
            }
            sum = sum + size;
            k = k + 1;
        }
    }

    /// Sets each pointer to the last slot of its bucket.
    pub fn find_tail_pointers(&mut self)
        requires
            old(self).wf(),
            bucket_start(old(self).sizes@, old(self).alphas@, old(self).alphas@.len() as int)
                <= u32::MAX,
        ensures
            final(self).wf(),
            final(self).sizes@ == old(self).sizes@,
            final(self).alphas@ == old(self).alphas@,
            final(self).ptrs@.len() == old(self).ptrs@.len(),
            forall|c: int|
                0 <= c < old(self).ptrs@.len() && (forall|k: int|
                    0 <= k < old(self).alphas@.len() ==> old(self).alphas@[k] != c) ==> #[trigger] final(self).ptrs@[c] == old(self).ptrs@[c],
            forall|k: int|
                0 <= k < final(self).alphas@.len() ==> final(self).ptrs@[#[trigger] final(self).alphas@[k] as int] == bucket_start(final(self).sizes@, final(self).alphas@, k + 1)
                    - 1,
    {
        let ghost sizes = self.sizes@;
        let ghost alphas = self.alphas@;
        let mut sum: u32 = 0;
        let mut k: usize = 0;
        while k < self.alphas.len()
            invariant
                self.wf(),
                self.sizes@ == sizes,
                self.alphas@ == alphas,
                sizes == old(self).sizes@,
                alphas == old(self).alphas@,
                self.ptrs@.len() == old(self).ptrs@.len(),
                k <= alphas.len(),
                bucket_start(sizes, alphas, alphas.len() as int) <= u32::MAX,
                sum == bucket_start(sizes, alphas, k as int),
                forall|c: int|
                    0 <= c < self.ptrs@.len() && (forall|j: int| 0 <= j < k ==> alphas[j] != c)
                        ==> #[trigger] self.ptrs@[c] == old(self).ptrs@[c],
                forall|j: int|
                    0 <= j < k ==> self.ptrs@[#[trigger] alphas[j] as int] == bucket_start(
                        sizes,
                        alphas,
                        j + 1,
                    ) - 1,
            decreases alphas.len() - k,
        {
            let c = self.alphas[k];
            let size = self.size(c);
            proof {
                lemma_bucket_start_monotone(sizes, alphas, k + 1, alphas.len() as int);
                assert(bucket_start(sizes, alphas, k + 1) == sum + size);
            }
            sum = sum + size;
            self.ptrs.set(c as usize, sum - 1);
            k = k + 1;
        }
    }

    /// Places `i` at the head pointer of bucket `c` and advances the pointer.
    /// Fails, writing nothing, where the pointer has left `sa`.
    pub fn head_insert(&mut self, sa: &mut Vec<u32>, i: u32, c: u32) -> (r: bool)
        requires
            old(self).wf(),
            c < old(self).ptrs@.len(),
            old(sa)@.len() <= u32::MAX,
        ensures
            final(self).wf(),
            final(self).sizes@ == old(self).sizes@,
            final(self).ptrs@.len() == old(self).ptrs@.len(),
            final(sa)@.len() == old(sa)@.len(),
            final(self).alphas@ == old(self).alphas@,
            r <==> old(self).ptrs@[c as int] < old(sa)@.len(),
            r ==> final(sa)@ == old(sa)@.update(old(self).ptrs@[c as int] as int, i),
            r ==> final(self).ptrs@ == old(self).ptrs@.update(c as int, (old(self).ptrs@[c as int] + 1) as u32),
    {
        let ptr = self.ptrs[c as usize];
        if ptr as usize >= sa.len() {
            return false;
        }
        sa.set(ptr as usize, i);
        self.ptrs.set(c as usize, ptr + 1);
        true
    }

    /// Places `i` at the tail pointer of bucket `c` and moves the pointer back,
    /// stopping at zero. Fails, writing nothing, where the pointer has left
    /// `sa`.
    pub fn tail_insert(&mut self, sa: &mut Vec<u32>, i: u32, c: u32) -> (r: bool)
        requires
            old(self).wf(),
            c < old(self).ptrs@.len(),
        ensures
            final(self).wf(),
            final(self).sizes@ == old(self).sizes@,
            final(self).ptrs@.len() == old(self).ptrs@.len(),
            final(sa)@.len() == old(sa)@.len(),
            final(self).alphas@ == old(self).alphas@,
            r <==> old(self).ptrs@[c as int] < old(sa)@.len(),
            r ==> final(sa)@ == old(sa)@.update(old(self).ptrs@[c as int] as int, i),
            r ==> final(self).ptrs@ == old(self).ptrs@.update(
                c as int,
                if old(self).ptrs@[c as int] > 0 {
                    (old(self).ptrs@[c as int] - 1) as u32
                } else {
                    0
                },
            ),
    {
        let ptr = self.ptrs[c as usize];
        if ptr as usize >= sa.len() {
            return false;
        }
        sa.set(ptr as usize, i);
        if ptr > 0 {
            self.ptrs.set(c as usize, ptr - 1);
        }
        true
    }

    /// Counts one more occurrence of `c`.
    pub fn inc_size(&mut self, c: u32)
        requires
            c < old(self).sizes@.len(),
            old(self).sizes@[c as int] < u32::MAX,
        ensures
            final(self).sizes@ == old(self).sizes@.update(c as int, (old(self).sizes@[c as int] + 1) as u32),
            final(self).alphas@ == old(self).alphas@,
            final(self).ptrs@ == old(self).ptrs@,
    {
        let size = self.sizes[c as usize];
        self.sizes.set(c as usize, size + 1);
    }

    /// How often `c` occurs.
    pub fn size(&self, c: u32) -> (r: u32)
        requires
            c < self.sizes@.len(),
        ensures
            r == self.sizes@[c as int],
    {
        self.sizes[c as usize]
    }
}

} // verus!
