//! Greatest common divisors, a linear sieve, and factorisation over its
//! primes.
use vstd::prelude::*;
use vstd::arithmetic::div_mod::{lemma_div_by_multiple, lemma_fundamental_div_mod, lemma_mod_multiples_basic};

verus! {

/// Euclid's recurrence for the greatest common divisor.
pub open spec fn spec_gcd(a: nat, b: nat) -> nat
    decreases b,
{
    if b == 0 {
        a
    } else {
        spec_gcd(b, a % b)
    }
}

/// `b` to the power `e`.
pub open spec fn power(b: int, e: nat) -> int
    decreases e,
{
    if e == 0 {
        1
    } else {
        b * power(b, (e - 1) as nat)
    }
}

/// The product of `p^c` over the pairs `(p, c)` of a factorisation.
pub open spec fn factor_product(fs: Seq<(usize, usize)>) -> int
    decreases fs.len(),
{
    if fs.len() == 0 {
        1
    } else {
        factor_product(fs.drop_last()) * power(fs.last().0 as int, fs.last().1 as nat)
    }
}

/// The greatest common divisor of `a` and `b`.
pub fn gcd(a: u64, b: u64) -> (r: u64)
    ensures
        r == spec_gcd(a as nat, b as nat),
    decreases b,
{
    if b == 0 {
        a
    } else {
        gcd(b, a % b)
    }
}

/// A linear sieve up to `n`: the smallest factor table `minf`, in which each
/// `m` in `2..=n` has a factor `minf[m]` with `2 <= minf[m] <= m`, and the
/// list of the `m` with `minf[m] == m`, in increasing order.
pub fn euler_vec(n: usize) -> (r: (Vec<usize>, Vec<usize>))
    requires
        n < usize::MAX,
    ensures
        r.0@.len() == n + 1,
        r.0@[0] == 0,
        n >= 1 ==> r.0@[1] == 0,
        forall|m: int| 2 <= m <= n ==> 2 <= #[trigger] r.0@[m] <= m && m % (r.0@[m] as int) == 0,
        forall|k: int| 0 <= k < r.1@.len() ==> 2 <= #[trigger] r.1@[k] <= n && r.0@[r.1@[k] as int] == r.1@[k],
        forall|k: int, l: int| 0 <= k < l < r.1@.len() ==> #[trigger] r.1@[k] < #[trigger] r.1@[l],
        forall|m: int| 2 <= m <= n && #[trigger] r.0@[m] == m ==> exists|k: int|
            0 <= k < r.1@.len() && #[trigger] r.1@[k] == m,
{
    let mut minf: Vec<usize> = vec![0usize; n + 1];
    let mut pr: Vec<usize> = Vec::new();
    let mut i: usize = 2;
    while i <= n
        invariant
            n < usize::MAX,
            2 <= i,
            i <= n + 1 || i == 2,
            minf@.len() == n + 1,
            minf@[0] == 0,
            n >= 1 ==> minf@[1] == 0,
            forall|m: int| 2 <= m < i ==> 2 <= #[trigger] minf@[m] <= m && m % (minf@[m] as int) == 0,
            forall|m: int|
                i <= m <= n ==> #[trigger] minf@[m] == 0 || (2 <= minf@[m] < m && m % (minf@[m] as int)
                    == 0),
            forall|k: int| 0 <= k < pr@.len() ==> 2 <= #[trigger] pr@[k] < i && minf@[pr@[k] as int] == pr@[k],
            forall|k: int, l: int| 0 <= k < l < pr@.len() ==> #[trigger] pr@[k] < #[trigger] pr@[l],
            forall|m: int| 2 <= m < i && #[trigger] minf@[m] == m ==> exists|k: int|
                0 <= k < pr@.len() && #[trigger] pr@[k] == m,
        decreases n + 1 - i,
    {
        if minf[i] == 0 {
            minf.set(i, i);
            let ghost before = pr@;
            pr.push(i);
            assert forall|m: int| 2 <= m < i + 1 && #[trigger] minf@[m] == m implies exists|k: int|
                0 <= k < pr@.len() && #[trigger] pr@[k] == m by {
                if m == i {
                    assert(pr@[before.len() as int] == m);
                } else {
                    let k = choose|k: int| 0 <= k < before.len() && #[trigger] before[k] == m;
                    assert(pr@[k] == m);
                }
            }
        }
        assert(i % i == 0);
        let mut j: usize = 0;
        while j < pr.len()
            invariant
                n < usize::MAX,
                2 <= i <= n,
                minf@.len() == n + 1,
                minf@[0] == 0,
                minf@[1] == 0,
                2 <= minf@[i as int] <= i,
                forall|m: int| 2 <= m <= i ==> 2 <= #[trigger] minf@[m] <= m && m % (minf@[m] as int) == 0,
                forall|m: int|
                    i < m <= n ==> #[trigger] minf@[m] == 0 || (2 <= minf@[m] < m && m % (minf@[m] as int)
                        == 0),
                forall|k: int| 0 <= k < pr@.len() ==> 2 <= #[trigger] pr@[k] <= i && minf@[pr@[k] as int] == pr@[k],
                forall|k: int, l: int| 0 <= k < l < pr@.len() ==> #[trigger] pr@[k] < #[trigger] pr@[l],
                forall|m: int| 2 <= m <= i && #[trigger] minf@[m] == m ==> exists|k: int|
                    0 <= k < pr@.len() && #[trigger] pr@[k] == m,
            decreases pr@.len() - j,
        {
            let p = pr[j];
            if p > minf[i] || p > n / i {
                break;
            }
            proof {
                assert(i * p <= n) by (nonlinear_arith)
                    requires
                        p <= n / i,
                        i >= 2,
                ;
                assert(i * p > i) by (nonlinear_arith)
                    requires
                        p >= 2,
                        i >= 2,
                ;
                lemma_mod_multiples_basic(i as int, p as int);
            }
            let ip = i * p;
            minf.set(ip, p);
            j = j + 1;
        }
        i = i + 1;
    }
    let r = (minf, pr);
    proof {
        assert forall|m: int| 2 <= m <= n && #[trigger] r.0@[m] == m implies exists|k: int|
            0 <= k < r.1@.len() && #[trigger] r.1@[k] == m by {
            assert(2 <= m < i);
            assert(r.0@[m] == minf@[m]);
            assert(exists|k: int| 0 <= k < pr@.len() && #[trigger] pr@[k] == m);
            let k = choose|k: int| 0 <= k < pr@.len() && #[trigger] pr@[k] == m;
            assert(r.1@[k] == m);
        }
    }
    r
}

/// `p^c` never falls below `c + 1` for `p >= 2`.
proof fn lemma_power_exceeds(p: int, c: nat)
    requires
        p >= 2,
    ensures
        power(p, c) > c,
        power(p, c) >= 1,
    decreases c,
{
    if c > 0 {
        lemma_power_exceeds(p, (c - 1) as nat);
        assert(p * power(p, (c - 1) as nat) >= 2 * power(p, (c - 1) as nat)) by (nonlinear_arith)
            requires
                p >= 2,
                power(p, (c - 1) as nat) >= 1,
        ;
    }
}

/// The prime factorisation of `n` by trial division over `pr`: pairs
/// `(p, c)` whose powers `p^c` multiply to `n`. With `pr` the primes up to
/// `√n`, the pairs are the prime powers of `n`.
pub fn factorize(n: usize, pr: &Vec<usize>) -> (r: Vec<(usize, usize)>)
    requires
        n >= 1,
        forall|k: int| 0 <= k < pr@.len() ==> #[trigger] pr@[k] >= 2,
    ensures
        factor_product(r@) == n,
        forall|k: int| 0 <= k < r@.len() ==> (#[trigger] r@[k]).0 >= 2 && r@[k].1 >= 1,
{
    let ghost orig = n as int;
    let mut n = n;
    let mut ans: Vec<(usize, usize)> = Vec::new();
    let mut idx: usize = 0;
    while idx < pr.len()
        invariant
            n >= 1,
            forall|k: int| 0 <= k < pr@.len() ==> #[trigger] pr@[k] >= 2,
            orig == n * factor_product(ans@),
            factor_product(ans@) >= 1,
            forall|k: int| 0 <= k < ans@.len() ==> (#[trigger] ans@[k]).0 >= 2 && ans@[k].1 >= 1,
        decreases pr@.len() - idx,
    {
        let p = pr[idx];
        if p > n / p {
            break;
        }
        if n % p == 0 {
            let mut cnt: usize = 0;
            while n % p == 0
                invariant
                    n >= 1,
                    p >= 2,
                    orig == n * power(p as int, cnt as nat) * factor_product(ans@),
                    factor_product(ans@) >= 1,
                    cnt == 0 ==> n % p == 0,
                    n * power(p as int, cnt as nat) <= usize::MAX,
                decreases n,
            {
                let ghost before = n as int;
                proof {
                    lemma_fundamental_div_mod(n as int, p as int);
                    lemma_power_exceeds(p as int, cnt as nat);
                    lemma_power_exceeds(p as int, (cnt + 1) as nat);
                    assert(n as int == p * (n / p));
                }
                n = n / p;
                proof {
                    assert(n >= 1) by (nonlinear_arith)
                        requires
                            before == p * n,
                            before >= 1,
                            p >= 2,
                            n >= 0,
                    ;
                    assert(power(p as int, (cnt + 1) as nat) == p * power(p as int, cnt as nat));
                    assert(before * power(p as int, cnt as nat) == n * power(p as int, (cnt + 1) as nat))
                        by (nonlinear_arith)
                        requires
                            before == p * n,
                            power(p as int, (cnt + 1) as nat) == p * power(p as int, cnt as nat),
                    ;
                    assert(cnt + 1 < power(p as int, (cnt + 1) as nat));
                    assert(power(p as int, (cnt + 1) as nat) <= n * power(p as int, (cnt + 1) as nat))
                        by (nonlinear_arith)
                        requires
                            n >= 1,
                            power(p as int, (cnt + 1) as nat) >= 1,
                    ;
                    assert(n < before) by (nonlinear_arith)
                        requires
                            before == p * n,
                            n >= 1,
                            p >= 2,
                    ;
                }
                cnt = cnt + 1;
            }
            let ghost before = ans@;
            ans.push((p, cnt));
            proof {
                assert(ans@.drop_last() == before);
                lemma_power_exceeds(p as int, cnt as nat);
                assert(n * (power(p as int, cnt as nat) * factor_product(before)) == n * power(
                    p as int,
                    cnt as nat,
                ) * factor_product(before)) by (nonlinear_arith);
                assert(cnt >= 1) by {
                    if cnt == 0 {
                        assert(n % p != 0);
                    }
                }
            }
            proof {
                assert(factor_product(ans@) == factor_product(before) * power(p as int, cnt as nat));
                assert(orig == n * factor_product(ans@)) by (nonlinear_arith)
                    requires
                        orig == n * power(p as int, cnt as nat) * factor_product(before),
                        factor_product(ans@) == factor_product(before) * power(p as int, cnt as nat),
                ;
                assert(factor_product(ans@) >= 1) by (nonlinear_arith)
                    requires
                        factor_product(ans@) == factor_product(before) * power(p as int, cnt as nat),
                        factor_product(before) >= 1,
                        power(p as int, cnt as nat) >= 1,
                ;
            }
        }
        idx = idx + 1;
    }
    if n != 1 {
        let ghost before = ans@;
        ans.push((n, 1));
        proof {
            assert(ans@.drop_last() == before);
            assert(power(n as int, 1) == n * power(n as int, 0));
            assert(factor_product(ans@) == factor_product(before) * power(n as int, 1));
            assert(orig == factor_product(ans@)) by (nonlinear_arith)
                requires
                    orig == n * factor_product(before),
                    factor_product(ans@) == factor_product(before) * n,
            ;
        }
    }
    ans
}

/// `d` divides `m`.
pub open spec fn divides(d: int, m: int) -> bool {
    exists|y: int| #[trigger] (d * y) == m
}

proof fn lemma_divides_trans(a: int, b: int, c: int)
    requires
        divides(a, b),
        divides(b, c),
    ensures
        divides(a, c),
{
    let x = choose|x: int| #[trigger] (a * x) == b;
    let y = choose|y: int| #[trigger] (b * y) == c;
    assert(a * (x * y) == c) by (nonlinear_arith)
        requires
            a * x == b,
            b * y == c,
    ;
}

proof fn lemma_divides_antisym(a: nat, b: nat)
    requires
        divides(a as int, b as int),
        divides(b as int, a as int),
    ensures
        a == b,
{
    let x = choose|x: int| #[trigger] (a * x) == b as int;
    let y = choose|y: int| #[trigger] (b * y) == a as int;
    if a != 0 && b != 0 {
        assert(x * y == 1) by (nonlinear_arith)
            requires
                a * x == b,
                b * y == a,
                a > 0,
        ;
        assert(x >= 0) by (nonlinear_arith)
            requires
                a * x == b,
                a > 0,
                b >= 0,
        ;
        assert(x == 1) by (nonlinear_arith)
            requires
                x * y == 1,
                x >= 0,
        ;
        assert(b == a) by (nonlinear_arith)
            requires
                a * x == b,
                x == 1,
        ;
    } else if a == 0 {
        assert(b == 0) by (nonlinear_arith)
            requires
                a * x == b,
                a == 0,
        ;
    } else {
        assert(a == 0) by (nonlinear_arith)
            requires
                b * y == a,
                b == 0,
        ;
    }
}

/// The Euclidean gcd divides both arguments.
pub proof fn lemma_gcd_divides(a: nat, b: nat)
    ensures
        divides(spec_gcd(a, b) as int, a as int),
        divides(spec_gcd(a, b) as int, b as int),
    decreases b,
{
    let g = spec_gcd(a, b) as int;
    if b == 0 {
        assert(g * 1 == a);
        assert(g * 0 == 0);
    } else {
        lemma_gcd_divides(b, a % b);
        lemma_fundamental_div_mod(a as int, b as int);
        let x = choose|x: int| #[trigger] (g * x) == b as int;
        let y = choose|y: int| #[trigger] (g * y) == (a % b) as int;
        assert(g * (x * (a as int / b as int) + y) == a) by (nonlinear_arith)
            requires
                g * x == b,
                g * y == a % b,
                a == b * (a as int / b as int) + a % b,
        ;
    }
}

/// Every common divisor of the arguments divides their Euclidean gcd.
pub proof fn lemma_gcd_greatest(a: nat, b: nat, d: int)
    requires
        divides(d, a as int),
        divides(d, b as int),
    ensures
        divides(d, spec_gcd(a, b) as int),
    decreases b,
{
    if b > 0 {
        lemma_fundamental_div_mod(a as int, b as int);
        let x = choose|x: int| #[trigger] (d * x) == a as int;
        let y = choose|y: int| #[trigger] (d * y) == b as int;
        assert(d * (x - y * (a as int / b as int)) == a % b) by (nonlinear_arith)
            requires
                d * x == a,
                d * y == b,
                a == b * (a as int / b as int) + a % b,
        ;
        lemma_gcd_greatest(b, a % b, d);
    }
}

/// The Euclidean gcd is associative.
pub proof fn lemma_gcd_associative(a: nat, b: nat, c: nat)
    ensures
        spec_gcd(spec_gcd(a, b), c) == spec_gcd(a, spec_gcd(b, c)),
{
    let ab = spec_gcd(a, b);
    let bc = spec_gcd(b, c);
    let g1 = spec_gcd(ab, c);
    let g2 = spec_gcd(a, bc);
    lemma_gcd_divides(a, b);
    lemma_gcd_divides(b, c);
    lemma_gcd_divides(ab, c);
    lemma_gcd_divides(a, bc);
    lemma_divides_trans(g1 as int, ab as int, a as int);
    lemma_divides_trans(g1 as int, ab as int, b as int);
    lemma_gcd_greatest(b, c, g1 as int);
    lemma_gcd_greatest(a, bc, g1 as int);
    lemma_divides_trans(g2 as int, bc as int, b as int);
    lemma_divides_trans(g2 as int, bc as int, c as int);
    lemma_gcd_greatest(a, b, g2 as int);
    lemma_gcd_greatest(ab, c, g2 as int);
    lemma_divides_antisym(g1, g2);
}

/// The Euclidean gcd is commutative.
pub proof fn lemma_gcd_commutative(a: nat, b: nat)
    ensures
        spec_gcd(a, b) == spec_gcd(b, a),
{
    lemma_gcd_divides(a, b);
    lemma_gcd_divides(b, a);
    lemma_gcd_greatest(a, b, spec_gcd(b, a) as int);
    lemma_gcd_greatest(b, a, spec_gcd(a, b) as int);
    lemma_divides_antisym(spec_gcd(a, b), spec_gcd(b, a));
}

proof fn lemma_power_split(p: int, j: nat, c: nat)
    requires
        j <= c,
    ensures
        power(p, j) * power(p, (c - j) as nat) == power(p, c),
    decreases c,
{
    if j < c {
        lemma_power_split(p, j, (c - 1) as nat);
        assert(power(p, (c - j) as nat) == p * power(p, (c - 1 - j) as nat));
        assert(power(p, j) * (p * power(p, (c - 1 - j) as nat)) == p * (power(p, j) * power(
            p,
            (c - 1 - j) as nat,
        ))) by (nonlinear_arith);
    }
}

proof fn lemma_power_positive(p: int, c: nat)
    requires
        p >= 1,
    ensures
        power(p, c) >= 1,
    decreases c,
{
    if c > 0 {
        lemma_power_positive(p, (c - 1) as nat);
        assert(p * power(p, (c - 1) as nat) >= 1) by (nonlinear_arith)
            requires
                p >= 1,
                power(p, (c - 1) as nat) >= 1,
        ;
    }
}

proof fn lemma_product_prefix(fs: Seq<(usize, usize)>, k: int)
    requires
        0 <= k <= fs.len(),
        forall|i: int| 0 <= i < fs.len() ==> (#[trigger] fs[i]).0 >= 1,
    ensures
        1 <= factor_product(fs.take(k)) <= factor_product(fs),
    decreases fs.len(),
{
    if fs.len() > 0 {
        let last = fs.last();
        lemma_power_positive(last.0 as int, last.1 as nat);
        if k == fs.len() {
            assert(fs.take(k) == fs);
            lemma_product_prefix(fs.drop_last(), k - 1);
            assert(fs.drop_last().take(k - 1) == fs.drop_last());
        } else {
            lemma_product_prefix(fs.drop_last(), k);
            assert(fs.drop_last().take(k) == fs.take(k));
        }
        assert(factor_product(fs.drop_last()) <= factor_product(fs)) by (nonlinear_arith)
            requires
                factor_product(fs) == factor_product(fs.drop_last()) * power(last.0 as int, last.1 as nat),
                factor_product(fs.drop_last()) >= 1,
                power(last.0 as int, last.1 as nat) >= 1,
        ;
    } else {
        assert(fs.take(k) == fs);
    }
}

/// The number of divisors that a factorisation `(p, c)` pairs describes:
/// the product of `c + 1` over the pairs.
pub open spec fn divisor_count(fs: Seq<(usize, usize)>) -> int
    decreases fs.len(),
{
    if fs.len() == 0 {
        1
    } else {
        divisor_count(fs.drop_last()) * (fs.last().1 + 1)
    }
}

/// Every divisor of the number whose factorisation is `pfactor`, `1` and the
/// number itself included, each as the product of one choice of prime powers.
pub fn gen_all_factors(pfactor: &Vec<(usize, usize)>) -> (r: Vec<usize>)
    requires
        forall|k: int| 0 <= k < pfactor@.len() ==> (#[trigger] pfactor@[k]).0 >= 1,
        factor_product(pfactor@) <= usize::MAX,
    ensures
        r@.len() >= 1,
        r@.len() == divisor_count(pfactor@),
        r@[0] == 1,
        forall|i: int| 0 <= i < r@.len() ==> #[trigger] r@[i] >= 1 && divides(
            r@[i] as int,
            factor_product(pfactor@),
        ),
{
    let ghost fs = pfactor@;
    let mut ans: Vec<usize> = vec![1];
    let mut idx: usize = 0;
    proof {
        assert(fs.take(0) =~= Seq::<(usize, usize)>::empty());
        assert(1 * 1 == 1);
    }
    while idx < pfactor.len()
        invariant
            fs == pfactor@,
            forall|k: int| 0 <= k < fs.len() ==> (#[trigger] fs[k]).0 >= 1,
            factor_product(fs) <= usize::MAX,
            idx <= fs.len(),
            ans@.len() >= 1,
            ans@.len() == divisor_count(fs.take(idx as int)),
            ans@[0] == 1,
            forall|i: int| 0 <= i < ans@.len() ==> #[trigger] ans@[i] >= 1 && divides(
                ans@[i] as int,
                factor_product(fs.take(idx as int)),
            ),
        decreases fs.len() - idx,
    {
        let (p, c) = pfactor[idx];
        let ghost pp = factor_product(fs.take(idx as int));
        let ghost next = factor_product(fs.take(idx + 1));
        proof {
            assert(fs.take(idx + 1).drop_last() == fs.take(idx as int));
            assert(next == pp * power(p as int, c as nat));
            lemma_product_prefix(fs, idx + 1);
            lemma_product_prefix(fs, idx as int);
            lemma_power_positive(p as int, c as nat);
            assert(next >= 1) by (nonlinear_arith)
                requires
                    next == pp * power(p as int, c as nat),
                    pp >= 1,
                    power(p as int, c as nat) >= 1,
            ;
        }
        let k = ans.len();
        let mut base: usize = 1;
        let mut e: usize = 0;
        proof {
            assert forall|i: int| 0 <= i < ans@.len() implies #[trigger] ans@[i] >= 1 && divides(
                ans@[i] as int,
                next,
            ) by {
                let y = choose|y: int| #[trigger] (ans@[i] * y) == pp;
                assert(ans@[i] * (y * power(p as int, c as nat)) == next) by (nonlinear_arith)
                    requires
                        ans@[i] * y == pp,
                        next == pp * power(p as int, c as nat),
                ;
            }
        }
        while e < c
            invariant
                fs == pfactor@,
                p >= 1,
                e <= c,
                k <= ans@.len(),
                ans@.len() == k + e * k,
                base == power(p as int, e as nat),
                pp >= 1,
                next == pp * power(p as int, c as nat),
                next <= usize::MAX,
                next >= 1,
                ans@[0] == 1,
                forall|i: int| 0 <= i < k ==> #[trigger] ans@[i] >= 1 && divides(ans@[i] as int, pp),
                forall|i: int| 0 <= i < ans@.len() ==> #[trigger] ans@[i] >= 1 && divides(
                    ans@[i] as int,
                    next,
                ),
            decreases c - e,
        {
            proof {
                lemma_power_split(p as int, (e + 1) as nat, c as nat);
                lemma_power_positive(p as int, (c - e - 1) as nat);
                lemma_power_positive(p as int, (e + 1) as nat);
                assert(power(p as int, (e + 1) as nat) == p * power(p as int, e as nat));
                assert(power(p as int, (e + 1) as nat) <= next) by (nonlinear_arith)
                    requires
                        power(p as int, (e + 1) as nat) * power(p as int, (c - e - 1) as nat) == power(p as int, c as nat),
                        power(p as int, (c - e - 1) as nat) >= 1,
                        power(p as int, (e + 1) as nat) >= 1,
                        next == pp * power(p as int, c as nat),
                        pp >= 1,
                ;
            }
            base = base * p;
            e = e + 1;
            let mut i: usize = 0;
            while i < k
                invariant
                    fs == pfactor@,
                    p >= 1,
                    1 <= e <= c,
                    k <= ans@.len(),
                    base == power(p as int, e as nat),
                    base >= 1,
                    pp >= 1,
                    next == pp * power(p as int, c as nat),
                    next <= usize::MAX,
                    next >= 1,
                    power(p as int, e as nat) * power(p as int, (c - e) as nat) == power(p as int, c as nat),
                    ans@[0] == 1,
                    i <= k,
                    ans@.len() == k + (e - 1) * k + i,
                    forall|j: int| 0 <= j < k ==> #[trigger] ans@[j] >= 1 && divides(ans@[j] as int, pp),
                    forall|j: int| 0 <= j < ans@.len() ==> #[trigger] ans@[j] >= 1 && divides(
                        ans@[j] as int,
                        next,
                    ),
                decreases k - i,
            {
                let x = ans[i];
                let ghost y = choose|y: int| #[trigger] (x * y) == pp;
                let ghost w = y * power(p as int, (c - e) as nat);
                proof {
                    assert(x * base * w == next) by (nonlinear_arith)
                        requires
                            x * y == pp,
                            w == y * power(p as int, (c - e) as nat),
                            base == power(p as int, e as nat),
                            power(p as int, e as nat) * power(p as int, (c - e) as nat) == power(p as int, c as nat),
                            next == pp * power(p as int, c as nat),
                    ;
                    assert(w >= 1) by (nonlinear_arith)
                        requires
                            x * base * w == next,
                            x >= 1,
                            base >= 1,
                            next >= 1,
                    ;
                    assert(x * base <= next) by (nonlinear_arith)
                        requires
                            x * base * w == next,
                            w >= 1,
                            x >= 1,
                            base >= 1,
                    ;
                    assert(x * base >= 1) by (nonlinear_arith)
                        requires
                            x >= 1,
                            base >= 1,
                    ;
                }
                let v = x * base;
                ans.push(v);
                proof {
                    assert((x * base) * w == next);
                }
                i = i + 1;
            }
            assert(ans@.len() == k + e * k) by (nonlinear_arith)
                requires
                    ans@.len() == k + (e - 1) * k + k,
            ;
        }
        proof {
            assert(power(p as int, (c - c) as nat) == 1);
            assert(fs.take(idx + 1).drop_last() == fs.take(idx as int));
            assert(fs.take(idx + 1).last() == (p, c));
            assert(ans@.len() == divisor_count(fs.take(idx as int)) * (c + 1)) by (nonlinear_arith)
                requires
                    ans@.len() == k + c * k,
                    k == divisor_count(fs.take(idx as int)),
            ;
        }
        idx = idx + 1;
    }
    proof {
        assert(fs.take(fs.len() as int) == fs);
    }
    ans
}

/// Euler's totient of `n` by trial division over `pr`; it never exceeds `n`.
pub fn calc_phi(n: usize, pr: &Vec<usize>) -> (r: usize)
    requires
        n >= 1,
        forall|k: int| 0 <= k < pr@.len() ==> #[trigger] pr@[k] >= 2,
    ensures
        r <= n,
{
    let mut n = n;
    let ghost orig = n;
    let mut ans: usize = n;
    let mut idx: usize = 0;
    while idx < pr.len()
        invariant
            n >= 1,
            ans <= orig,
            forall|k: int| 0 <= k < pr@.len() ==> #[trigger] pr@[k] >= 2,
        decreases pr@.len() - idx,
    {
        let i = pr[idx];
        if i > ans / i {
            break;
        }
        if n % i == 0 {
            proof {
                assert(ans / i * (i - 1) <= ans) by (nonlinear_arith)
                    requires
                        i >= 2,
                        ans >= 0,
                ;
            }
            ans = ans / i * (i - 1);
            while n % i == 0
                invariant
                    n >= 1,
                    i >= 2,
                decreases n,
            {
                proof {
                    lemma_fundamental_div_mod(n as int, i as int);
                    assert(n / i >= 1 && n / i < n) by (nonlinear_arith)
                        requires
                            n == i * (n / i) + n % i,
                            n % i == 0,
                            n >= 1,
                            i >= 2,
                    ;
                }
                n = n / i;
            }
        }
        idx = idx + 1;
    }
    if n > 1 {
        proof {
            assert(ans / n * (n - 1) <= ans) by (nonlinear_arith)
                requires
                    n >= 2,
                    ans >= 0,
            ;
        }
        ans = ans / n * (n - 1);
    }
    ans
}

} // verus!
