//! Binary numbers of 64 bits as rounding makes them of fractions: 53 bits that count, and a power of
//! two. Halves go to the even neighbour.

use crate::bignum::{
    below, lemma_powers_positive, lemma_two_to_adds, lemma_two_to_grows, minus, times_plus,
    times_two_to, two_to, words_value,
};
use vstd::arithmetic::div_mod::{lemma_fundamental_div_mod, lemma_fundamental_div_mod_converse};
use vstd::prelude::*;

verus! {

/// The size of a binary number: `mant` times two to the power of `shift` less 1074.
#[verifier::ext_equal]
pub struct Size {
    pub mant: nat,
    pub shift: nat,
}

/// Zero.
pub open spec fn no_size() -> Size {
    Size { mant: 0, shift: 0 }
}

/// Whether a size is one that a binary number can have, in its one form.
pub open spec fn is_size(b: Size) -> bool {
    b.mant < two_to(53) && (b.mant >= two_to(52) || b.shift == 0) && b.shift <= 2045
}

/// Whether `a / d` units of the smallest size, shifted by `k`, take up no more than 53 bits.
pub open spec fn fits(a: nat, d: nat, k: nat) -> bool {
    a < d * two_to(k + 53)
}

/// The least shift from `k` on at which a fraction takes up no more than 53 bits.
pub open spec fn scale(a: nat, d: nat, k: nat) -> nat
    decreases 2046 - k,
{
    if k >= 2046 || fits(a, d, k) {
        k
    } else {
        scale(a, d, k + 1)
    }
}

/// The whole number nearest to a fraction; of two that are equally near, the even one.
pub open spec fn nearest(a: nat, t: nat) -> nat {
    let q = a / t;
    let r = a % t;
    if 2 * r > t || (2 * r == t && q % 2 == 1) {
        q + 1
    } else {
        q
    }
}

/// What `a / d` units of the smallest size are rounded to. What is too large has a shift beyond the
/// largest.
pub open spec fn rounded(a: nat, d: nat) -> Size {
    let k = scale(a, d, 0);
    let m = nearest(a, d * two_to(k));
    if m == two_to(53) {
        Size { mant: two_to(52), shift: k + 1 }
    } else {
        Size { mant: m, shift: k }
    }
}

/// Where the shift is found.
proof fn lemma_scale(a: nat, d: nat, k: nat)
    ensures
        scale(a, d, k) >= k,
        k <= 2046 ==> scale(a, d, k) <= 2046,
        scale(a, d, k) < 2046 ==> fits(a, d, scale(a, d, k)),
        forall|i: nat| k <= i < scale(a, d, k) ==> !fits(a, d, i),
    decreases 2046 - k,
{
    if k < 2046 && !fits(a, d, k) {
        lemma_scale(a, d, k + 1);
    }
}

/// The shift is the first at which a fraction takes up no more than 53 bits.
pub proof fn lemma_scale_known(a: nat, d: nat, k: nat, n: nat)
    requires
        k <= n < 2046,
        fits(a, d, n),
        forall|i: nat| k <= i < n ==> !fits(a, d, i),
    ensures
        scale(a, d, k) == n,
    decreases n - k,
{
    if k < n {
        assert(!fits(a, d, k));
        lemma_scale_known(a, d, k + 1, n);
    }
}

/// What is not too large is rounded to a size in its one form.
pub proof fn lemma_rounded_is_size(a: nat, d: nat)
    requires
        d > 0,
        rounded(a, d).shift <= 2045,
    ensures
        is_size(rounded(a, d)),
{
    let k = scale(a, d, 0);
    lemma_scale(a, d, 0);
    lemma_powers_positive(k);
    let p = two_to(k);
    let t = d * p;
    assert(t > 0) by (nonlinear_arith)
        requires
            d > 0,
            p > 0,
            t == d * p,
    ;
    lemma_fundamental_div_mod(a as int, t as int);
    let q = a / t;
    let r = a % t;
    assert(two_to(53) == 2 * two_to(52));
    lemma_two_to_adds(k, 53);
    assert(a < t * two_to(53)) by (nonlinear_arith)
        requires
            a < d * two_to(k + 53),
            two_to(k + 53) == two_to(k) * two_to(53),
            t == d * two_to(k),
    ;
    assert(q < two_to(53)) by (nonlinear_arith)
        requires
            a == t * q + r,
            0 <= r,
            a < t * two_to(53),
            t > 0,
    ;
    lemma_powers_positive(52);
    if k > 0 {
        assert(!fits(a, d, (k - 1) as nat));
        lemma_two_to_adds(k, 52);
        assert(a >= t * two_to(52)) by (nonlinear_arith)
            requires
                a >= d * two_to((k + 52) as nat),
                two_to(k + 52) == two_to(k) * two_to(52),
                t == d * two_to(k),
        ;
        assert(q >= two_to(52)) by (nonlinear_arith)
            requires
                a == t * q + r,
                r < t,
                a >= t * two_to(52),
                t > 0,
        ;
    }
}

/// A size is rounded to itself.
pub proof fn lemma_rounded_exact(b: Size, a: nat, d: nat)
    requires
        is_size(b),
        d > 0,
        a == d * (b.mant * two_to(b.shift)),
    ensures
        rounded(a, d) == b,
{
    let p = two_to(b.shift);
    lemma_powers_positive(b.shift);
    lemma_two_to_adds(b.shift, 53);
    assert(fits(a, d, b.shift)) by (nonlinear_arith)
        requires
            a == d * (b.mant * p),
            b.mant < two_to(53),
            p > 0,
            d > 0,
            two_to(b.shift + 53) == p * two_to(53),
            fits(a, d, b.shift) == (a < d * two_to(b.shift + 53)),
    ;
    assert forall|i: nat| 0 <= i < b.shift implies !fits(a, d, i) by {
        lemma_two_to_grows(i + 53, b.shift + 52);
        lemma_two_to_adds(b.shift, 52);
        assert(!(a < d * two_to(i + 53))) by (nonlinear_arith)
            requires
                a == d * (b.mant * p),
                b.mant >= two_to(52),
                d > 0,
                p > 0,
                two_to(b.shift + 52) == p * two_to(52),
                two_to(i + 53) <= two_to(b.shift + 52),
        ;
    }
    lemma_scale_known(a, d, 0, b.shift);
    let t = d * p;
    assert(t > 0) by (nonlinear_arith)
        requires
            d > 0,
            p > 0,
            t == d * p,
    ;
    assert(a == b.mant * t + 0) by (nonlinear_arith)
        requires
            a == d * (b.mant * p),
            t == d * p,
    ;
    lemma_fundamental_div_mod_converse(a as int, t as int, b.mant as int, 0);
}

/// Enlarging both sides of a fraction changes nothing.
pub proof fn lemma_rounded_scaled(a: nat, d: nat, c: nat)
    requires
        d > 0,
        c > 0,
    ensures
        rounded(a * c, d * c) == rounded(a, d),
{
    assert forall|i: nat| fits(a * c, d * c, i) == fits(a, d, i) by {
        let p = two_to(i + 53);
        assert((a * c < (d * c) * p) == (a < d * p)) by (nonlinear_arith)
            requires
                c > 0,
        ;
    }
    lemma_scale_same(a, d, c, 0);
    let k = scale(a, d, 0);
    lemma_powers_positive(k);
    let t = d * two_to(k);
    assert(t > 0) by (nonlinear_arith)
        requires
            d > 0,
            two_to(k) > 0,
            t == d * two_to(k),
    ;
    assert((d * c) * two_to(k) == t * c) by (nonlinear_arith)
        requires
            t == d * two_to(k),
    ;
    lemma_fundamental_div_mod(a as int, t as int);
    let q = a / t;
    let r = a % t;
    assert(a * c == q * (t * c) + r * c) by (nonlinear_arith)
        requires
            a == t * q + r,
    ;
    assert(0 <= r * c < t * c) by (nonlinear_arith)
        requires
            0 <= r < t,
            c > 0,
    ;
    lemma_fundamental_div_mod_converse((a * c) as int, (t * c) as int, q as int, (r * c) as int);
    assert((2 * (r * c) > t * c) == (2 * r > t)) by (nonlinear_arith)
        requires
            c > 0,
    ;
    assert((2 * (r * c) == t * c) == (2 * r == t)) by (nonlinear_arith)
        requires
            c > 0,
    ;
}

proof fn lemma_scale_same(a: nat, d: nat, c: nat, k: nat)
    requires
        forall|i: nat| fits(a * c, d * c, i) == fits(a, d, i),
    ensures
        scale(a * c, d * c, k) == scale(a, d, k),
    decreases 2046 - k,
{
    assert(fits(a * c, d * c, k) == fits(a, d, k));
    if k < 2046 && !fits(a, d, k) {
        lemma_scale_same(a, d, c, k + 1);
    }
}

/// What is rounded to something is less than twice that.
pub proof fn lemma_rounded_near(a: nat, d: nat)
    requires
        d > 0,
        rounded(a, d).mant > 0,
    ensures
        a < 2 * (rounded(a, d).mant * two_to(rounded(a, d).shift) * d),
{
    let k = scale(a, d, 0);
    lemma_powers_positive(k);
    let p = two_to(k);
    let t = d * p;
    assert(t > 0) by (nonlinear_arith)
        requires
            d > 0,
            p > 0,
            t == d * p,
    ;
    lemma_fundamental_div_mod(a as int, t as int);
    let q = a / t;
    let m = nearest(a, t);
    assert(two_to(53) == 2 * two_to(52));
    assert(two_to(k + 1) == 2 * p);
    let b = rounded(a, d);
    assert(b.mant * two_to(b.shift) == m * p) by (nonlinear_arith)
        requires
            (b.mant == m && two_to(b.shift) == p) || (2 * b.mant == m && two_to(b.shift) == 2 * p),
    ;
    assert(m >= 1 && q <= m);
    assert(a < 2 * (m * p * d)) by (nonlinear_arith)
        requires
            a == t * q + (a % t),
            a % t < t,
            q <= m,
            m >= 1,
            t == d * p,
            t > 0,
    ;
}

/// What is beyond the range is rounded to something that is too large.
pub proof fn lemma_rounded_too_large(a: nat, d: nat)
    requires
        d > 0,
        a >= d * two_to(2098),
    ensures
        rounded(a, d).shift >= 2046,
{
    lemma_scale(a, d, 0);
    let k = scale(a, d, 0);
    if k <= 2045 {
        assert(fits(a, d, k));
        lemma_two_to_grows(k + 53, 2098);
        assert(d * two_to(k + 53) <= d * two_to(2098)) by (nonlinear_arith)
            requires
                two_to(k + 53) <= two_to(2098),
        ;
    }
}

/// What is too large is not zero.
pub proof fn lemma_too_large_is_some(a: nat, d: nat)
    requires
        d > 0,
        rounded(a, d).shift >= 2046,
    ensures
        rounded(a, d).mant > 0,
{
    lemma_scale(a, d, 0);
    lemma_powers_positive(52);
    let k = scale(a, d, 0);
    if k == 2046 {
        assert(!fits(a, d, 2045));
        let p = two_to(2046);
        let t = d * p;
        lemma_powers_positive(2046);
        lemma_two_to_adds(2046, 52);
        assert(t > 0) by (nonlinear_arith)
            requires
                d > 0,
                p > 0,
                t == d * p,
        ;
        lemma_fundamental_div_mod(a as int, t as int);
        assert(a >= t) by (nonlinear_arith)
            requires
                a >= d * two_to(2098),
                two_to(2098) == p * two_to(52),
                two_to(52) >= 1,
                t == d * p,
                t > 0,
        ;
        assert(a / t >= 1) by (nonlinear_arith)
            requires
                a == t * (a / t) + a % t,
                a % t < t,
                a >= t,
                t > 0,
        ;
    }
}

/// A whole number of up to 53 bits is rounded to itself.
pub proof fn lemma_rounded_whole(n: nat)
    requires
        0 < n < two_to(53),
    ensures
        ({
            let b = rounded(n * two_to(1074), 1);
            b.shift <= 1074 && b.mant == n * two_to((1074 - b.shift) as nat)
        }),
{
    let a = n * two_to(1074);
    lemma_two_to_adds(1074, 53);
    lemma_powers_positive(1074);
    assert(fits(a, 1, 1074)) by (nonlinear_arith)
        requires
            a == n * two_to(1074),
            n < two_to(53),
            two_to(1074) > 0,
            two_to(1074 + 53) == two_to(1074) * two_to(53),
            fits(a, 1, 1074) == (a < 1 * two_to(1074 + 53)),
    ;
    lemma_scale(a, 1, 0);
    let k = scale(a, 1, 0);
    assert(k <= 1074);
    let rest = (1074 - k) as nat;
    lemma_two_to_adds(k, rest);
    lemma_powers_positive(k);
    let t = two_to(k);
    let q = n * two_to(rest);
    assert(1 * t == t);
    assert(a == q * t + 0) by (nonlinear_arith)
        requires
            a == n * two_to(1074),
            two_to(1074) == t * two_to(rest),
            q == n * two_to(rest),
    ;
    lemma_fundamental_div_mod_converse(a as int, t as int, q as int, 0);
    lemma_two_to_adds(k, 53);
    assert(q < two_to(53)) by (nonlinear_arith)
        requires
            a == q * t,
            a < 1 * two_to(k + 53),
            two_to(k + 53) == t * two_to(53),
            t > 0,
    ;
}

/// Less than half of the smallest size is rounded to zero.
pub proof fn lemma_rounded_to_nothing(a: nat, d: nat)
    requires
        2 * a < d,
    ensures
        rounded(a, d) == no_size(),
{
    lemma_powers_positive(53);
    assert(fits(a, d, 0)) by (nonlinear_arith)
        requires
            2 * a < d,
            two_to(53) >= 1,
            fits(a, d, 0) == (a < d * two_to(53)),
    ;
    assert(d * two_to(0) == d) by (nonlinear_arith)
        requires
            two_to(0) == 1,
    ;
    assert(a == 0 * d + a);
    lemma_fundamental_div_mod_converse(a as int, d as int, 0, a as int);
}

/// The quotient and the rest of a division whose quotient has at most `i` bits.
fn divide(a: &Vec<u32>, t: &Vec<u32>, i: u32) -> (res: (u64, Vec<u32>))
    requires
        i <= 53,
        words_value(t@) > 0,
        words_value(a@) < words_value(t@) * two_to(i as nat),
    ensures
        res.0 < two_to(i as nat),
        words_value(a@) == words_value(t@) * res.0 + words_value(res.1@),
        words_value(res.1@) < words_value(t@),
    decreases i,
{
    let ghost x = words_value(a@);
    let ghost y = words_value(t@);
    if i == 0 {
        assert(two_to(0) == 1);
        assert(y * 1 == y && y * 0 == 0) by (nonlinear_arith);
        return (0, times_plus(a, 1, 0));
    }
    let twice = times_plus(t, 2, 0);
    assert((y * 2) * two_to((i - 1) as nat) == y * two_to(i as nat)) by (nonlinear_arith)
        requires
            two_to(i as nat) == 2 * two_to((i - 1) as nat),
    ;
    let (q, r): (u64, Vec<u32>) = divide(a, &twice, i - 1);
    proof {
        lemma_two_to_grows(i as nat, 53);
        lemma_53();
        assert((y * 2) * q == y * (2 * q)) by (nonlinear_arith);
        assert(y * (2 * q + 1) == y * (2 * q) + y) by (nonlinear_arith);
    }
    if below(&r, t) {
        (2 * q, r)
    } else {
        (2 * q + 1, minus(&r, t))
    }
}

pub proof fn lemma_53()
    ensures
        two_to(53) == 0x20_0000_0000_0000,
        two_to(52) == 0x10_0000_0000_0000,
{
    reveal_with_fuel(two_to, 54);
}

/// Rounds a fraction of units of the smallest size. Nothing comes back where it is too large.
pub fn round(a: &Vec<u32>, d: &Vec<u32>) -> (res: Option<(u64, u32)>)
    requires
        words_value(d@) > 0,
    ensures
        match res {
            Some((m, k)) => rounded(words_value(a@), words_value(d@)) == (Size {
                mant: m as nat,
                shift: k as nat,
            }) && k <= 2045,
            None => rounded(words_value(a@), words_value(d@)).shift >= 2046,
        },
{
    let ghost x = words_value(a@);
    let ghost y = words_value(d@);
    let mut t = times_plus(d, 1, 0);
    let mut bound = times_two_to(d, 53);
    let mut k: u32 = 0;
    proof {
        assert(y * two_to(0) == y) by (nonlinear_arith)
            requires
                two_to(0) == 1,
        ;
        lemma_53();
    }
    while k < 2046 && !below(a, &bound)
        invariant
            k <= 2046,
            x == words_value(a@),
            words_value(t@) == y * two_to(k as nat),
            words_value(bound@) == y * two_to((k + 53) as nat),
            scale(x, y, 0) == scale(x, y, k as nat),
        decreases 2046 - k,
    {
        proof {
            assert(!fits(x, y, k as nat));
            let p = two_to(k as nat);
            let q = two_to((k + 53) as nat);
            assert((y * p) * 2 == y * (2 * p)) by (nonlinear_arith);
            assert((y * q) * 2 == y * (2 * q)) by (nonlinear_arith);
            assert(two_to((k + 1) as nat) == 2 * p);
            assert(two_to((k + 54) as nat) == 2 * q);
        }
        t = times_plus(&t, 2, 0);
        bound = times_plus(&bound, 2, 0);
        k += 1;
    }
    if k >= 2046 {
        return None;
    }
    proof {
        assert(fits(x, y, k as nat));
        lemma_powers_positive(k as nat);
        lemma_two_to_adds(k as nat, 53);
        let p = two_to(k as nat);
        assert(y * p > 0) by (nonlinear_arith)
            requires
                y > 0,
                p > 0,
        ;
        assert(x < (y * p) * two_to(53)) by (nonlinear_arith)
            requires
                x < y * two_to((k + 53) as nat),
                two_to((k + 53) as nat) == p * two_to(53),
        ;
    }
    let (q, r): (u64, Vec<u32>) = divide(a, &t, 53);
    let twice = times_plus(&r, 2, 0);
    proof {
        let z = words_value(t@);
        let rest = words_value(r@);
        assert(x == q * z + rest) by (nonlinear_arith)
            requires
                x == z * q + rest,
        ;
        lemma_fundamental_div_mod_converse(x as int, z as int, q as int, rest as int);
    }
    let up = below(&t, &twice) || (!below(&twice, &t) && q % 2 == 1);
    let m: u64 = if up {
        q + 1
    } else {
        q
    };
    if m == 0x20_0000_0000_0000 {
        if k == 2045 {
            None
        } else {
            Some((0x10_0000_0000_0000, k + 1))
        }
    } else {
        Some((m, k))
    }
}

} // verus!
