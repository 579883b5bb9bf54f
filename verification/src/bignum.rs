//! Natural numbers of any size, in words of 32 bits with the lowest first.

use vstd::prelude::*;

verus! {

/// Two to a power.
pub open spec fn two_to(k: nat) -> nat
    decreases k,
{
    if k == 0 {
        1
    } else {
        2 * two_to((k - 1) as nat)
    }
}

/// Ten to a power.
pub open spec fn ten_to(k: nat) -> nat
    decreases k,
{
    if k == 0 {
        1
    } else {
        10 * ten_to((k - 1) as nat)
    }
}

/// The weight of the word at a place.
pub open spec fn weight(k: nat) -> nat
    decreases k,
{
    if k == 0 {
        1
    } else {
        0x1_0000_0000 * weight((k - 1) as nat)
    }
}

/// The number that some words stand for.
pub open spec fn words_value(s: Seq<u32>) -> nat
    decreases s.len(),
{
    if s.len() == 0 {
        0
    } else {
        words_value(s.drop_last()) + weight((s.len() - 1) as nat) * s.last() as nat
    }
}

pub proof fn lemma_two_to_adds(a: nat, b: nat)
    ensures
        two_to(a + b) == two_to(a) * two_to(b),
    decreases b,
{
    if b > 0 {
        lemma_two_to_adds(a, (b - 1) as nat);
        assert(two_to(a + b) == 2 * two_to((a + b - 1) as nat));
        assert(2 * (two_to(a) * two_to((b - 1) as nat)) == two_to(a) * (2 * two_to((b - 1) as nat)))
            by (nonlinear_arith);
    } else {
        assert(two_to(a) * 1 == two_to(a)) by (nonlinear_arith);
    }
}

pub proof fn lemma_ten_to_adds(a: nat, b: nat)
    ensures
        ten_to(a + b) == ten_to(a) * ten_to(b),
    decreases b,
{
    if b > 0 {
        lemma_ten_to_adds(a, (b - 1) as nat);
        assert(ten_to(a + b) == 10 * ten_to((a + b - 1) as nat));
        assert(10 * (ten_to(a) * ten_to((b - 1) as nat)) == ten_to(a) * (10 * ten_to(
            (b - 1) as nat,
        ))) by (nonlinear_arith);
    } else {
        assert(ten_to(a) * 1 == ten_to(a)) by (nonlinear_arith);
    }
}

pub proof fn lemma_powers_positive(k: nat)
    ensures
        two_to(k) >= 1,
        ten_to(k) >= 1,
        weight(k) >= 1,
    decreases k,
{
    if k > 0 {
        lemma_powers_positive((k - 1) as nat);
    }
}

pub proof fn lemma_two_to_grows(a: nat, b: nat)
    requires
        a <= b,
    ensures
        two_to(a) <= two_to(b),
    decreases b,
{
    lemma_powers_positive(b);
    if a < b {
        lemma_two_to_grows(a, (b - 1) as nat);
    }
}

pub proof fn lemma_ten_to_grows(a: nat, b: nat)
    requires
        a <= b,
    ensures
        ten_to(a) <= ten_to(b),
    decreases b,
{
    lemma_powers_positive(b);
    if a < b {
        lemma_ten_to_grows(a, (b - 1) as nat);
    }
}

/// Some words stand for less than the weight of the next place.
proof fn lemma_words_bound(s: Seq<u32>)
    ensures
        words_value(s) < weight(s.len()),
    decreases s.len(),
{
    if s.len() > 0 {
        let n = (s.len() - 1) as nat;
        lemma_words_bound(s.drop_last());
        let w = weight(n);
        let x = s.last() as nat;
        assert(w * x + w <= 0x1_0000_0000 * w) by (nonlinear_arith)
            requires
                x + 1 <= 0x1_0000_0000,
                w >= 0,
        ;
    }
}

/// A number times a word, plus a word.
pub fn times_plus(v: &Vec<u32>, m: u32, c: u32) -> (res: Vec<u32>)
    ensures
        words_value(res@) == words_value(v@) * m + c,
{
    let mut out: Vec<u32> = Vec::new();
    let mut carry: u32 = c;
    let mut i: usize = 0;
    proof {
        assert(words_value(out@) == 0);
        assert(weight(0) == 1);
        assert(words_value(v@.take(0)) == 0);
        assert(0 * m == 0) by (nonlinear_arith);
    }
    while i < v.len()
        invariant
            i <= v@.len(),
            out@.len() == i,
            words_value(out@) + weight(i as nat) * carry as nat == words_value(v@.take(i as int)) * m
                + c,
        decreases v@.len() - i,
    {
        let ghost start = out@;
        let ghost old_carry = carry as nat;
        let x: u32 = v[i];
        assert((x as int) * (m as int) <= 0xffff_ffff * 0xffff_ffff) by (nonlinear_arith)
            requires
                0 <= x <= 0xffff_ffff,
                0 <= m <= 0xffff_ffff,
        ;
        let wide: u64 = (x as u64) * (m as u64) + carry as u64;
        let low: u32 = (wide % 0x1_0000_0000) as u32;
        let high: u32 = (wide / 0x1_0000_0000) as u32;
        out.push(low);
        carry = high;
        proof {
            let w = weight(i as nat);
            assert(out@.drop_last() =~= start);
            let t = v@.take(i + 1);
            assert(t.drop_last() =~= v@.take(i as int));
            assert(t.last() == x);
            assert(weight((i + 1) as nat) == 0x1_0000_0000 * w);
            assert(wide == low + 0x1_0000_0000 * high);
            let vi = words_value(v@.take(i as int));
            assert(w * low + 0x1_0000_0000 * w * high == w * (x * m + old_carry))
                by (nonlinear_arith)
                requires
                    x * m + old_carry == low + 0x1_0000_0000 * high,
            ;
            assert(w * (x * m + old_carry) == (w * x) * m + w * old_carry) by (nonlinear_arith);
            assert((vi + w * x) * m == vi * m + (w * x) * m) by (nonlinear_arith);
        }
        i += 1;
    }
    assert(v@.take(i as int) =~= v@);
    if carry != 0 {
        let ghost start = out@;
        out.push(carry);
        assert(out@.drop_last() =~= start);
    } else {
        assert(weight(i as nat) * 0 == 0) by (nonlinear_arith);
    }
    out
}

fn word_at(v: &Vec<u32>, i: usize) -> (res: u32)
    ensures
        res == (if i < v@.len() {
            v@[i as int]
        } else {
            0
        }),
{
    if i < v.len() {
        v[i]
    } else {
        0
    }
}

/// The words with zeros behind them up to a length.
pub open spec fn padded(s: Seq<u32>, n: nat) -> Seq<u32> {
    Seq::new(
        n,
        |i: int|
            if i < s.len() {
                s[i]
            } else {
                0u32
            },
    )
}

proof fn lemma_padded(s: Seq<u32>, n: nat)
    requires
        s.len() <= n,
    ensures
        words_value(padded(s, n)) == words_value(s),
    decreases n,
{
    if n == s.len() {
        assert(padded(s, n) =~= s);
    } else {
        let p = padded(s, n);
        assert(p.drop_last() =~= padded(s, (n - 1) as nat));
        lemma_padded(s, (n - 1) as nat);
        assert(weight((n - 1) as nat) * 0 == 0) by (nonlinear_arith);
    }
}

/// Whether a number is less than another.
pub fn below(a: &Vec<u32>, b: &Vec<u32>) -> (res: bool)
    ensures
        res == (words_value(a@) < words_value(b@)),
{
    let n: usize = if a.len() < b.len() {
        b.len()
    } else {
        a.len()
    };
    let ghost x = padded(a@, n as nat);
    let ghost y = padded(b@, n as nat);
    let mut less = false;
    let mut i: usize = 0;
    assert(words_value(x.take(0)) == 0 && words_value(y.take(0)) == 0);
    while i < n
        invariant
            i <= n,
            x == padded(a@, n as nat),
            y == padded(b@, n as nat),
            less == (words_value(x.take(i as int)) < words_value(y.take(i as int))),
        decreases n - i,
    {
        let p: u32 = word_at(a, i);
        let q: u32 = word_at(b, i);
        proof {
            let w = weight(i as nat);
            let tx = x.take(i + 1);
            let ty = y.take(i + 1);
            assert(tx.drop_last() =~= x.take(i as int));
            assert(ty.drop_last() =~= y.take(i as int));
            assert(tx.last() == p && ty.last() == q);
            lemma_words_bound(x.take(i as int));
            lemma_words_bound(y.take(i as int));
            if p < q {
                assert(w * p + w <= w * q) by (nonlinear_arith)
                    requires
                        p + 1 <= q,
                        w >= 0,
                ;
            } else if q < p {
                assert(w * q + w <= w * p) by (nonlinear_arith)
                    requires
                        q + 1 <= p,
                        w >= 0,
                ;
            }
        }
        if p != q {
            less = p < q;
        }
        i += 1;
    }
    proof {
        assert(x.take(n as int) =~= x);
        assert(y.take(n as int) =~= y);
        lemma_padded(a@, n as nat);
        lemma_padded(b@, n as nat);
    }
    less
}

/// A number less another that is not greater.
pub fn minus(a: &Vec<u32>, b: &Vec<u32>) -> (res: Vec<u32>)
    requires
        words_value(b@) <= words_value(a@),
    ensures
        words_value(res@) == words_value(a@) - words_value(b@),
{
    let n: usize = if a.len() < b.len() {
        b.len()
    } else {
        a.len()
    };
    let ghost x = padded(a@, n as nat);
    let ghost y = padded(b@, n as nat);
    let mut out: Vec<u32> = Vec::new();
    let mut borrow: u64 = 0;
    let mut i: usize = 0;
    proof {
        assert(words_value(x.take(0)) == 0 && words_value(y.take(0)) == 0);
        assert(words_value(out@) == 0);
        assert(weight(0) * 0 == 0);
    }
    while i < n
        invariant
            i <= n,
            x == padded(a@, n as nat),
            y == padded(b@, n as nat),
            out@.len() == i,
            borrow <= 1,
            words_value(out@) + words_value(y.take(i as int)) == words_value(x.take(i as int))
                + weight(i as nat) * borrow as nat,
        decreases n - i,
    {
        let ghost start = out@;
        let ghost old_borrow = borrow as nat;
        let p: u32 = word_at(a, i);
        let q: u32 = word_at(b, i);
        let need: u64 = q as u64 + borrow;
        let d: u32;
        if (p as u64) < need {
            d = (0x1_0000_0000 + p as u64 - need) as u32;
            borrow = 1;
        } else {
            d = (p as u64 - need) as u32;
            borrow = 0;
        }
        out.push(d);
        proof {
            let w = weight(i as nat);
            assert(out@.drop_last() =~= start);
            let tx = x.take(i + 1);
            let ty = y.take(i + 1);
            assert(tx.drop_last() =~= x.take(i as int));
            assert(ty.drop_last() =~= y.take(i as int));
            assert(tx.last() == p && ty.last() == q);
            assert(weight((i + 1) as nat) == 0x1_0000_0000 * w);
            let nb = borrow as nat;
            assert(d + q + old_borrow == p + 0x1_0000_0000 * nb);
            assert(w * d + w * q + w * old_borrow == w * p + 0x1_0000_0000 * w * nb)
                by (nonlinear_arith)
                requires
                    d + q + old_borrow == p + 0x1_0000_0000 * nb,
            ;
        }
        i += 1;
    }
    proof {
        assert(x.take(n as int) =~= x);
        assert(y.take(n as int) =~= y);
        lemma_padded(a@, n as nat);
        lemma_padded(b@, n as nat);
        lemma_words_bound(out@);
        if borrow == 1 {
            assert(weight(n as nat) * 1 == weight(n as nat)) by (nonlinear_arith);
        } else {
            assert(weight(n as nat) * 0 == 0) by (nonlinear_arith);
        }
    }
    out
}

/// A number times two to a power.
pub fn times_two_to(v: &Vec<u32>, k: u32) -> (res: Vec<u32>)
    ensures
        words_value(res@) == words_value(v@) * two_to(k as nat),
{
    let mut out = times_plus(v, 1, 0);
    let mut i: u32 = 0;
    assert(words_value(v@) * two_to(0) == words_value(v@)) by (nonlinear_arith)
        requires
            two_to(0) == 1,
    ;
    while i < k
        invariant
            i <= k,
            words_value(out@) == words_value(v@) * two_to(i as nat),
        decreases k - i,
    {
        out = times_plus(&out, 2, 0);
        proof {
            let a = words_value(v@);
            let b = two_to(i as nat);
            assert((a * b) * 2 == a * (2 * b)) by (nonlinear_arith);
            assert(two_to((i + 1) as nat) == 2 * b);
        }
        i += 1;
    }
    out
}

/// A number times ten to a power.
pub fn times_ten_to(v: &Vec<u32>, k: u128) -> (res: Vec<u32>)
    ensures
        words_value(res@) == words_value(v@) * ten_to(k as nat),
{
    let mut out = times_plus(v, 1, 0);
    let mut i: u128 = 0;
    assert(words_value(v@) * ten_to(0) == words_value(v@)) by (nonlinear_arith)
        requires
            ten_to(0) == 1,
    ;
    while i < k
        invariant
            i <= k,
            words_value(out@) == words_value(v@) * ten_to(i as nat),
        decreases k - i,
    {
        out = times_plus(&out, 10, 0);
        proof {
            let a = words_value(v@);
            let b = ten_to(i as nat);
            assert((a * b) * 10 == a * (10 * b)) by (nonlinear_arith);
            assert(ten_to((i + 1) as nat) == 10 * b);
        }
        i += 1;
    }
    out
}

} // verus!
