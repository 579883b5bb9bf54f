//! What numerals stand for, and how exactly they are rounded.

use crate::bignum::{lemma_powers_positive, ten_to, two_to};
use crate::binary::{is_size, lemma_rounded_is_size, nearest, rounded, scale, Size};
use crate::numeral::{
    clamped, exponent, lemma_digits_end, lemma_strip_back, lemma_strip_front, mantissa, read, strip_back,
    strip_front, whole_size, BILLIONTH,
};
use crate::shortest::{floor_at, lemma_place, place, reads_as, shortest_digits};
use crate::text::{
    all_digits, digits_value, is_numeral, lemma_past_digits, past_digits, past_mantissa, past_sign,
};
use vstd::arithmetic::div_mod::lemma_fundamental_div_mod;
use vstd::prelude::*;

verus! {

/// The size of a difference.
pub open spec fn gap(a: nat, b: nat) -> int {
    if a <= b {
        b - a
    } else {
        a - b
    }
}

/// The nearest whole number is at most half a unit away, and where it is half a unit away it is even.
pub proof fn law_nearest(a: nat, t: nat)
    requires
        t > 0,
    ensures
        2 * gap(a, nearest(a, t) * t) <= t,
        2 * gap(a, nearest(a, t) * t) == t ==> nearest(a, t) % 2 == 0,
{
    lemma_fundamental_div_mod(a as int, t as int);
    let q = a / t;
    let r = a % t;
    let m = nearest(a, t);
    assert(a == t * q + r);
    assert((q + 1) * t == t * q + t) by (nonlinear_arith);
    assert(q * t == t * q) by (nonlinear_arith);
    assert(0 <= r < t);
}

/// A fraction is rounded to a size at most half a unit of that size away, to the even one where it lies
/// in the middle; the size has all the bits there are unless it is of the smallest unit.
pub proof fn law_rounding(a: nat, d: nat)
    requires
        d > 0,
        rounded(a, d).shift <= 2045,
    ensures
        ({
            let b = rounded(a, d);
            let ulp = d * two_to(b.shift);
            &&& 2 * gap(a, b.mant * ulp) <= ulp
            &&& 2 * gap(a, b.mant * ulp) == ulp ==> b.mant % 2 == 0
            &&& b.mant < two_to(53)
            &&& b.shift == 0 || b.mant >= two_to(52)
        }),
{
    let b = rounded(a, d);
    let k = scale(a, d, 0);
    let p = two_to(k);
    let t = d * p;
    lemma_rounded_is_size(a, d);
    lemma_powers_positive(k);
    assert(t > 0) by (nonlinear_arith)
        requires
            d > 0,
            p > 0,
            t == d * p,
    ;
    law_nearest(a, t);
    let m = nearest(a, t);
    if m == two_to(53) {
        assert(two_to(53) == 2 * two_to(52));
        assert(two_to(k + 1) == 2 * p);
        let h = two_to(52);
        assert(h * (d * (2 * p)) == (2 * h) * (d * p)) by (nonlinear_arith);
        assert(d * (2 * p) == 2 * t) by (nonlinear_arith)
            requires
                t == d * p,
        ;
    }
}

/// The nearest whole number for a name: the only one less than a billionth away, and none where there is
/// none.
pub proof fn law_whole_numbers(b: Size, n: nat)
    requires
        b.shift < 1074,
    ensures
        ({
            let q = two_to((1074 - b.shift) as nat);
            &&& whole_size(b) == Some(n) ==> gap(b.mant, n * q) * two_to(82) < BILLIONTH * q
            &&& whole_size(b) is None ==> gap(b.mant, n * q) * two_to(82) >= BILLIONTH * q
        }),
{
    let k = (1074 - b.shift) as nat;
    let q = two_to(k);
    lemma_powers_positive(k);
    lemma_powers_positive(82);
    lemma_fundamental_div_mod(b.mant as int, q as int);
    let w = b.mant / q;
    let r = b.mant % q;
    let e = two_to(82);
    assert(b.mant == q * w + r);
    assert(w * q == q * w) by (nonlinear_arith);
    assert((w + 1) * q == q * w + q) by (nonlinear_arith);
    if whole_size(b) is None {
        let g = gap(b.mant, n * q);
        if n <= w {
            assert(n * q <= w * q) by (nonlinear_arith)
                requires
                    n <= w,
            ;
            assert(g >= r);
            assert(g * e >= r * e) by (nonlinear_arith)
                requires
                    g >= r,
                    e > 0,
            ;
        } else {
            assert(n * q >= (w + 1) * q) by (nonlinear_arith)
                requires
                    n >= w + 1,
            ;
            assert(g >= q - r);
            assert(g * e >= (q - r) * e) by (nonlinear_arith)
                requires
                    g >= q - r,
                    e > 0,
            ;
        }
    }
}

/// A size of whole units is a whole number itself.
pub proof fn law_large_numbers(b: Size)
    requires
        b.shift >= 1074,
    ensures
        whole_size(b) == Some(b.mant * two_to((b.shift - 1074) as nat)),
{
}

/// A whole number is kept as far as 64 bits with a sign reach, and cut off beyond.
pub proof fn law_clamped(size: nat)
    ensures
        i64::MIN <= clamped(true, size) <= 0 <= clamped(false, size) <= i64::MAX,
        size <= i64::MAX ==> clamped(false, size) == size && clamped(true, size) == -(size as int),
        size > i64::MAX ==> clamped(false, size) == i64::MAX && clamped(true, size) == i64::MIN,
{
}

proof fn lemma_leading(s: Seq<char>, k: int)
    requires
        0 <= k <= s.len(),
        forall|i: int| 0 <= i < k ==> #[trigger] s[i] == '0',
    ensures
        digits_value(s) == digits_value(s.skip(k)),
    decreases s.len(),
{
    if s.len() == 0 {
        assert(s.skip(k) =~= s);
    } else if k == s.len() {
        let head = s.drop_last();
        lemma_leading(head, k - 1);
        assert(head.skip(k - 1) =~= Seq::<char>::empty());
        assert(s.skip(k) =~= Seq::<char>::empty());
        assert(s[k - 1] == '0');
    } else {
        let head = s.drop_last();
        lemma_leading(head, k);
        assert(s.skip(k).drop_last() =~= head.skip(k));
        assert(s.skip(k).last() == s.last());
    }
}

proof fn lemma_trailing(s: Seq<char>, k: int)
    requires
        0 <= k <= s.len(),
        forall|i: int| k <= i < s.len() ==> #[trigger] s[i] == '0',
    ensures
        digits_value(s) == digits_value(s.take(k)) * ten_to((s.len() - k) as nat),
    decreases s.len() - k,
{
    if k == s.len() {
        assert(s.take(k) =~= s);
        assert(digits_value(s) * 1 == digits_value(s)) by (nonlinear_arith);
    } else {
        let head = s.drop_last();
        lemma_trailing(head, k);
        assert(head.take(k) =~= s.take(k));
        assert(s[s.len() - 1] == '0');
        let v = digits_value(s.take(k));
        let t = ten_to((head.len() - k) as nat);
        assert(ten_to((s.len() - k) as nat) == 10 * t);
        assert((v * t) * 10 == v * (10 * t)) by (nonlinear_arith);
    }
}

/// A numeral is read exactly: its digits are those between the first and the last that is not nought, and
/// the place of the point makes up for the noughts left out and for the exponent.
pub proof fn law_numerals_are_read_exactly(s: Seq<char>) -> (k: nat)
    requires
        is_numeral(s),
    ensures
        ({
            let d = read(s);
            let m = mantissa(s);
            let before = past_digits(s, past_sign(s, 0)) - past_sign(s, 0);
            &&& d.digits.len() == 0 <==> digits_value(m) == 0
            &&& d.digits.len() > 0 ==> {
                &&& digits_value(m) == digits_value(d.digits) * ten_to(k)
                &&& d.point - d.digits.len() == k + (before - m.len()) + exponent(s)
                &&& d.negative <==> s[0] == '-'
                &&& d.digits[0] != '0' && d.digits.last() != '0'
            }
        }),
{
    let m = mantissa(s);
    let front = strip_front(m);
    let digits = strip_back(front);
    lemma_strip_front(m);
    lemma_strip_back(front);
    let lead = m.len() - front.len();
    lemma_leading(m, lead);
    lemma_trailing(front, digits.len() as int);
    let k = (front.len() - digits.len()) as nat;
    lemma_powers_positive(k);
    if digits.len() == 0 {
        assert(front.take(0) =~= Seq::<char>::empty());
        assert(0 * ten_to(k) == 0) by (nonlinear_arith);
    } else {
        assert(digits[0] == front[0]);
        let a = past_sign(s, 0);
        let w = past_digits(s, a);
        lemma_past_digits(s, a);
        if w < s.len() && s[w] == '.' {
            lemma_past_digits(s, w + 1);
        }
        assert forall|i: int| 0 <= i < m.len() implies '0' <= #[trigger] m[i] <= '9' by {
            if i < w - a {
                assert(m[i] == s[a + i]);
            } else {
                assert(m[i] == s[w + 1 + (i - (w - a))]);
            }
        }
        assert forall|i: int| 0 <= i < digits.len() implies '0' <= #[trigger] digits[i] <= '9' by {
            assert(digits[i] == front[i] && front[i] == m[lead + i]);
        }
        lemma_first_counts(digits);
        let v = digits_value(digits);
        let t = ten_to(k);
        assert(v * t > 0) by (nonlinear_arith)
            requires
                v > 0,
                t > 0,
        ;
    }
    k
}

proof fn lemma_first_counts(s: Seq<char>)
    requires
        s.len() > 0,
        s[0] != '0',
        all_digits(s),
    ensures
        digits_value(s) > 0,
    decreases s.len(),
{
    assert('0' <= s[0] <= '9');
    if s.len() > 1 {
        let head = s.drop_last();
        assert forall|i: int| 0 <= i < head.len() implies '0' <= #[trigger] head[i] <= '9' by {
            assert(head[i] == s[i]);
        }
        lemma_first_counts(head);
    } else {
        assert(s.drop_last() =~= Seq::<char>::empty());
        assert(s.last() == s[0]);
    }
}

/// The parts of a numeral: a sign or none, the digits around a point, and an exponent with a sign or none.
pub proof fn law_parts_of_a_numeral(
    sign: Seq<char>,
    w: Seq<char>,
    f: Seq<char>,
    up: Seq<char>,
    e: Seq<char>,
    letter: char,
)
    requires
        sign.len() == 0 || sign == seq!['-'] || sign == seq!['+'],
        up.len() == 0 || up == seq!['-'] || up == seq!['+'],
        all_digits(w),
        all_digits(f),
        all_digits(e),
        w.len() + f.len() > 0,
        e.len() > 0,
        letter == 'e' || letter == 'E',
    ensures
        ({
            let s = sign + w + seq!['.'] + f + seq![letter] + up + e;
            &&& is_numeral(s)
            &&& mantissa(s) == w + f
            &&& exponent(s) == (if up == seq!['-'] {
                -(digits_value(e) as int)
            } else {
                digits_value(e) as int
            })
            &&& past_digits(s, past_sign(s, 0)) - past_sign(s, 0) == w.len()
        }),
{
    let s = sign + w + seq!['.'] + f + seq![letter] + up + e;
    let a = sign.len() as int;
    let b = a + w.len();
    let c = b + 1 + f.len();
    let g = c + 1 + up.len();
    assert(s[b] == '.');
    assert(s[c] == letter);
    assert forall|k: int| a <= k < b implies '0' <= #[trigger] s[k] <= '9' by {
        assert(s[k] == w[k - a]);
    }
    assert forall|k: int| b + 1 <= k < c implies '0' <= #[trigger] s[k] <= '9' by {
        assert(s[k] == f[k - b - 1]);
    }
    assert forall|k: int| g <= k < s.len() implies '0' <= #[trigger] s[k] <= '9' by {
        assert(s[k] == e[k - g]);
    }
    if a == 0 {
        if w.len() > 0 {
            assert('0' <= s[0] <= '9');
        }
    } else {
        assert(s[0] == sign[0]);
    }
    assert(past_sign(s, 0) == a);
    lemma_digits_end(s, a, b);
    lemma_digits_end(s, b + 1, c);
    assert(past_mantissa(s, a) == c);
    if up.len() == 0 {
        assert('0' <= s[c + 1] <= '9');
    } else {
        assert(s[c + 1] == up[0]);
    }
    assert(past_sign(s, c + 1) == g);
    lemma_digits_end(s, g, s.len() as int);
    if w.len() > 0 {
        assert('0' <= s[a] <= '9');
    } else {
        assert('0' <= s[b + 1] <= '9');
    }
    assert(s.subrange(a, b) =~= w);
    assert(s.subrange(b + 1, c) =~= f);
    assert(s.skip(g) =~= e);
}

/// The shortest decimal of a size is taken at the first place at which one of the two decimals around the
/// size is rounded to it: at an earlier place neither is.
pub proof fn law_shortest_place(b: Size, i: nat)
    requires
        is_size(b),
        b.mant > 0,
        i < place(b, 0),
    ensures
        !reads_as(floor_at(b, i), i, b),
        !reads_as(floor_at(b, i) + 1, i, b),
        shortest_digits(b) == floor_at(b, place(b, 0)) || shortest_digits(b) == floor_at(b, place(b, 0)) + 1,
{
    lemma_place(b, 0);
}

} // verus!
