//! Decimal numerals as binary numbers of 64 bits: read and rounded, written in plain form with the
//! fewest digits that tell the number apart, and shown as in a name.

use crate::bignum::{
    lemma_powers_positive, lemma_ten_to_adds, lemma_two_to_adds, lemma_two_to_grows, ten_to, two_to,
};
use crate::binary::{
    fits, is_size, lemma_53, lemma_rounded_exact, lemma_rounded_is_size, lemma_rounded_scaled,
    lemma_rounded_to_nothing, lemma_rounded_whole, lemma_scale_known, lemma_too_large_is_some,
    no_size, rounded, Size,
};
use crate::shortest::{
    decimal_size, lemma_decimal_too_large, lemma_decimal_too_small, lemma_digits_bound,
    lemma_shortest, lemma_shortest_bound, place, round_decimal, shortest, shortest_digits, unit,
};
use crate::text::{
    all_digits, append_signed, decimal, digit_between, digit_char, digit_str, digits_value,
    is_numeral, lemma_past_digits, numeral, past_digits, past_mantissa, past_sign, signed_decimal,
    skip_digits, skip_mantissa, skip_sign,
};
use vstd::arithmetic::div_mod::lemma_fundamental_div_mod_converse;
use vstd::prelude::*;
use vstd::string::*;

verus! {

/// A decimal number: the digits behind the point, times ten to the power of `point`.
#[verifier::ext_equal]
pub struct Decimal {
    pub negative: bool,
    /// Neither the first nor the last is zero. None stand for zero.
    pub digits: Seq<char>,
    pub point: int,
}

/// Zero.
pub open spec fn nothing() -> Decimal {
    Decimal { negative: false, digits: Seq::empty(), point: 0 }
}

/// A row without the zeros at its front.
pub open spec fn strip_front(s: Seq<char>) -> Seq<char>
    decreases s.len(),
{
    if s.len() > 0 && s[0] == '0' {
        strip_front(s.drop_first())
    } else {
        s
    }
}

/// A row without the zeros at its end.
pub open spec fn strip_back(s: Seq<char>) -> Seq<char>
    decreases s.len(),
{
    if s.len() > 0 && s.last() == '0' {
        strip_back(s.drop_last())
    } else {
        s
    }
}

/// A row of zeros.
pub open spec fn zeros(n: int) -> Seq<char> {
    Seq::new(n as nat, |i: int| '0')
}

/// The digits of a numeral before and behind its point, in one row.
pub open spec fn mantissa(s: Seq<char>) -> Seq<char> {
    let a = past_sign(s, 0);
    let w = past_digits(s, a);
    let c = past_mantissa(s, a);
    s.subrange(a, w) + (if w < c {
        s.subrange(w + 1, c)
    } else {
        Seq::empty()
    })
}

/// The exponent of a numeral.
pub open spec fn exponent(s: Seq<char>) -> int {
    let c = past_mantissa(s, past_sign(s, 0));
    if c < s.len() {
        let size = digits_value(s.skip(past_sign(s, c + 1)));
        if s[c + 1] == '-' {
            -size
        } else {
            size as int
        }
    } else {
        0
    }
}

/// The number that a numeral stands for.
pub open spec fn read(s: Seq<char>) -> Decimal {
    let a = past_sign(s, 0);
    let m = mantissa(s);
    let front = strip_front(m);
    let digits = strip_back(front);
    if digits.len() == 0 {
        nothing()
    } else {
        Decimal {
            negative: s[0] == '-',
            digits,
            point: past_digits(s, a) - a - (m.len() - front.len()) + exponent(s),
        }
    }
}

/// A binary number of 64 bits. Beyond the largest it stands for an infinite one.
#[verifier::ext_equal]
pub struct Binary {
    pub negative: bool,
    pub size: Size,
}

/// The number that a numeral is rounded to. Zero has no sign.
#[verifier::opaque]
pub open spec fn number(s: Seq<char>) -> Binary {
    let d = read(s);
    let size = decimal_size(digits_value(d.digits), d.point - d.digits.len());
    Binary { negative: d.negative && size.mant > 0, size }
}

/// Whether a text is the numeral of a finite number.
pub open spec fn is_finite(s: Seq<char>) -> bool {
    is_numeral(s) && number(s).size.shift <= 2045
}

/// The digits before the point, none for zero.
pub open spec fn whole(d: Decimal) -> Seq<char> {
    if d.point <= 0 {
        Seq::empty()
    } else if d.point >= d.digits.len() {
        d.digits + zeros(d.point - d.digits.len())
    } else {
        d.digits.take(d.point)
    }
}

/// The digits behind the point.
pub open spec fn fraction(d: Decimal) -> Seq<char> {
    if d.point <= 0 {
        zeros(-d.point) + d.digits
    } else if d.point >= d.digits.len() {
        Seq::empty()
    } else {
        d.digits.skip(d.point)
    }
}

/// A number in plain form, without an exponent and without a digit too many.
pub open spec fn written(d: Decimal) -> Seq<char> {
    let sign = if d.negative {
        seq!['-']
    } else {
        Seq::empty()
    };
    let front = if whole(d).len() == 0 {
        seq!['0']
    } else {
        whole(d)
    };
    let back = if fraction(d).len() == 0 {
        Seq::empty()
    } else {
        seq!['.'] + fraction(d)
    };
    sign + front + back
}

/// The shortest decimal that is rounded to a number.
pub open spec fn plain_decimal(b: Binary) -> Decimal {
    if b.size.mant == 0 {
        nothing()
    } else {
        let digits = decimal(shortest_digits(b.size));
        Decimal {
            negative: b.negative,
            digits,
            point: digits.len() + 400 - place(b.size, 0),
        }
    }
}

/// The plain form of a numeral: the shortest that is rounded to the same number.
#[verifier::opaque]
pub open spec fn kept(s: Seq<char>) -> Seq<char> {
    written(plain_decimal(number(s)))
}

/// A billionth, as it is rounded, times two to the power of 82.
pub const BILLIONTH: u64 = 4_835_703_278_458_517;

/// The size of the whole number that is less than a billionth away from a size.
pub open spec fn whole_size(b: Size) -> Option<nat> {
    if b.shift >= 1074 {
        Some(b.mant * two_to((b.shift - 1074) as nat))
    } else {
        let q = two_to((1074 - b.shift) as nat);
        let w = b.mant / q;
        let r = b.mant % q;
        if r * two_to(82) < BILLIONTH * q {
            Some(w)
        } else if (q - r) * two_to(82) < BILLIONTH * q {
            Some(w + 1)
        } else {
            None
        }
    }
}

/// A whole number as far as 64 bits reach.
pub open spec fn clamped(negative: bool, size: nat) -> int {
    if negative {
        if size <= 0x8000_0000_0000_0000 {
            -size
        } else {
            -0x8000_0000_0000_0000
        }
    } else {
        if size <= 0x7fff_ffff_ffff_ffff {
            size as int
        } else {
            0x7fff_ffff_ffff_ffff
        }
    }
}

/// The whole number that is less than a billionth away, as far as 64 bits reach.
pub open spec fn whole_near(b: Binary) -> Option<int> {
    match whole_size(b.size) {
        Some(n) => Some(clamped(b.negative, n)),
        None => None,
    }
}

/// How a number stands in a name: as a whole number where it is one up to a billionth, else in plain
/// form.
#[verifier::opaque]
pub open spec fn named(s: Seq<char>) -> Seq<char> {
    match whole_near(number(s)) {
        Some(n) => signed_decimal(n),
        None => kept(s),
    }
}

/// Whether a number is at least a whole number.
pub open spec fn reaches(b: Binary, n: nat) -> bool {
    !b.negative && (if b.size.shift >= 1074 {
        b.size.mant * two_to((b.size.shift - 1074) as nat) >= n
    } else {
        b.size.mant >= n * two_to((1074 - b.size.shift) as nat)
    })
}

/// Whether a decimal is in its one form.
pub open spec fn is_normal(d: Decimal) -> bool {
    &&& all_digits(d.digits)
    &&& d.digits.len() == 0 ==> !d.negative && d.point == 0
    &&& d.digits.len() > 0 ==> d.digits[0] != '0' && d.digits.last() != '0'
}

/// What is left behind the zeros at the front.
pub proof fn lemma_strip_front(s: Seq<char>)
    ensures
        strip_front(s).len() <= s.len(),
        strip_front(s) == s.skip(s.len() - strip_front(s).len()),
        forall|i: int| 0 <= i < s.len() - strip_front(s).len() ==> #[trigger] s[i] == '0',
        strip_front(s).len() > 0 ==> strip_front(s)[0] != '0',
    decreases s.len(),
{
    if s.len() > 0 && s[0] == '0' {
        let rest = s.drop_first();
        lemma_strip_front(rest);
        let k = rest.len() - strip_front(rest).len();
        assert(rest.skip(k) =~= s.skip(k + 1));
        assert forall|i: int| 0 <= i < k + 1 implies #[trigger] s[i] == '0' by {
            if i > 0 {
                assert(rest[i - 1] == '0');
            }
        }
    } else {
        assert(s.skip(0) =~= s);
    }
}

/// What is left before the zeros at the end.
pub proof fn lemma_strip_back(s: Seq<char>)
    ensures
        strip_back(s).len() <= s.len(),
        strip_back(s) == s.take(strip_back(s).len() as int),
        forall|i: int| strip_back(s).len() <= i < s.len() ==> #[trigger] s[i] == '0',
        strip_back(s).len() > 0 ==> strip_back(s).last() != '0',
    decreases s.len(),
{
    if s.len() > 0 && s.last() == '0' {
        let rest = s.drop_last();
        lemma_strip_back(rest);
        let k = strip_back(rest).len() as int;
        assert(rest.take(k) =~= s.take(k));
        assert forall|i: int| k <= i < s.len() implies #[trigger] s[i] == '0' by {
            if i < rest.len() {
                assert(rest[i] == '0');
            }
        }
    } else {
        assert(s.take(s.len() as int) =~= s);
    }
}

/// What is left where the zeros at the front are known.
proof fn lemma_front_known(s: Seq<char>, k: int)
    requires
        0 <= k <= s.len(),
        forall|i: int| 0 <= i < k ==> #[trigger] s[i] == '0',
        k < s.len() ==> s[k] != '0',
    ensures
        strip_front(s) == s.skip(k),
{
    lemma_strip_front(s);
    let n = s.len() - strip_front(s).len();
    if n < k {
        assert(strip_front(s)[0] == s[n]);
    } else if n > k {
        assert(s[k] == '0');
    }
}

/// What is left where the zeros at the end are known.
proof fn lemma_back_known(s: Seq<char>, k: int)
    requires
        0 <= k <= s.len(),
        forall|i: int| k <= i < s.len() ==> #[trigger] s[i] == '0',
        k > 0 ==> s[k - 1] != '0',
    ensures
        strip_back(s) == s.take(k),
{
    lemma_strip_back(s);
    let n = strip_back(s).len() as int;
    if n > k {
        assert(strip_back(s)[n - 1] == s[n - 1]);
    } else if n < k {
        assert(s[k - 1] == '0');
    }
}

/// Where a run of digits ends.
pub proof fn lemma_digits_end(s: Seq<char>, i: int, j: int)
    requires
        0 <= i <= j <= s.len(),
        forall|k: int| i <= k < j ==> '0' <= #[trigger] s[k] <= '9',
        j < s.len() ==> !('0' <= s[j] <= '9'),
    ensures
        past_digits(s, i) == j,
    decreases j - i,
{
    if i < j {
        assert('0' <= s[i] <= '9');
        lemma_digits_end(s, i + 1, j);
    }
}

/// A text made of a sign or none, digits, and a point with digits or none, is a numeral; this is what
/// it is read as.
proof fn lemma_read_plain(negative: bool, front: Seq<char>, frac: Seq<char>)
    requires
        front.len() > 0,
        all_digits(front),
        all_digits(frac),
    ensures
        ({
            let s = (if negative {
                seq!['-']
            } else {
                Seq::empty()
            }) + front + (if frac.len() == 0 {
                Seq::empty()
            } else {
                seq!['.'] + frac
            });
            let m = front + frac;
            let digits = strip_back(strip_front(m));
            &&& is_numeral(s)
            &&& mantissa(s) == m
            &&& read(s) == (if digits.len() == 0 {
                nothing()
            } else {
                Decimal {
                    negative,
                    digits,
                    point: front.len() - (m.len() - strip_front(m).len()),
                }
            })
        }),
{
    let sign: Seq<char> = if negative {
        seq!['-']
    } else {
        Seq::empty()
    };
    let back: Seq<char> = if frac.len() == 0 {
        Seq::empty()
    } else {
        seq!['.'] + frac
    };
    let s = sign + front + back;
    let a = sign.len() as int;
    let w = a + front.len();
    assert forall|k: int| a <= k < w implies '0' <= #[trigger] s[k] <= '9' by {
        assert(s[k] == front[k - a]);
    }
    assert('0' <= s[a] <= '9');
    assert(past_sign(s, 0) == a);
    if frac.len() > 0 {
        assert(s[w] == '.');
        lemma_digits_end(s, a, w);
        assert forall|k: int| w + 1 <= k < s.len() implies '0' <= #[trigger] s[k] <= '9' by {
            assert(s[k] == frac[k - w - 1]);
        }
        lemma_digits_end(s, w + 1, s.len() as int);
        assert(s.subrange(w + 1, s.len() as int) =~= frac);
    } else {
        lemma_digits_end(s, a, w);
    }
    assert(past_mantissa(s, a) == s.len());
    assert(s.subrange(a, w) =~= front);
    assert(mantissa(s) =~= front + frac);
    assert(digit_between(s, a, s.len() as int));
    assert(negative == (s[0] == '-'));
}

/// The digits of a decimal in its one form.
proof fn lemma_parts(d: Decimal)
    requires
        is_normal(d),
    ensures
        all_digits(whole(d)),
        all_digits(fraction(d)),
{
    assert forall|i: int| 0 <= i < whole(d).len() implies '0' <= #[trigger] whole(d)[i] <= '9' by {
        if i < d.digits.len() {
            assert('0' <= d.digits[i] <= '9');
        }
    }
    assert forall|i: int| 0 <= i < fraction(d).len() implies '0' <= #[trigger] fraction(d)[i]
        <= '9' by {
        if d.point <= 0 {
            if i >= -d.point {
                assert('0' <= d.digits[i + d.point] <= '9');
            }
        } else {
            assert('0' <= d.digits[i + d.point] <= '9');
        }
    }
}

/// A decimal is read back from its plain form.
#[verifier::rlimit(40)]
pub proof fn law_plain_form_round_trip(d: Decimal)
    requires
        is_normal(d),
    ensures
        is_numeral(written(d)),
        read(written(d)) == d,
{
    let front = if whole(d).len() == 0 {
        seq!['0']
    } else {
        whole(d)
    };
    let frac = fraction(d);
    lemma_parts(d);
    lemma_read_plain(d.negative, front, frac);
    let m = front + frac;
    let n = d.digits.len() as int;
    if n == 0 {
        assert(m =~= seq!['0']);
        lemma_front_known(m, 1);
        assert(strip_back(strip_front(m)).len() == 0) by {
            lemma_strip_back(strip_front(m));
        }
    } else if d.point <= 0 {
        let k = 1 - d.point;
        assert(m.skip(k) =~= d.digits);
        assert(m[k] == d.digits[0]);
        lemma_front_known(m, k);
        lemma_back_known(d.digits, n);
        assert(d.digits.take(n) =~= d.digits);
    } else {
        assert(m[0] == d.digits[0]);
        lemma_front_known(m, 0);
        assert(m.skip(0) =~= m);
        assert(m.take(n) =~= d.digits);
        assert(m[n - 1] == d.digits[n - 1]);
        lemma_back_known(m, n);
    }
    assert(read(written(d)) =~= d);
}

/// The decimal numeral of a number is a row of digits with its value and no needless nought.
pub proof fn lemma_decimal(n: nat)
    ensures
        all_digits(decimal(n)),
        decimal(n).len() > 0,
        n > 0 ==> decimal(n)[0] != '0',
        digits_value(decimal(n)) == n,
    decreases n,
{
    if n < 10 {
        let t = decimal(n);
        assert(t.drop_last() =~= Seq::<char>::empty());
        assert(digits_value(t.drop_last()) == 0);
        assert(t.last() == digit_char(n as int));
    } else {
        lemma_decimal(n / 10);
        let t = decimal(n);
        assert(t.drop_last() =~= decimal(n / 10));
        assert(t.last() == digit_char((n % 10) as int));
        assert(t[0] == decimal(n / 10)[0]);
    }
}

proof fn lemma_decimal_len(n: nat, k: nat)
    requires
        n < ten_to(k),
        k >= 1,
    ensures
        decimal(n).len() <= k,
    decreases k,
{
    if n >= 10 {
        assert(k > 1) by {
            assert(ten_to(1) == 10) by {
                reveal_with_fuel(ten_to, 2);
            }
        }
        lemma_decimal_len(n / 10, (k - 1) as nat);
    }
}

/// What is finite is rounded to a size in its one form.
pub proof fn lemma_number_is_size(s: Seq<char>)
    requires
        number(s).size.shift <= 2045,
    ensures
        is_size(number(s).size),
        number(s).negative ==> number(s).size.mant > 0,
{
    reveal(number);
    let d = read(s);
    let m = digits_value(d.digits);
    let x = d.point - d.digits.len();
    if x <= 400 {
        lemma_powers_positive((400 - x) as nat);
        lemma_rounded_is_size(m * unit(), ten_to((400 - x) as nat));
    } else {
        lemma_rounded_is_size(m * unit() * ten_to((x - 400) as nat), 1);
    }
}

/// Zero is rounded to nothing.
proof fn lemma_zero()
    ensures
        decimal_size(0, 0) == no_size(),
        digits_value(Seq::<char>::empty()) == 0,
{
    assert(0 * unit() == 0) by (nonlinear_arith);
    lemma_powers_positive(400);
    lemma_rounded_to_nothing(0, ten_to(400));
}

/// The plain form stands for the same number, and is kept when a numeral is kept again.
pub proof fn law_kept_numeral_stays(s: Seq<char>)
    requires
        is_finite(s),
    ensures
        is_finite(kept(s)),
        number(kept(s)) == number(s),
        kept(kept(s)) == kept(s),
        named(kept(s)) == named(s),
{
    reveal(number);
    reveal(kept);
    reveal(named);
    let b = number(s);
    let d = plain_decimal(b);
    lemma_number_is_size(s);
    if b.size.mant == 0 {
        law_plain_form_round_trip(d);
        lemma_zero();
        lemma_53();
        assert(b.size =~= no_size());
        assert(number(kept(s)) =~= b);
    } else {
        let c = shortest_digits(b.size);
        lemma_shortest(b.size);
        lemma_decimal(c);
        assert(d.digits.last() == digit_char((c % 10) as int)) by {
            if c < 10 {
                assert(c % 10 == c);
            }
        }
        law_plain_form_round_trip(d);
        assert(d.point - d.digits.len() == 400 - place(b.size, 0));
        assert(number(kept(s)) =~= b);
    }
}

/// Zeros at the end of a row are powers of ten.
proof fn lemma_zeros_at_end(s: Seq<char>)
    ensures
        digits_value(s) == digits_value(strip_back(s)) * ten_to(
            (s.len() - strip_back(s).len()) as nat,
        ),
    decreases s.len(),
{
    lemma_strip_back(s);
    if s.len() > 0 && s.last() == '0' {
        let rest = s.drop_last();
        lemma_strip_back(rest);
        lemma_zeros_at_end(rest);
        let z = (rest.len() - strip_back(rest).len()) as nat;
        let v = digits_value(strip_back(rest));
        assert(ten_to(z + 1) == 10 * ten_to(z));
        assert((v * ten_to(z)) * 10 == v * (10 * ten_to(z))) by (nonlinear_arith);
    } else {
        assert(digits_value(s) * 1 == digits_value(s)) by (nonlinear_arith);
        assert(ten_to(0) == 1);
    }
}

/// What a whole number in a name is rounded to.
proof fn lemma_whole_number(n: int)
    requires
        -0x8000_0000_0000_0000 <= n <= 0x7fff_ffff_ffff_ffff,
    ensures
        ({
            let s = signed_decimal(n);
            let size = (if n < 0 {
                -n
            } else {
                n
            }) as nat;
            &&& is_numeral(s)
            &&& number(s).size == rounded(size * two_to(1074), 1)
            &&& number(s).negative == (n < 0 && number(s).size.mant > 0)
        }),
{
    reveal(number);
    let size = (if n < 0 {
        -n
    } else {
        n
    }) as nat;
    let w = decimal(size);
    let s = signed_decimal(n);
    lemma_decimal(size);
    assert(ten_to(19) == 10_000_000_000_000_000_000) by {
        reveal_with_fuel(ten_to, 20);
    }
    lemma_decimal_len(size, 19);
    let none = Seq::<char>::empty();
    lemma_read_plain(n < 0, w, none);
    assert(w + none =~= w);
    assert(seq!['-'] + w + none =~= seq!['-'] + w);
    assert(none + w + none =~= w);
    if n == 0 {
        assert(w =~= seq!['0']);
        lemma_front_known(w, 1);
        lemma_strip_back(strip_front(w));
        assert(read(s) == nothing());
        lemma_zero();
        assert(0 * two_to(1074) == 0) by (nonlinear_arith);
        lemma_rounded_to_nothing(0, 1);
    } else {
        lemma_front_known(w, 0);
        assert(w.skip(0) =~= w);
        lemma_strip_back(w);
        let digits = strip_back(w);
        if digits.len() == 0 {
            assert(w[0] == '0');
        }
        let d = read(s);
        assert(d.digits == digits);
        assert(d.point == w.len());
        let z = (w.len() - digits.len()) as nat;
        lemma_zeros_at_end(w);
        let m = digits_value(digits);
        let p = ten_to(z);
        let q = ten_to((400 - z) as nat);
        lemma_powers_positive(z);
        lemma_powers_positive((400 - z) as nat);
        lemma_powers_positive(400);
        lemma_ten_to_adds((400 - z) as nat, z);
        assert((400 - z) as nat + z == 400);
        lemma_rounded_scaled(m * unit(), q, p);
        assert((m * unit()) * p == (size * two_to(1074)) * ten_to(400)) by (nonlinear_arith)
            requires
                unit() == two_to(1074) * ten_to(400),
                m * p == size,
        ;
        lemma_rounded_scaled(size * two_to(1074), 1, ten_to(400));
        assert(1 * ten_to(400) == ten_to(400));
        assert(d.point - d.digits.len() == z);
    }
}

/// A whole number of up to 53 bits is named as it is.
proof fn lemma_small_whole(n: nat)
    requires
        n < two_to(53),
    ensures
        whole_size(rounded(n * two_to(1074), 1)) == Some(n),
        rounded(n * two_to(1074), 1).shift <= 1074,
        rounded(n * two_to(1074), 1).mant > 0 <==> n > 0,
{
    let b = rounded(n * two_to(1074), 1);
    if n == 0 {
        assert(0 * two_to(1074) == 0) by (nonlinear_arith);
        lemma_rounded_to_nothing(0, 1);
        let q = two_to(1074);
        lemma_powers_positive(1074);
        assert(0int == 0 * q + 0) by (nonlinear_arith);
        lemma_fundamental_div_mod_converse(0, q as int, 0, 0);
        assert(0 * two_to(82) == 0) by (nonlinear_arith);
        assert(BILLIONTH * q > 0) by (nonlinear_arith)
            requires
                q > 0,
                BILLIONTH > 0,
        ;
    } else {
        lemma_rounded_whole(n);
        let q = two_to((1074 - b.shift) as nat);
        lemma_powers_positive((1074 - b.shift) as nat);
        assert(b.mant == n * q + 0);
        lemma_fundamental_div_mod_converse(b.mant as int, q as int, n as int, 0);
        assert(0 * two_to(82) == 0) by (nonlinear_arith);
        assert(BILLIONTH * q > 0) by (nonlinear_arith)
            requires
                q > 0,
                BILLIONTH > 0,
        ;
        assert(n * q > 0) by (nonlinear_arith)
            requires
                n > 0,
                q > 0,
        ;
        if b.shift == 1074 {
            assert(q == 1);
            assert(two_to(0) == 1);
            assert(b.mant * 1 == n) by (nonlinear_arith)
                requires
                    b.mant == n * q,
                    q == 1,
            ;
        }
    }
}

/// The largest whole number of 64 bits is rounded to the power of two above it.
proof fn lemma_largest_whole()
    ensures
        rounded(0x7fff_ffff_ffff_ffff * two_to(1074), 1) == (Size {
            mant: two_to(52),
            shift: 1085,
        }),
        rounded(0x8000_0000_0000_0000 * two_to(1074), 1) == (Size {
            mant: two_to(52),
            shift: 1085,
        }),
        two_to(52) * two_to(11) == 0x8000_0000_0000_0000,
{
    lemma_53();
    assert(two_to(11) == 2048) by {
        reveal_with_fuel(two_to, 12);
    }
    let p = two_to(1074);
    lemma_powers_positive(1074);
    lemma_two_to_adds(1074, 11);
    let b = Size { mant: two_to(52), shift: 1085 };
    assert(0x8000_0000_0000_0000 * p == 1 * (two_to(52) * two_to(1085))) by (nonlinear_arith)
        requires
            two_to(1085) == p * 2048,
            two_to(52) == 0x10_0000_0000_0000,
    ;
    lemma_rounded_exact(b, 0x8000_0000_0000_0000 * p, 1);
    lemma_just_below_a_power();
}

proof fn lemma_just_below_a_power()
    ensures
        rounded(0x7fff_ffff_ffff_ffff * two_to(1074), 1) == (Size {
            mant: two_to(52),
            shift: 1085,
        }),
{
    lemma_53();
    let p = two_to(1074);
    lemma_powers_positive(1074);
    let a = 0x7fff_ffff_ffff_ffff * p;
    assert(two_to(10) == 1024 && two_to(62) == 0x4000_0000_0000_0000 && two_to(63)
        == 0x8000_0000_0000_0000) by {
        reveal_with_fuel(two_to, 64);
    }
    lemma_two_to_adds(1074, 63);
    lemma_two_to_adds(1074, 62);
    lemma_two_to_adds(1074, 10);
    let t = two_to(1084);
    assert forall|i: nat| 0 <= i < 1084 implies !fits(a, 1, i) by {
        lemma_two_to_grows(i + 53, 1136);
        assert(a >= two_to(1136)) by (nonlinear_arith)
            requires
                a == 0x7fff_ffff_ffff_ffff * p,
                two_to(1136) == p * 0x4000_0000_0000_0000,
        ;
    }
    assert(fits(a, 1, 1084)) by (nonlinear_arith)
        requires
            a == 0x7fff_ffff_ffff_ffff * p,
            two_to(1137) == p * 0x8000_0000_0000_0000,
            p > 0,
            fits(a, 1, 1084) == (a < 1 * two_to(1084 + 53)),
    ;
    lemma_scale_known(a, 1, 0, 1084);
    assert(1 * t == t);
    assert(a == 0x1f_ffff_ffff_ffff * t + 1023 * p) by (nonlinear_arith)
        requires
            a == 0x7fff_ffff_ffff_ffff * p,
            t == p * 1024,
    ;
    lemma_fundamental_div_mod_converse(a as int, t as int, 0x1f_ffff_ffff_ffff, 1023 * p as int);
}

/// A number that stands in a name as a whole number is named the same when it is read again.
proof fn lemma_named_whole(b: Binary)
    requires
        is_size(b.size),
        b.negative ==> b.size.mant > 0,
        whole_near(b) is Some,
    ensures
        is_finite(signed_decimal(whole_near(b)->0)),
        whole_near(number(signed_decimal(whole_near(b)->0))) == whole_near(b),
{
    let n = whole_near(b)->0;
    let w = whole_size(b.size)->0;
    let size = (if n < 0 {
        -n
    } else {
        n
    }) as nat;
    let s = signed_decimal(n);
    lemma_whole_number(n);
    lemma_53();
    lemma_largest_whole();
    let t = rounded(size * two_to(1074), 1);
    assert(t == number(s).size);
    if size < two_to(53) {
        lemma_small_whole(size);
        assert(number(s).negative == (n < 0));
        assert(whole_near(number(s)) == Some(n));
    } else {
        if w < 0x7fff_ffff_ffff_ffff || b.negative {
            lemma_large_whole(b.size);
        }
        assert(two_to(52) > 0);
        if n == 0x7fff_ffff_ffff_ffff || n == -0x8000_0000_0000_0000 {
            assert(t.shift - 1074 == 11);
            assert(whole_size(t) == Some(0x8000_0000_0000_0000nat));
            assert(number(s).negative == (n < 0));
            assert(whole_near(number(s)) == Some(n));
        } else {
            assert(size == w);
            assert(t == b.size);
            assert(b.size.mant > 0);
            assert(number(s).negative == (n < 0));
            assert(whole_near(number(s)) == Some(n));
        }
    }
}

/// A whole number of more than 53 bits is its size exactly, and is not the largest of 63 bits.
proof fn lemma_large_whole(b: Size)
    requires
        is_size(b),
        whole_size(b) is Some,
        whole_size(b)->0 >= two_to(53),
    ensures
        rounded(whole_size(b)->0 * two_to(1074), 1) == b,
        whole_size(b)->0 != 0x7fff_ffff_ffff_ffff,
        b.mant > 0,
{
    let w = whole_size(b)->0;
    lemma_53();
    if b.shift < 1074 {
        let q = two_to((1074 - b.shift) as nat);
        lemma_powers_positive((1073 - b.shift) as nat);
        assert(q == 2 * two_to((1073 - b.shift) as nat));
        assert(2 * (b.mant / q) <= b.mant) by (nonlinear_arith)
            requires
                q >= 2,
                b.mant >= 0,
        ;
    } else {
        let k = (b.shift - 1074) as nat;
        lemma_two_to_adds(1074, k);
        assert(w * two_to(1074) == 1 * (b.mant * two_to(b.shift))) by (nonlinear_arith)
            requires
                w == b.mant * two_to(k),
                two_to(b.shift) == two_to(1074) * two_to(k),
        ;
        lemma_rounded_exact(b, w * two_to(1074), 1);
        if k > 0 {
            let h = two_to((k - 1) as nat);
            assert(w == 2 * (b.mant * h)) by (nonlinear_arith)
                requires
                    w == b.mant * (2 * h),
            ;
        } else {
            assert(b.mant * 1 == b.mant);
        }
        if b.mant == 0 {
            assert(0 * two_to(k) == 0) by (nonlinear_arith);
        }
    }
}

/// A number as it stands in a name is finite, and is named as it stands there.
pub proof fn law_named_numeral_stays(s: Seq<char>)
    requires
        is_finite(s),
    ensures
        is_finite(named(s)),
        named(named(s)) == named(s),
        named(kept(named(s))) == named(s),
        kept(kept(named(s))) == kept(named(s)),
        is_finite(kept(named(s))),
{
    reveal(named);
    law_kept_numeral_stays(s);
    lemma_number_is_size(s);
    if whole_near(number(s)) is Some {
        lemma_named_whole(number(s));
    }
    law_kept_numeral_stays(named(s));
}

/// A number that is not negative is not named as a negative one.
pub proof fn law_named_sign(s: Seq<char>)
    requires
        is_finite(s),
        !number(s).negative,
    ensures
        !number(named(s)).negative,
{
    reveal(named);
    law_kept_numeral_stays(s);
    match whole_near(number(s)) {
        Some(n) => {
            lemma_whole_number(n);
        },
        None => {},
    }
}

/// A binary number of 64 bits.
#[derive(Clone, Copy, Debug, PartialEq, Eq)]
pub struct Number {
    pub negative: bool,
    pub mant: u64,
    pub shift: u32,
}

impl View for Number {
    type V = Binary;

    open spec fn view(&self) -> Binary {
        Binary {
            negative: self.negative,
            size: Size { mant: self.mant as nat, shift: self.shift as nat },
        }
    }
}

impl Number {
    /// Whether the number is finite and in its one form.
    pub open spec fn wf(&self) -> bool {
        is_size(self@.size) && (self.negative ==> self.mant > 0)
    }
}

/// The bound up to which a row of digits is counted.
pub const COUNTED: u128 = 10_000_000_000_000_000_000_000_000;

/// The value of a row of digits where it is below the bound, else something at or beyond the bound.
fn capped_value(digits: &Vec<char>) -> (res: u128)
    requires
        all_digits(digits@),
    ensures
        res == digits_value(digits@) || (res >= COUNTED && digits_value(digits@) >= COUNTED),
        res < 10 * COUNTED,
{
    let mut value: u128 = 0;
    let mut i: usize = 0;
    while i < digits.len()
        invariant
            i <= digits@.len(),
            all_digits(digits@),
            value == digits_value(digits@.take(i as int)) || (value >= COUNTED && digits_value(
                digits@.take(i as int),
            ) >= COUNTED),
            value < 10 * COUNTED,
        decreases digits@.len() - i,
    {
        let c = digits[i];
        assert('0' <= digits@[i as int] <= '9');
        proof {
            let t = digits@.take(i + 1);
            assert(t.drop_last() =~= digits@.take(i as int));
            assert(t.last() == c);
        }
        if value < COUNTED {
            value = value * 10 + (c as u128 - 48);
        }
        i += 1;
    }
    assert(digits@.take(i as int) =~= digits@);
    value
}

/// Takes the characters between two places out of a text.
fn chars_between(s: &str, a: usize, b: usize) -> (res: Vec<char>)
    requires
        a <= b <= s@.len(),
    ensures
        res@ == s@.subrange(a as int, b as int),
{
    let mut out: Vec<char> = Vec::new();
    let mut i: usize = a;
    while i < b
        invariant
            a <= i <= b <= s@.len(),
            out@ == s@.subrange(a as int, i as int),
        decreases b - i,
    {
        out.push(s.get_char(i));
        i += 1;
        assert(out@ =~= s@.subrange(a as int, i as int));
    }
    out
}

/// Puts characters behind others.
fn append_chars(out: &mut Vec<char>, more: &Vec<char>, from: usize, to: usize)
    requires
        from <= to <= more@.len(),
    ensures
        final(out)@ == old(out)@ + more@.subrange(from as int, to as int),
{
    let ghost start = out@;
    let mut i: usize = from;
    while i < to
        invariant
            from <= i <= to <= more@.len(),
            out@ == start + more@.subrange(from as int, i as int),
        decreases to - i,
    {
        out.push(more[i]);
        i += 1;
        assert(out@ =~= start + more@.subrange(from as int, i as int));
    }
}

/// Puts zeros behind characters.
fn append_zeros(out: &mut Vec<char>, n: usize)
    ensures
        final(out)@ == old(out)@ + zeros(n as int),
{
    let ghost start = out@;
    let mut i: usize = 0;
    while i < n
        invariant
            i <= n,
            out@ == start + zeros(i as int),
        decreases n - i,
    {
        out.push('0');
        i += 1;
        assert(out@ =~= start + zeros(i as int));
    }
}

/// Puts digits behind a text.
fn append_digits(out: &mut String, digits: &Vec<char>)
    requires
        all_digits(digits@),
    ensures
        final(out)@ == old(out)@ + digits@,
{
    let ghost start = out@;
    let mut i: usize = 0;
    while i < digits.len()
        invariant
            i <= digits@.len(),
            all_digits(digits@),
            out@ == start + digits@.take(i as int),
        decreases digits@.len() - i,
    {
        let c = digits[i];
        assert('0' <= digits@[i as int] <= '9');
        out.append(digit_str(c as u64 - 48));
        assert(digit_char(c as int - 48) == c);
        i += 1;
        assert(out@ =~= start + digits@.take(i as int));
    }
    assert(digits@.take(i as int) =~= digits@);
}

/// The digits before and behind the point of a numeral.
fn mantissa_digits(s: &str) -> (res: Vec<char>)
    requires
        is_numeral(s@),
    ensures
        res@ == mantissa(s@),
        all_digits(res@),
{
    let a: usize = skip_sign(s, 0);
    let w: usize = skip_digits(s, a);
    let c: usize = skip_mantissa(s, a);
    proof {
        if w < s@.len() && s@[w as int] == '.' {
            lemma_past_digits(s@, w + 1);
        }
    }
    let mut m = chars_between(s, a, w);
    if w < c {
        let back = chars_between(s, w + 1, c);
        append_chars(&mut m, &back, 0, c - w - 1);
        assert(back@.subrange(0, c - w - 1) =~= back@);
    }
    assert(m@ =~= mantissa(s@));
    assert forall|i: int| 0 <= i < m@.len() implies '0' <= #[trigger] m@[i] <= '9' by {
        if i < w - a {
            assert(m@[i] == s@[a + i]);
        } else {
            assert(m@[i] == s@[a + i + 1]);
        }
    }
    m
}

/// The sign and the size of the exponent of a numeral; a size beyond the bound is only known to be.
fn read_exponent(s: &str) -> (res: (bool, u128))
    requires
        is_numeral(s@),
    ensures
        res.1 < 10 * COUNTED,
        ({
            let size = if res.0 {
                -exponent(s@)
            } else {
                exponent(s@)
            };
            res.1 == size || (res.1 >= COUNTED && size >= COUNTED)
        }),
{
    let n: usize = s.unicode_len();
    let a: usize = skip_sign(s, 0);
    let c: usize = skip_mantissa(s, a);
    if c == n {
        return (false, 0);
    }
    let from: usize = skip_sign(s, c + 1);
    let digits = chars_between(s, from, n);
    proof {
        lemma_past_digits(s@, from as int);
        assert(digits@ =~= s@.skip(from as int));
        assert forall|i: int| 0 <= i < digits@.len() implies '0' <= #[trigger] digits@[i]
            <= '9' by {
            assert(digits@[i] == s@[from + i]);
        }
    }
    (s.get_char(c + 1) == '-', capped_value(&digits))
}

/// Reads a numeral, and says whether the number is finite. Of one that is not, only the sign is told.
pub fn hold(s: &str) -> (res: (Number, bool))
    requires
        is_numeral(s@),
    ensures
        res.1 == is_finite(s@),
        res.0.negative == number(s@).negative,
        (res.0.mant == 0) == (number(s@).size.mant == 0),
        res.1 ==> res.0@ == number(s@) && res.0.wf(),
{
    proof {
        reveal(number);
    }
    let a: usize = skip_sign(s, 0);
    let w: usize = skip_digits(s, a);
    let m = mantissa_digits(s);
    let n: usize = m.len();
    let ghost front = strip_front(m@);
    let mut f: usize = 0;
    while f < n && m[f] == '0'
        invariant
            f <= n == m@.len(),
            forall|i: int| 0 <= i < f ==> #[trigger] m@[i] == '0',
        decreases n - f,
    {
        f += 1;
    }
    let mut e: usize = n;
    while e > f && m[e - 1] == '0'
        invariant
            f <= e <= n == m@.len(),
            forall|i: int| e <= i < n ==> #[trigger] m@[i] == '0',
        decreases e,
    {
        e -= 1;
    }
    let mut digits: Vec<char> = Vec::new();
    append_chars(&mut digits, &m, f, e);
    proof {
        lemma_front_known(m@, f as int);
        assert forall|i: int| e - f <= i < front.len() implies #[trigger] front[i] == '0' by {
            assert(m@[f + i] == '0');
        }
        lemma_back_known(front, e - f);
        assert(digits@ =~= strip_back(front));
        assert forall|i: int| 0 <= i < digits@.len() implies '0' <= #[trigger] digits@[i]
            <= '9' by {
            assert(digits@[i] == m@[f + i]);
        }
        lemma_53();
    }
    if digits.len() == 0 {
        proof {
            assert(digits@ =~= Seq::<char>::empty());
            lemma_zero();
        }
        return (Number { negative: false, mant: 0, shift: 0 }, true);
    }
    let (down, size): (bool, u128) = read_exponent(s);
    let shift: i128 = if down {
        -(size as i128)
    } else {
        size as i128
    };
    let x: i128 = (w - a) as i128 - f as i128 + shift - digits.len() as i128;
    let ghost exact = read(s@).point - digits@.len();
    let ghost v = digits_value(digits@);
    proof {
        assert(digits@[0] == m@[f as int]);
        lemma_digits_bound(digits@);
        lemma_first_digit(digits@);
        assert(x == exact || (x > 400 && exact > 400) || (x + digits@.len() < -400 && exact
            + digits@.len() < -400));
        if x != exact {
            if x > 400 {
                lemma_decimal_too_large(v, x as int);
                lemma_decimal_too_large(v, exact);
            } else {
                lemma_decimal_too_small(v, digits@.len(), x as int);
                lemma_decimal_too_small(v, digits@.len(), exact);
            }
        }
    }
    match round_decimal(&digits, x) {
        Some((mant, shift)) => {
            proof {
                lemma_number_is_size(s@);
            }
            (Number { negative: s.get_char(0) == '-' && mant > 0, mant, shift }, true)
        },
        None => {
            proof {
                lemma_infinite_is_some(v, exact);
            }
            (Number { negative: s.get_char(0) == '-', mant: 1, shift: 2046 }, false)
        },
    }
}

/// A row of digits that does not begin with zero is not zero.
proof fn lemma_first_digit(s: Seq<char>)
    requires
        all_digits(s),
        s.len() > 0,
        s[0] != '0',
    ensures
        digits_value(s) > 0,
    decreases s.len(),
{
    let rest = s.drop_last();
    assert('0' <= s[0] <= '9');
    if rest.len() > 0 {
        assert forall|i: int| 0 <= i < rest.len() implies '0' <= #[trigger] rest[i] <= '9' by {
            assert('0' <= s[i] <= '9');
        }
        lemma_first_digit(rest);
    }
    assert('0' <= s[s.len() - 1] <= '9');
}

proof fn lemma_infinite_is_some(m: nat, x: int)
    requires
        decimal_size(m, x).shift >= 2046,
    ensures
        decimal_size(m, x).mant > 0,
{
    if x <= 400 {
        lemma_powers_positive((400 - x) as nat);
        lemma_too_large_is_some(m * unit(), ten_to((400 - x) as nat));
    } else {
        lemma_too_large_is_some(m * unit() * ten_to((x - 400) as nat), 1);
    }
}

/// Reads the numeral of a finite number; anything else is refused.
pub fn parse_finite(s: &str) -> (res: Option<Number>)
    ensures
        match res {
            Some(d) => is_finite(s@) && d@ == number(s@) && d.wf(),
            None => !is_finite(s@),
        },
{
    if !numeral(s) {
        return None;
    }
    let (d, within) = hold(s);
    if within {
        Some(d)
    } else {
        None
    }
}

/// The plain form of the numeral of a finite number; anything else is refused.
pub fn keep(s: &str) -> (res: Option<String>)
    ensures
        match res {
            Some(t) => is_finite(s@) && t@ == kept(s@),
            None => !is_finite(s@),
        },
{
    proof {
        reveal(kept);
    }
    match parse_finite(s) {
        Some(d) => Some(d.plain()),
        None => None,
    }
}

/// A finite number as it stands in a name.
pub fn name_of(s: &str) -> (res: String)
    requires
        is_finite(s@),
    ensures
        res@ == named(s@),
{
    proof {
        reveal(kept);
        reveal(named);
    }
    let (d, _) = hold(s);
    d.name()
}

/// Whether a numeral stands for a number below zero.
pub fn below_zero(s: &str) -> (res: bool)
    requires
        is_numeral(s@),
    ensures
        res == number(s@).negative,
{
    let (d, _) = hold(s);
    d.negative
}

/// Whether a numeral stands for zero.
pub fn is_zero(s: &str) -> (res: bool)
    requires
        is_numeral(s@),
    ensures
        res == (number(s@).size.mant == 0),
{
    let (d, _) = hold(s);
    d.mant == 0
}

/// Two to a power below 128.
fn power_of_two(k: u32) -> (res: u128)
    requires
        k <= 127,
    ensures
        res == two_to(k as nat),
{
    let mut out: u128 = 1;
    let mut i: u32 = 0;
    while i < k
        invariant
            i <= k <= 127,
            out == two_to(i as nat),
        decreases k - i,
    {
        proof {
            lemma_127();
            lemma_two_to_grows((i + 1) as nat, 127);
        }
        out = out * 2;
        i += 1;
    }
    out
}

proof fn lemma_127()
    ensures
        two_to(127) == 0x8000_0000_0000_0000_0000_0000_0000_0000,
        two_to(64) == 0x1_0000_0000_0000_0000,
        two_to(82) == 0x4_0000_0000_0000_0000_0000,
        two_to(45) == 0x2000_0000_0000,
{
    assert(two_to(13) == 0x2000 && two_to(18) == 0x4_0000 && two_to(31) == 0x8000_0000 && two_to(32)
        == 0x1_0000_0000) by {
        reveal_with_fuel(two_to, 33);
    }
    lemma_two_to_adds(32, 13);
    lemma_two_to_adds(32, 32);
    lemma_two_to_adds(64, 18);
    lemma_two_to_adds(32, 31);
    lemma_two_to_adds(64, 63);
    assert(two_to(63) == 0x8000_0000_0000_0000);
    assert(0x1_0000_0000_0000_0000 * 0x8000_0000_0000_0000
        == 0x8000_0000_0000_0000_0000_0000_0000_0000) by (nonlinear_arith);
}

fn whole_part(digits: &Vec<char>, point: i128) -> (res: Vec<char>)
    requires
        point <= usize::MAX,
    ensures
        res@ == whole(Decimal { negative: false, digits: digits@, point: point as int }),
{
    let mut out: Vec<char> = Vec::new();
    let n: usize = digits.len();
    if point <= 0 {
        return out;
    }
    let at: usize = point as usize;
    if at >= n {
        append_chars(&mut out, digits, 0, n);
        append_zeros(&mut out, at - n);
    } else {
        append_chars(&mut out, digits, 0, at);
    }
    assert(out@ =~= whole(Decimal { negative: false, digits: digits@, point: point as int }));
    out
}

fn fraction_part(digits: &Vec<char>, point: i128) -> (res: Vec<char>)
    requires
        -usize::MAX <= point <= usize::MAX,
    ensures
        res@ == fraction(Decimal { negative: false, digits: digits@, point: point as int }),
{
    let mut out: Vec<char> = Vec::new();
    let n: usize = digits.len();
    if point <= 0 {
        append_zeros(&mut out, (-point) as usize);
        append_chars(&mut out, digits, 0, n);
    } else {
        let at: usize = point as usize;
        if at < n {
            append_chars(&mut out, digits, at, n);
        }
    }
    assert(out@ =~= fraction(Decimal { negative: false, digits: digits@, point: point as int }));
    out
}

impl Number {
    /// The number in plain form.
    pub fn plain(&self) -> (res: String)
        requires
            self.wf(),
        ensures
            res@ == written(plain_decimal(self@)),
    {
        proof {
            reveal_strlit("-");
            reveal_strlit("0");
            reveal_strlit(".");
        }
        let ghost d = plain_decimal(self@);
        let mut out = String::new();
        if self.mant == 0 {
            out.append("0");
            assert(whole(d) =~= Seq::<char>::empty());
            assert(fraction(d) =~= Seq::<char>::empty());
            assert(out@ =~= written(d));
            return out;
        }
        let (digits, place): (Vec<char>, u32) = shortest(self.mant, self.shift);
        proof {
            lemma_shortest(self@.size);
            lemma_decimal(shortest_digits(self@.size));
            lemma_shortest_bound(self@.size);
            lemma_decimal_len(shortest_digits(self@.size), 1475);
        }
        let point: i128 = digits.len() as i128 + 400 - place as i128;
        if self.negative {
            out.append("-");
        }
        let front = whole_part(&digits, point);
        let back = fraction_part(&digits, point);
        proof {
            let e = Decimal { negative: false, digits: digits@, point: point as int };
            assert(whole(e) == whole(d) && fraction(e) == fraction(d));
            assert(d.digits.last() == digit_char((shortest_digits(self@.size) % 10) as int)) by {
                let c = shortest_digits(self@.size);
                if c < 10 {
                    assert(c % 10 == c);
                }
            }
            lemma_parts(d);
        }
        if front.len() == 0 {
            out.append("0");
        } else {
            append_digits(&mut out, &front);
        }
        if back.len() > 0 {
            out.append(".");
            append_digits(&mut out, &back);
        }
        assert(out@ =~= written(d));
        out
    }

    /// The size of the whole number that is less than a billionth away, if it has up to 117 bits, else
    /// something beyond 64 bits.
    fn whole_value(&self) -> (res: Option<u128>)
        requires
            self.wf(),
        ensures
            match res {
                Some(n) => whole_size(self@.size) is Some && (n == whole_size(self@.size)->0 || (n
                    >= 0x1_0000_0000_0000_0000 && whole_size(self@.size)->0
                    >= 0x1_0000_0000_0000_0000)),
                None => whole_size(self@.size) is None,
            },
    {
        proof {
            lemma_53();
            lemma_127();
        }
        let m: u128 = self.mant as u128;
        if self.shift >= 1074 {
            let k: u32 = self.shift - 1074;
            if self.mant == 0 {
                assert(0 * two_to(k as nat) == 0) by (nonlinear_arith);
                return Some(0);
            }
            if k >= 64 {
                proof {
                    lemma_two_to_grows(64, k as nat);
                    assert(m * two_to(k as nat) >= two_to(64)) by (nonlinear_arith)
                        requires
                            m >= 1,
                            two_to(k as nat) >= two_to(64),
                    ;
                }
                return Some(0x1_0000_0000_0000_0000);
            }
            let p: u128 = power_of_two(k);
            proof {
                lemma_two_to_grows(k as nat, 64);
                assert(m * p <= 0x20_0000_0000_0000 * 0x1_0000_0000_0000_0000) by (nonlinear_arith)
                    requires
                        m <= 0x20_0000_0000_0000,
                        p <= 0x1_0000_0000_0000_0000,
                ;
            }
            return Some(m * p);
        }
        let s: u32 = 1074 - self.shift;
        let ghost q = two_to(s as nat);
        proof {
            lemma_powers_positive(s as nat);
        }
        if s >= 128 {
            proof {
                lemma_two_to_grows(128, s as nat);
                assert(two_to(128) == 2 * two_to(127));
                assert(m == 0 * q + m) by (nonlinear_arith);
                lemma_fundamental_div_mod_converse(m as int, q as int, 0, m as int);
                assert(m * two_to(82) < BILLIONTH * q) by (nonlinear_arith)
                    requires
                        m < 0x20_0000_0000_0000,
                        two_to(82) == 0x4_0000_0000_0000_0000_0000,
                        q >= 0x1_0000_0000_0000_0000_0000_0000_0000_0000int,
                        BILLIONTH == 4_835_703_278_458_517,
                ;
            }
            return Some(0);
        }
        let p: u128 = power_of_two(s);
        let w: u128 = m / p;
        let r: u128 = m % p;
        let (low, high): (bool, bool);
        if s <= 82 {
            let u: u128 = power_of_two(82 - s);
            proof {
                lemma_two_to_adds(s as nat, (82 - s) as nat);
                lemma_powers_positive((82 - s) as nat);
                assert(r * u < p * u && (p - r) * u <= p * u) by (nonlinear_arith)
                    requires
                        0 <= r < p,
                        u > 0,
                        p > 0,
                ;
                assert((r * two_to(82) < BILLIONTH * q) == (r * u < BILLIONTH)) by (nonlinear_arith)
                    requires
                        two_to(82) == q * u,
                        q > 0,
                ;
                assert(((q - r) * two_to(82) < BILLIONTH * q) == ((q - r) * u < BILLIONTH))
                    by (nonlinear_arith)
                    requires
                        two_to(82) == q * u,
                        q > 0,
                ;
            }
            low = r * u < BILLIONTH as u128;
            high = (p - r) * u < BILLIONTH as u128;
        } else {
            let u: u128 = power_of_two(s - 82);
            proof {
                lemma_two_to_adds(82, (s - 82) as nat);
                lemma_two_to_grows((s - 82) as nat, 45);
                assert(BILLIONTH * u <= 4_835_703_278_458_517 * 0x2000_0000_0000)
                    by (nonlinear_arith)
                    requires
                        BILLIONTH == 4_835_703_278_458_517,
                        u <= 0x2000_0000_0000,
                ;
                assert((r * two_to(82) < BILLIONTH * q) == (r < BILLIONTH * u)) by (nonlinear_arith)
                    requires
                        q == two_to(82) * u,
                        two_to(82) > 0,
                ;
                assert(((q - r) * two_to(82) < BILLIONTH * q) == ((q - r) < BILLIONTH * u))
                    by (nonlinear_arith)
                    requires
                        q == two_to(82) * u,
                        two_to(82) > 0,
                ;
            }
            low = r < BILLIONTH as u128 * u;
            high = p - r < BILLIONTH as u128 * u;
        }
        if low {
            Some(w)
        } else if high {
            Some(w + 1)
        } else {
            None
        }
    }

    /// The whole number that is less than a billionth away, as far as 64 bits reach.
    pub fn whole_next(&self) -> (res: Option<i64>)
        requires
            self.wf(),
        ensures
            match res {
                Some(n) => whole_near(self@) == Some(n as int),
                None => whole_near(self@) is None,
            },
    {
        let size: u128 = match self.whole_value() {
            Some(n) => n,
            None => return None,
        };
        if self.negative {
            if size < 0x8000_0000_0000_0000 {
                Some(-(size as i64))
            } else {
                Some(i64::MIN)
            }
        } else if size <= 0x7fff_ffff_ffff_ffff {
            Some(size as i64)
        } else {
            Some(i64::MAX)
        }
    }

    /// The number as it stands in a name.
    pub fn name(&self) -> (res: String)
        requires
            self.wf(),
        ensures
            res@ == (match whole_near(self@) {
                Some(n) => signed_decimal(n),
                None => written(plain_decimal(self@)),
            }),
    {
        match self.whole_next() {
            Some(n) => {
                let mut out = String::new();
                append_signed(&mut out, n);
                assert(out@ =~= signed_decimal(n as int));
                out
            },
            None => self.plain(),
        }
    }

    /// Whether the number is at least a whole number.
    pub fn at_least(&self, n: u64) -> (res: bool)
        requires
            self.wf(),
        ensures
            res == reaches(self@, n as nat),
    {
        if self.negative {
            return false;
        }
        proof {
            lemma_53();
            lemma_127();
        }
        let m: u128 = self.mant as u128;
        if self.shift >= 1074 {
            let k: u32 = self.shift - 1074;
            if k >= 64 && self.mant > 0 {
                proof {
                    lemma_two_to_grows(64, k as nat);
                    assert(m * two_to(k as nat) >= two_to(64)) by (nonlinear_arith)
                        requires
                            m >= 1,
                            two_to(k as nat) >= two_to(64),
                    ;
                }
                return true;
            }
            if self.mant == 0 {
                assert(0 * two_to(k as nat) == 0) by (nonlinear_arith);
                return n == 0;
            }
            let p: u128 = power_of_two(k);
            proof {
                lemma_two_to_grows(k as nat, 64);
                assert(m * p <= 0x20_0000_0000_0000 * 0x1_0000_0000_0000_0000) by (nonlinear_arith)
                    requires
                        m <= 0x20_0000_0000_0000,
                        p <= 0x1_0000_0000_0000_0000,
                ;
            }
            return m * p >= n as u128;
        }
        let s: u32 = 1074 - self.shift;
        if s >= 64 {
            proof {
                lemma_two_to_grows(64, s as nat);
                let q = two_to(s as nat);
                if n > 0 {
                    assert(n * q >= two_to(64)) by (nonlinear_arith)
                        requires
                            n >= 1,
                            q >= two_to(64),
                    ;
                } else {
                    assert(0 * q == 0) by (nonlinear_arith);
                }
            }
            return n == 0;
        }
        let p: u128 = power_of_two(s);
        proof {
            lemma_two_to_grows(s as nat, 63);
            assert(two_to(64) == 2 * two_to(63));
            assert(n * p <= 0xffff_ffff_ffff_ffff * 0x8000_0000_0000_0000) by (nonlinear_arith)
                requires
                    n <= 0xffff_ffff_ffff_ffff,
                    p <= 0x8000_0000_0000_0000,
            ;
        }
        m >= n as u128 * p
    }
}

} // verus!
