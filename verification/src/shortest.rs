//! Decimals as binary numbers of 64 bits, and the shortest decimal that stands for a binary number.

use crate::bignum::{
    below, lemma_powers_positive, lemma_ten_to_adds, lemma_ten_to_grows, lemma_two_to_adds,
    lemma_two_to_grows, minus, ten_to, times_plus, times_ten_to, times_two_to, two_to, words_value,
};
use crate::binary::{
    is_size, lemma_rounded_exact, lemma_rounded_near, lemma_rounded_scaled,
    lemma_rounded_to_nothing, lemma_rounded_too_large, no_size, round, rounded, Size,
};
use crate::text::{all_digits, decimal, digit_char, digits_value};
use vstd::arithmetic::div_mod::{lemma_fundamental_div_mod, lemma_fundamental_div_mod_converse};
use vstd::prelude::*;

verus! {

/// Ten to the power of 400, in units of the smallest size.
pub open spec fn unit() -> nat {
    two_to(1074) * ten_to(400)
}

/// What `m` times ten to the power of `x` is rounded to.
pub open spec fn decimal_size(m: nat, x: int) -> Size {
    if x <= 400 {
        rounded(m * unit(), ten_to((400 - x) as nat))
    } else {
        rounded(m * unit() * ten_to((x - 400) as nat), 1)
    }
}

/// How often ten to the power of 400 less `j` goes into a size.
pub open spec fn floor_at(b: Size, j: nat) -> nat {
    b.mant * two_to(b.shift) * ten_to(j) / unit()
}

/// What is left of a size then, as a part of that power.
pub open spec fn rest_at(b: Size, j: nat) -> nat {
    b.mant * two_to(b.shift) * ten_to(j) % unit()
}

/// Whether `c` times ten to the power of 400 less `j` is rounded to a size.
pub open spec fn reads_as(c: nat, j: nat, b: Size) -> bool {
    decimal_size(c, 400 - j) == b
}

/// The first place from `j` on at which one of the two decimals next to a size is rounded to it.
pub open spec fn place(b: Size, j: nat) -> nat
    decreases 1474 - j,
{
    if j >= 1474 || reads_as(floor_at(b, j), j, b) || reads_as(floor_at(b, j) + 1, j, b) {
        j
    } else {
        place(b, j + 1)
    }
}

/// The digits of the shortest decimal that is rounded to a size, as a number. Of two of the same
/// length it is the nearer one, and of two that are equally near the greater.
pub open spec fn shortest_digits(b: Size) -> nat {
    let j = place(b, 0);
    let low = floor_at(b, j);
    if reads_as(low, j, b) && (!reads_as(low + 1, j, b) || 2 * rest_at(b, j) < unit()) {
        low
    } else {
        low + 1
    }
}

proof fn lemma_ten_beats_two(n: nat)
    ensures
        ten_to(3 * n) >= two_to(9 * n),
    decreases n,
{
    if n > 0 {
        lemma_ten_beats_two((n - 1) as nat);
        lemma_ten_to_adds((3 * n - 3) as nat, 3);
        lemma_two_to_adds((9 * n - 9) as nat, 9);
        assert(ten_to(3) == 1000) by {
            reveal_with_fuel(ten_to, 4);
        }
        assert(two_to(9) == 512) by {
            reveal_with_fuel(two_to, 10);
        }
        let a = ten_to((3 * n - 3) as nat);
        let b = two_to((9 * n - 9) as nat);
        assert(a * 1000 >= b * 512) by (nonlinear_arith)
            requires
                a >= b,
                b >= 0,
        ;
    }
}

/// The power of ten is beyond every size.
proof fn lemma_unit()
    ensures
        unit() >= two_to(2098),
        unit() > 0,
        ten_to(400) >= two_to(1197),
{
    lemma_ten_beats_two(133);
    lemma_ten_to_grows(399, 400);
    lemma_two_to_adds(1074, 1197);
    lemma_two_to_grows(2098, 2271);
    lemma_powers_positive(1074);
    lemma_powers_positive(2098);
    assert(two_to(1074) * ten_to(400) >= two_to(1074) * two_to(1197)) by (nonlinear_arith)
        requires
            ten_to(400) >= two_to(1197),
    ;
}

proof fn lemma_size_bound(b: Size)
    requires
        is_size(b),
    ensures
        b.mant * two_to(b.shift) < unit(),
{
    lemma_unit();
    lemma_two_to_adds(b.shift, 53);
    lemma_two_to_grows(b.shift + 53, 2098);
    lemma_powers_positive(b.shift);
    assert(b.mant * two_to(b.shift) < two_to(b.shift) * two_to(53)) by (nonlinear_arith)
        requires
            b.mant < two_to(53),
            two_to(b.shift) > 0,
    ;
}

/// Decimals beyond every size.
pub proof fn lemma_decimal_too_large(m: nat, x: int)
    requires
        m >= 1,
        x > 400,
    ensures
        decimal_size(m, x).shift >= 2046,
{
    lemma_unit();
    let p = ten_to((x - 400) as nat);
    lemma_powers_positive((x - 400) as nat);
    assert(m * unit() * p >= unit()) by (nonlinear_arith)
        requires
            m >= 1,
            p >= 1,
            unit() > 0,
    ;
    assert(1 * two_to(2098) == two_to(2098));
    lemma_rounded_too_large(m * unit() * p, 1);
}

/// Decimals below half of the smallest size.
pub proof fn lemma_decimal_too_small(m: nat, len: nat, x: int)
    requires
        m < ten_to(len),
        x + len < -400,
    ensures
        decimal_size(m, x) == no_size(),
{
    lemma_unit();
    let down = (400 - x) as nat;
    lemma_ten_to_grows(len + 801, down);
    lemma_ten_to_adds(len, 801);
    lemma_ten_to_adds(400, 401);
    lemma_ten_to_grows(400, 401);
    lemma_two_to_grows(1075, 1197);
    assert(two_to(1075) == 2 * two_to(1074));
    lemma_powers_positive(len);
    lemma_powers_positive(400);
    lemma_powers_positive(1074);
    let a = ten_to(len);
    let h = ten_to(400);
    let w = two_to(1074);
    let g = ten_to(401);
    assert(2 * (m * (w * h)) < a * (h * g)) by (nonlinear_arith)
        requires
            m < a,
            g >= 2 * w,
            h > 0,
            w > 0,
            a > 0,
    ;
    lemma_rounded_to_nothing(m * unit(), ten_to(down));
}

pub proof fn lemma_digits_bound(s: Seq<char>)
    requires
        all_digits(s),
    ensures
        digits_value(s) < ten_to(s.len()),
    decreases s.len(),
{
    if s.len() > 0 {
        let rest = s.drop_last();
        assert forall|i: int| 0 <= i < rest.len() implies '0' <= #[trigger] rest[i] <= '9' by {
            assert('0' <= s[i] <= '9');
        }
        lemma_digits_bound(rest);
        assert('0' <= s[s.len() - 1] <= '9');
    }
}

/// A row of digits that does not begin with zero is the decimal numeral of its value.
proof fn lemma_digits_are_decimal(s: Seq<char>)
    requires
        all_digits(s),
        s.len() > 0,
        s[0] != '0',
    ensures
        digits_value(s) > 0,
        decimal(digits_value(s)) == s,
    decreases s.len(),
{
    let rest = s.drop_last();
    let last = s[s.len() - 1];
    assert('0' <= s[s.len() - 1] <= '9');
    assert('0' <= s[0] <= '9');
    let d = (last as u32 - 48) as nat;
    assert(digit_char(d as int) == last);
    if rest.len() == 0 {
        assert(digits_value(rest) == 0);
        assert(digits_value(s) == d);
        assert(s =~= seq![last]);
    } else {
        assert forall|i: int| 0 <= i < rest.len() implies '0' <= #[trigger] rest[i] <= '9' by {
            assert('0' <= s[i] <= '9');
        }
        lemma_digits_are_decimal(rest);
        let v = digits_value(rest);
        assert(digits_value(s) == v * 10 + d);
        assert((v * 10 + d) / 10 == v && (v * 10 + d) % 10 == d);
        assert(s =~= rest.push(last));
    }
}

/// At the last place a size is a whole number of units.
proof fn lemma_last_place(b: Size)
    requires
        is_size(b),
    ensures
        reads_as(floor_at(b, 1474), 1474, b),
{
    let w = b.mant * two_to(b.shift);
    let t = ten_to(1474);
    lemma_ten_to_adds(400, 1074);
    lemma_even_power(1074);
    let f = five_to(1074);
    lemma_unit();
    assert(t == unit() * f) by (nonlinear_arith)
        requires
            t == ten_to(400) * ten_to(1074),
            ten_to(1074) == two_to(1074) * f,
            unit() == two_to(1074) * ten_to(400),
    ;
    assert(w * t == (w * f) * unit() + 0) by (nonlinear_arith)
        requires
            t == unit() * f,
    ;
    lemma_fundamental_div_mod_converse((w * t) as int, unit() as int, (w * f) as int, 0);
    assert(floor_at(b, 1474) == w * f);
    lemma_powers_positive(1474);
    assert((w * f) * unit() == t * w) by (nonlinear_arith)
        requires
            t == unit() * f,
    ;
    lemma_rounded_exact(b, t * w, t);
}

/// Five to a power.
pub open spec fn five_to(k: nat) -> nat
    decreases k,
{
    if k == 0 {
        1
    } else {
        5 * five_to((k - 1) as nat)
    }
}

proof fn lemma_even_power(k: nat)
    ensures
        ten_to(k) == two_to(k) * five_to(k),
    decreases k,
{
    if k == 0 {
        assert(two_to(0) * five_to(0) == 1) by (nonlinear_arith)
            requires
                two_to(0) == 1,
                five_to(0) == 1,
        ;
    } else {
        lemma_even_power((k - 1) as nat);
        let p = two_to((k - 1) as nat);
        let f = five_to((k - 1) as nat);
        assert(10 * (p * f) == (2 * p) * (5 * f)) by (nonlinear_arith);
    }
}

/// The place is the first that will do.
pub proof fn lemma_place(b: Size, j: nat)
    requires
        is_size(b),
        j <= 1474,
    ensures
        j <= place(b, j) <= 1474,
        ({
            let n = place(b, j);
            reads_as(floor_at(b, n), n, b) || reads_as(floor_at(b, n) + 1, n, b)
        }),
        forall|i: nat|
            j <= i < place(b, j) ==> !reads_as(#[trigger] floor_at(b, i), i, b) && !reads_as(
                floor_at(b, i) + 1,
                i,
                b,
            ),
    decreases 1474 - j,
{
    if j >= 1474 {
        lemma_last_place(b);
    } else if !(reads_as(floor_at(b, j), j, b) || reads_as(floor_at(b, j) + 1, j, b)) {
        lemma_place(b, j + 1);
    }
}

/// At the place before there is a tenth as much.
proof fn lemma_floor_before(b: Size, j: nat)
    requires
        j > 0,
    ensures
        floor_at(b, (j - 1) as nat) == floor_at(b, j) / 10,
{
    lemma_unit();
    let w = b.mant * two_to(b.shift);
    let p = ten_to((j - 1) as nat);
    let u = unit();
    assert(w * ten_to(j) == 10 * (w * p)) by (nonlinear_arith)
        requires
            ten_to(j) == 10 * p,
    ;
    let x = w * p;
    let f = x / u;
    let r = x % u;
    lemma_fundamental_div_mod(x as int, u as int);
    let g = (10 * x) / u;
    lemma_fundamental_div_mod((10 * x) as int, u as int);
    let s = (10 * x) % u;
    assert(10 * f <= g < 10 * f + 10) by (nonlinear_arith)
        requires
            x == u * f + r,
            0 <= r < u,
            10 * x == u * g + s,
            0 <= s < u,
            u > 0,
    ;
    assert(g / 10 == f);
}

/// What ten units stand for at a place, one stands for at the place before.
proof fn lemma_reads_before(c: nat, j: nat, b: Size)
    requires
        j > 0,
    ensures
        reads_as(10 * c, j, b) == reads_as(c, (j - 1) as nat, b),
{
    let p = ten_to((j - 1) as nat);
    lemma_powers_positive((j - 1) as nat);
    assert((10 * c) * unit() == (c * unit()) * 10) by (nonlinear_arith);
    assert(ten_to(j) == p * 10);
    lemma_rounded_scaled(c * unit(), p, 10);
}

/// The shortest decimal is rounded to its size, is not zero where the size is not, and does not end
/// with a zero.
pub proof fn lemma_shortest(b: Size)
    requires
        is_size(b),
        b.mant > 0,
    ensures
        reads_as(shortest_digits(b), place(b, 0), b),
        shortest_digits(b) > 0,
        shortest_digits(b) % 10 != 0,
        place(b, 0) <= 1474,
{
    let j = place(b, 0);
    let c = shortest_digits(b);
    lemma_place(b, 0);
    let low = floor_at(b, j);
    lemma_powers_positive(j);
    if c == 0 {
        assert(0 * unit() == 0) by (nonlinear_arith);
        lemma_rounded_to_nothing(0, ten_to(j));
        assert(false);
    }
    if c % 10 == 0 {
        let e = c / 10;
        assert(c == 10 * e);
        if j == 0 {
            lemma_size_bound(b);
            let w = b.mant * two_to(b.shift);
            assert(w * ten_to(0) == 0 * unit() + w) by (nonlinear_arith)
                requires
                    ten_to(0) == 1,
            ;
            lemma_fundamental_div_mod_converse(
                (w * ten_to(0)) as int,
                unit() as int,
                0,
                w as int,
            );
            assert(low == 0);
        } else {
            let i = (j - 1) as nat;
            lemma_floor_before(b, j);
            lemma_reads_before(e, j, b);
            assert(reads_as(e, i, b));
            let f = floor_at(b, i);
            assert(!reads_as(f, i, b) && !reads_as(f + 1, i, b));
            assert(e == f || e == f + 1);
        }
    }
}

/// The digits of the shortest decimal are not too many.
pub proof fn lemma_shortest_bound(b: Size)
    requires
        is_size(b),
    ensures
        shortest_digits(b) < ten_to(1475),
{
    let j = place(b, 0);
    lemma_place(b, 0);
    lemma_size_bound(b);
    lemma_unit();
    lemma_powers_positive(j);
    let w = b.mant * two_to(b.shift);
    let t = ten_to(j);
    let f = floor_at(b, j);
    lemma_fundamental_div_mod((w * t) as int, unit() as int);
    assert(f < t) by (nonlinear_arith)
        requires
            w * t == unit() * f + (w * t) % unit(),
            (w * t) % unit() >= 0,
            w < unit(),
            t > 0,
            unit() > 0,
    ;
    lemma_ten_to_grows(j + 1, 1475);
    assert(ten_to(j + 1) == 10 * t);
}

/// Where less than half a unit is there, neither of the decimals next to a size is rounded to it.
proof fn lemma_too_early(b: Size, j: nat)
    requires
        is_size(b),
        b.mant > 0,
        2 * (b.mant * two_to(b.shift) * ten_to(j)) <= unit(),
    ensures
        floor_at(b, j) == 0,
        !reads_as(0, j, b),
        !reads_as(1, j, b),
{
    lemma_unit();
    lemma_powers_positive(j);
    let x = b.mant * two_to(b.shift) * ten_to(j);
    assert(x == 0 * unit() + x) by (nonlinear_arith);
    lemma_fundamental_div_mod_converse(x as int, unit() as int, 0, x as int);
    assert(0 * unit() == 0) by (nonlinear_arith);
    lemma_rounded_to_nothing(0, ten_to(j));
    if reads_as(1, j, b) {
        assert(1 * unit() == unit()) by (nonlinear_arith);
        lemma_rounded_near(unit(), ten_to(j));
        assert(false);
    }
}

/// The value of a row of digits.
fn digits_number(digits: &Vec<char>) -> (res: Vec<u32>)
    requires
        all_digits(digits@),
    ensures
        words_value(res@) == digits_value(digits@),
{
    let mut out: Vec<u32> = Vec::new();
    let mut i: usize = 0;
    assert(digits_value(digits@.take(0)) == 0);
    while i < digits.len()
        invariant
            i <= digits@.len(),
            all_digits(digits@),
            words_value(out@) == digits_value(digits@.take(i as int)),
        decreases digits@.len() - i,
    {
        let c = digits[i];
        assert('0' <= digits@[i as int] <= '9');
        proof {
            let t = digits@.take(i + 1);
            assert(t.drop_last() =~= digits@.take(i as int));
            assert(t.last() == c);
        }
        out = times_plus(&out, 10, c as u32 - 48);
        i += 1;
    }
    assert(digits@.take(i as int) =~= digits@);
    out
}

fn one() -> (res: Vec<u32>)
    ensures
        words_value(res@) == 1,
{
    let zero: Vec<u32> = Vec::new();
    assert(words_value(zero@) == 0);
    times_plus(&zero, 0, 1)
}

/// Rounds a decimal: its digits, times ten to the power of `x`. Nothing comes back where it is too
/// large.
pub fn round_decimal(digits: &Vec<char>, x: i128) -> (res: Option<(u64, u32)>)
    requires
        all_digits(digits@),
        digits@.len() > 0,
        digits@[0] != '0',
        -0x1_0000_0000_0000_0000_0000_0000 <= x <= 0x1_0000_0000_0000_0000_0000_0000,
    ensures
        match res {
            Some((m, k)) => decimal_size(digits_value(digits@), x as int) == (Size {
                mant: m as nat,
                shift: k as nat,
            }) && k <= 2045,
            None => decimal_size(digits_value(digits@), x as int).shift >= 2046,
        },
{
    let ghost m = digits_value(digits@);
    proof {
        lemma_digits_are_decimal(digits@);
        lemma_digits_bound(digits@);
    }
    if x > 400 {
        proof {
            lemma_decimal_too_large(m, x as int);
        }
        return None;
    }
    if x + (digits.len() as i128) < -400 {
        proof {
            lemma_decimal_too_small(m, digits@.len(), x as int);
        }
        return Some((0, 0));
    }
    let n = digits_number(digits);
    let a = times_ten_to(&times_two_to(&n, 1074), 400);
    let d = times_ten_to(&one(), (400 - x) as u128);
    proof {
        let p = two_to(1074);
        let q = ten_to(400);
        assert((m * p) * q == m * (p * q)) by (nonlinear_arith);
        lemma_powers_positive((400 - x) as nat);
        assert(1 * ten_to((400 - x) as nat) == ten_to((400 - x) as nat)) by (nonlinear_arith);
    }
    round(&a, &d)
}

/// A row of digits after one is added to its value.
fn plus_one(digits: &Vec<char>) -> (res: Vec<char>)
    requires
        all_digits(digits@),
        digits@.len() > 0 ==> digits@[0] != '0',
    ensures
        all_digits(res@),
        digits_value(res@) == digits_value(digits@) + 1,
        res@.len() > 0,
        res@[0] != '0',
    decreases digits@.len(),
{
    let n: usize = digits.len();
    if n == 0 {
        let mut out: Vec<char> = Vec::new();
        out.push('1');
        assert(out@.drop_last() =~= Seq::<char>::empty());
        assert(digits_value(out@.drop_last()) == 0);
        return out;
    }
    let last = digits[n - 1];
    let mut front: Vec<char> = Vec::new();
    let mut i: usize = 0;
    while i < n - 1
        invariant
            i <= n - 1,
            n == digits@.len(),
            n > 0,
            front@ == digits@.take(i as int),
        decreases n - i,
    {
        front.push(digits[i]);
        i += 1;
        assert(front@ =~= digits@.take(i as int));
    }
    assert(front@ =~= digits@.drop_last());
    assert('0' <= digits@[n - 1] <= '9');
    assert forall|k: int| 0 <= k < front@.len() implies '0' <= #[trigger] front@[k] <= '9' by {
        assert('0' <= digits@[k] <= '9');
    }
    assert(front@.len() > 0 ==> front@[0] == digits@[0]);
    if last == '9' {
        let mut out = plus_one(&front);
        let ghost start = out@;
        out.push('0');
        assert(out@.drop_last() =~= start);
        assert(out@[0] == start[0]);
        assert forall|k: int| 0 <= k < out@.len() implies '0' <= #[trigger] out@[k] <= '9' by {
            if k < start.len() {
                assert('0' <= start[k] <= '9');
            }
        }
        out
    } else {
        let ghost start = front@;
        let next = next_digit(last);
        front.push(next);
        assert(front@.drop_last() =~= start);
        assert forall|k: int| 0 <= k < front@.len() implies '0' <= #[trigger] front@[k]
            <= '9' by {
            if k < start.len() {
                assert('0' <= start[k] <= '9');
            }
        }
        front
    }
}

fn next_digit(c: char) -> (res: char)
    requires
        '0' <= c < '9',
    ensures
        res as int == c as int + 1,
        '1' <= res <= '9',
{
    match c {
        '0' => '1',
        '1' => '2',
        '2' => '3',
        '3' => '4',
        '4' => '5',
        '5' => '6',
        '6' => '7',
        '7' => '8',
        _ => '9',
    }
}

fn digit_of(d: u32) -> (res: char)
    requires
        d < 10,
    ensures
        res as int == 48 + d,
        '0' <= res <= '9',
{
    match d {
        0 => '0',
        1 => '1',
        2 => '2',
        3 => '3',
        4 => '4',
        5 => '5',
        6 => '6',
        7 => '7',
        8 => '8',
        _ => '9',
    }
}

fn does_read(digits: &Vec<char>, j: u32, mant: u64, shift: u32) -> (res: bool)
    requires
        all_digits(digits@),
        digits@.len() > 0,
        digits@[0] != '0',
        j <= 1474,
        shift <= 2045,
    ensures
        res == reads_as(
            digits_value(digits@),
            j as nat,
            Size { mant: mant as nat, shift: shift as nat },
        ),
{
    match round_decimal(digits, 400 - j as i128) {
        Some((m, k)) => m == mant && k == shift,
        None => false,
    }
}

/// The shortest decimal that is rounded to a size: its digits, and the place of the last of them.
pub fn shortest(mant: u64, shift: u32) -> (res: (Vec<char>, u32))
    requires
        mant > 0,
        is_size(Size { mant: mant as nat, shift: shift as nat }),
    ensures
        ({
            let b = Size { mant: mant as nat, shift: shift as nat };
            res.0@ == decimal(shortest_digits(b)) && res.1 == place(b, 0)
        }),
{
    let ghost b = Size { mant: mant as nat, shift: shift as nat };
    let ghost w = b.mant * two_to(b.shift);
    let start = two_words(mant);
    let mut rest = times_two_to(&start, shift);
    let power = times_ten_to(&times_two_to(&one(), 1074), 400);
    let mut digits: Vec<char> = Vec::new();
    let mut j: u32 = 0;
    proof {
        lemma_unit();
        lemma_size_bound(b);
        assert(1 * two_to(1074) == two_to(1074)) by (nonlinear_arith);
        assert(w * ten_to(0) == w) by (nonlinear_arith)
            requires
                ten_to(0) == 1,
        ;
        assert(0 * unit() == 0) by (nonlinear_arith);
        assert(digits_value(digits@) == 0);
    }
    while j <= 1474
        invariant
            place(b, 0) == place(b, j as nat),
            b == (Size { mant: mant as nat, shift: shift as nat }),
            is_size(b),
            b.mant > 0,
            w == b.mant * two_to(b.shift),
            unit() > 0,
            words_value(power@) == unit(),
            all_digits(digits@),
            digits@.len() > 0 ==> digits@[0] != '0',
            j <= 1475,
            w * ten_to(j as nat) == digits_value(digits@) * unit() + words_value(rest@),
            words_value(rest@) < unit(),
        decreases 1475 - j,
    {
        let ghost f = digits_value(digits@);
        let ghost r = words_value(rest@);
        proof {
            lemma_fundamental_div_mod_converse(
                (w * ten_to(j as nat)) as int,
                unit() as int,
                f as int,
                r as int,
            );
            assert(floor_at(b, j as nat) == f);
            assert(rest_at(b, j as nat) == r);
        }
        let twice = times_plus(&rest, 2, 0);
        let early = digits.len() == 0 && !below(&power, &twice);
        if early {
            proof {
                assert(f == 0);
                assert(0 * unit() == 0) by (nonlinear_arith);
                lemma_too_early(b, j as nat);
            }
        } else {
            let low = digits.len() > 0 && does_read(&digits, j, mant, shift);
            let above = plus_one(&digits);
            let high = does_read(&above, j, mant, shift);
            proof {
                if digits@.len() == 0 {
                    assert(f == 0);
                    assert(0 * unit() == 0) by (nonlinear_arith);
                    lemma_powers_positive(j as nat);
                    lemma_rounded_to_nothing(0, ten_to(j as nat));
                }
                assert(low == reads_as(f, j as nat, b));
                assert(high == reads_as(f + 1, j as nat, b));
                lemma_digits_are_decimal(above@);
                if digits@.len() > 0 {
                    lemma_digits_are_decimal(digits@);
                }
            }
            if low || high {
                if low && (!high || below(&twice, &power)) {
                    return (digits, j);
                }
                return (above, j);
            }
        }
        proof {
            if j == 1474 {
                lemma_last_place(b);
            }
        }
        let mut next = times_plus(&rest, 10, 0);
        let mut d: u32 = 0;
        while !below(&next, &power)
            invariant
                words_value(power@) == unit(),
                unit() > 0,
                d <= 9,
                words_value(next@) + d * unit() == 10 * r,
                r < unit(),
            decreases words_value(next@),
        {
            next = minus(&next, &power);
            proof {
                assert((d + 1) * unit() == d * unit() + unit()) by (nonlinear_arith);
                assert(d + 1 <= 9) by (nonlinear_arith)
                    requires
                        (d + 1) * unit() <= 10 * r,
                        r < unit(),
                ;
            }
            d += 1;
        }
        let ghost before_ = digits@;
        if digits.len() > 0 || d > 0 {
            digits.push(digit_of(d));
            proof {
                assert(digits@.drop_last() =~= before_);
                assert forall|k: int| 0 <= k < digits@.len() implies '0' <= #[trigger] digits@[k]
                    <= '9' by {
                    if k < before_.len() {
                        assert('0' <= before_[k] <= '9');
                    }
                }
                assert(before_.len() > 0 ==> digits@[0] == before_[0]);
            }
        }
        proof {
            assert(digits_value(digits@) == 10 * f + d);
            let t = ten_to(j as nat);
            assert(ten_to((j + 1) as nat) == 10 * t);
            assert(w * (10 * t) == (10 * f + d) * unit() + words_value(next@)) by (nonlinear_arith)
                requires
                    w * t == f * unit() + r,
                    words_value(next@) + d * unit() == 10 * r,
            ;
        }
        rest = next;
        j += 1;
    }
    proof {
        lemma_place(b, 0);
    }
    (digits, j)
}

/// A number of 64 bits in words.
fn two_words(n: u64) -> (res: Vec<u32>)
    ensures
        words_value(res@) == n,
{
    let low: u32 = (n % 0x1_0000_0000) as u32;
    let high: u32 = (n / 0x1_0000_0000) as u32;
    let zero: Vec<u32> = Vec::new();
    assert(words_value(zero@) == 0);
    let h = times_plus(&zero, 0, high);
    let m = times_plus(&h, 0x1_0000, 0);
    times_plus(&m, 0x1_0000, low)
}

} // verus!
