//! Small verified building blocks for text: decimal numerals, comparison and taking apart.

use vstd::prelude::*;
use vstd::string::*;

verus! {

/// The character of a decimal digit.
pub open spec fn digit_char(d: int) -> char {
    (48 + d) as char
}

/// The decimal numeral of `n`, without leading zeros.
pub open spec fn decimal(n: nat) -> Seq<char>
    decreases n,
{
    if n < 10 {
        seq![digit_char(n as int)]
    } else {
        decimal(n / 10).push(digit_char((n % 10) as int))
    }
}

/// The decimal numeral of a signed number.
pub open spec fn signed_decimal(n: int) -> Seq<char> {
    if n < 0 {
        seq!['-'] + decimal((-n) as nat)
    } else {
        decimal(n as nat)
    }
}

/// A digit as a text.
pub fn digit_str(d: u64) -> (res: &'static str)
    requires
        d < 10,
    ensures
        res@ == seq![digit_char(d as int)],
{
    proof {
        reveal_strlit("0");
        reveal_strlit("1");
        reveal_strlit("2");
        reveal_strlit("3");
        reveal_strlit("4");
        reveal_strlit("5");
        reveal_strlit("6");
        reveal_strlit("7");
        reveal_strlit("8");
        reveal_strlit("9");
    }
    match d {
        0 => "0",
        1 => "1",
        2 => "2",
        3 => "3",
        4 => "4",
        5 => "5",
        6 => "6",
        7 => "7",
        8 => "8",
        _ => "9",
    }
}

/// Appends the decimal numeral of `n`.
pub fn append_decimal(out: &mut String, n: u64)
    ensures
        final(out)@ == old(out)@ + decimal(n as nat),
    decreases n,
{
    if n >= 10 {
        append_decimal(out, n / 10);
    }
    out.append(digit_str(n % 10));
    assert(out@ == old(out)@ + decimal(n as nat));
}

/// Appends the decimal numeral of a signed number.
pub fn append_signed(out: &mut String, n: i64)
    ensures
        final(out)@ == old(out)@ + signed_decimal(n as int),
{
    if n < 0 {
        proof {
            reveal_strlit("-");
        }
        out.append("-");
        let magnitude: i128 = -(n as i128);
        append_decimal(out, magnitude as u64);
        assert(out@ == old(out)@ + signed_decimal(n as int));
    } else {
        append_decimal(out, n as u64);
    }
}

/// Whether two texts are the same.
pub fn same_text(a: &str, b: &str) -> (res: bool)
    ensures
        res == (a@ == b@),
{
    let left = a.to_owned();
    let right = b.to_owned();
    left == right
}

/// Whether a character is white space.
pub open spec fn is_white(c: char) -> bool {
    let n = c as u32;
    ||| 9 <= n <= 13
    ||| n == 32
    ||| n == 0x85
    ||| n == 0xA0
    ||| n == 0x1680
    ||| 0x2000 <= n <= 0x200A
    ||| n == 0x2028
    ||| n == 0x2029
    ||| n == 0x202F
    ||| n == 0x205F
    ||| n == 0x3000
}

/// Whether a character is white space.
pub fn white(c: char) -> (res: bool)
    ensures
        res == is_white(c),
{
    let n: u32 = c as u32;
    (9 <= n && n <= 13) || n == 32 || n == 0x85 || n == 0xA0 || n == 0x1680 || (0x2000 <= n && n
        <= 0x200A) || n == 0x2028 || n == 0x2029 || n == 0x202F || n == 0x205F || n == 0x3000
}

/// The text without white space in front.
pub open spec fn trimmed_front(s: Seq<char>) -> Seq<char>
    decreases s.len(),
{
    if s.len() > 0 && is_white(s[0]) {
        trimmed_front(s.drop_first())
    } else {
        s
    }
}

/// The text without white space behind.
pub open spec fn trimmed_back(s: Seq<char>) -> Seq<char>
    decreases s.len(),
{
    if s.len() > 0 && is_white(s.last()) {
        trimmed_back(s.drop_last())
    } else {
        s
    }
}

/// The text without white space around it.
pub open spec fn trimmed(s: Seq<char>) -> Seq<char> {
    trimmed_back(trimmed_front(s))
}

/// The text without white space around it.
pub fn trim(s: &str) -> (res: String)
    ensures
        res@ == trimmed(s@),
{
    let n: usize = s.unicode_len();
    let mut a: usize = 0;
    assert(s@.subrange(0, n as int) =~= s@);
    while a < n && white(s.get_char(a))
        invariant
            a <= n,
            n == s@.len(),
            trimmed_front(s@) == trimmed_front(s@.subrange(a as int, n as int)),
        decreases n - a,
    {
        assert(s@.subrange(a as int, n as int).drop_first() =~= s@.subrange(a + 1, n as int));
        a += 1;
    }
    let ghost front = s@.subrange(a as int, n as int);
    assert(front == trimmed_front(s@));
    let mut b: usize = n;
    while b > a && white(s.get_char(b - 1))
        invariant
            a <= b <= n,
            n == s@.len(),
            front == s@.subrange(a as int, n as int),
            trimmed_back(front) == trimmed_back(s@.subrange(a as int, b as int)),
        decreases b,
    {
        assert(s@.subrange(a as int, b as int).drop_last() =~= s@.subrange(a as int, b - 1));
        b -= 1;
    }
    s.substring_char(a, b).to_owned()
}

/// The lower-case form of an ASCII letter; other characters stay.
pub open spec fn ascii_lower(c: char) -> char {
    if 'A' <= c <= 'Z' {
        ((c as u32) + 32) as char
    } else {
        c
    }
}

/// Whether two texts differ at most in the case of ASCII letters.
pub open spec fn same_but_case(a: Seq<char>, b: Seq<char>) -> bool {
    a.map_values(|c: char| ascii_lower(c)) == b.map_values(|c: char| ascii_lower(c))
}

fn same_letter(a: char, b: char) -> (res: bool)
    ensures
        res == (ascii_lower(a) == ascii_lower(b)),
{
    let x: u32 = if 'A' <= a && a <= 'Z' {
        a as u32 + 32
    } else {
        a as u32
    };
    let y: u32 = if 'A' <= b && b <= 'Z' {
        b as u32 + 32
    } else {
        b as u32
    };
    x == y
}

/// Whether two texts differ at most in the case of ASCII letters.
pub fn equal_but_case(a: &str, b: &str) -> (res: bool)
    ensures
        res == same_but_case(a@, b@),
{
    let n: usize = a.unicode_len();
    let ghost x = a@.map_values(|c: char| ascii_lower(c));
    let ghost y = b@.map_values(|c: char| ascii_lower(c));
    if b.unicode_len() != n {
        assert(x.len() != y.len());
        return false;
    }
    let mut i: usize = 0;
    while i < n
        invariant
            i <= n,
            n == a@.len(),
            n == b@.len(),
            x == a@.map_values(|c: char| ascii_lower(c)),
            y == b@.map_values(|c: char| ascii_lower(c)),
            forall|k: int| 0 <= k < i ==> #[trigger] x[k] == y[k],
        decreases n - i,
    {
        if !same_letter(a.get_char(i), b.get_char(i)) {
            assert(x[i as int] != y[i as int]);
            return false;
        }
        i += 1;
    }
    assert(x =~= y);
    true
}

/// Whether a text comes before another in the order of the characters.
pub open spec fn comes_before(a: Seq<char>, b: Seq<char>) -> bool
    decreases a.len(),
{
    if b.len() == 0 {
        false
    } else if a.len() == 0 {
        true
    } else if a[0] != b[0] {
        a[0] < b[0]
    } else {
        comes_before(a.drop_first(), b.drop_first())
    }
}

/// Of two different texts exactly one comes before the other.
pub proof fn lemma_one_comes_first(a: Seq<char>, b: Seq<char>)
    ensures
        a == b ==> !comes_before(a, b),
        a != b ==> comes_before(a, b) != comes_before(b, a),
    decreases a.len(),
{
    if a.len() > 0 && b.len() > 0 && a[0] == b[0] {
        lemma_one_comes_first(a.drop_first(), b.drop_first());
        if a.drop_first() == b.drop_first() {
            assert(a =~= seq![a[0]] + a.drop_first());
            assert(b =~= seq![b[0]] + b.drop_first());
            assert(a == b);
        }
    } else if a.len() == 0 && b.len() == 0 {
        assert(a =~= b);
    }
}

/// The order goes on from text to text.
pub proof fn lemma_comes_before_chain(a: Seq<char>, b: Seq<char>, c: Seq<char>)
    requires
        comes_before(a, b),
        comes_before(b, c),
    ensures
        comes_before(a, c),
    decreases a.len(),
{
    if a.len() > 0 && a[0] == b[0] && b[0] == c[0] {
        lemma_comes_before_chain(a.drop_first(), b.drop_first(), c.drop_first());
    }
}

/// Texts that do not come before each other in turn do not from the first to the last.
pub proof fn lemma_not_before_chain(a: Seq<char>, b: Seq<char>, c: Seq<char>)
    requires
        !comes_before(b, a),
        !comes_before(c, b),
    ensures
        !comes_before(c, a),
{
    lemma_one_comes_first(a, b);
    lemma_one_comes_first(b, c);
    if comes_before(c, a) && a != b && b != c {
        lemma_comes_before_chain(c, a, b);
        lemma_one_comes_first(c, b);
    }
}

/// Whether a text comes before another in the order of the characters.
pub fn before(a: &str, b: &str) -> (res: bool)
    ensures
        res == comes_before(a@, b@),
{
    let n: usize = a.unicode_len();
    let m: usize = b.unicode_len();
    let mut i: usize = 0;
    assert(a@.skip(0) =~= a@);
    assert(b@.skip(0) =~= b@);
    while i < n && i < m
        invariant
            n == a@.len(),
            m == b@.len(),
            i <= n,
            i <= m,
            comes_before(a@, b@) == comes_before(a@.skip(i as int), b@.skip(i as int)),
        decreases n - i,
    {
        let x = a.get_char(i);
        let y = b.get_char(i);
        assert(a@.skip(i as int)[0] == x);
        assert(b@.skip(i as int)[0] == y);
        if x != y {
            return x < y;
        }
        assert(a@.skip(i as int).drop_first() =~= a@.skip(i + 1));
        assert(b@.skip(i as int).drop_first() =~= b@.skip(i + 1));
        i += 1;
    }
    i < m
}

/// Whether every character is a decimal digit.
pub open spec fn all_digits(s: Seq<char>) -> bool {
    forall|i: int| 0 <= i < s.len() ==> '0' <= #[trigger] s[i] <= '9'
}

/// The value of a row of decimal digits.
pub open spec fn digits_value(s: Seq<char>) -> nat
    decreases s.len(),
{
    if s.len() == 0 {
        0
    } else {
        digits_value(s.drop_last()) * 10 + ((s.last() as u32) - 48) as nat
    }
}

/// The digits of a numeral, behind the plus sign that it may carry.
pub open spec fn unsigned_part(s: Seq<char>) -> Seq<char> {
    if s.len() > 0 && s[0] == '+' {
        s.drop_first()
    } else {
        s
    }
}

/// The number that a numeral stands for, where it is one of at most 64 bits.
pub open spec fn number_of(s: Seq<char>) -> Option<u64> {
    let digits = unsigned_part(s);
    if digits.len() > 0 && all_digits(digits) && digits_value(digits) <= u64::MAX {
        Some(digits_value(digits) as u64)
    } else {
        None
    }
}

/// More digits never make a smaller number.
proof fn lemma_digits_grow(s: Seq<char>, n: int)
    requires
        0 <= n <= s.len(),
        all_digits(s),
    ensures
        digits_value(s.take(n)) <= digits_value(s),
    decreases s.len() - n,
{
    if n < s.len() {
        lemma_digits_grow(s, n + 1);
        assert(s.take(n + 1).drop_last() =~= s.take(n));
        assert(s.take(n + 1).last() == s[n]);
    } else {
        assert(s.take(n) =~= s);
    }
}

/// Reads a decimal numeral. A plus sign may stand in front; anything else, and a number of more
/// than 64 bits, is refused.
pub fn parse_number(s: &str) -> (res: Option<u64>)
    ensures
        res == number_of(s@),
{
    let n: usize = s.unicode_len();
    let start: usize = if n > 0 && s.get_char(0) == '+' {
        1
    } else {
        0
    };
    let ghost digits = unsigned_part(s@);
    assert(digits =~= s@.skip(start as int));
    if start >= n {
        return None;
    }
    let mut value: u64 = 0;
    let mut i: usize = start;
    assert(digits.take(0) =~= Seq::<char>::empty());
    while i < n
        invariant
            start <= i <= n,
            start <= 1,
            n == s@.len(),
            digits == s@.skip(start as int),
            digits == unsigned_part(s@),
            forall|k: int| 0 <= k < i - start ==> '0' <= #[trigger] digits[k] <= '9',
            value == digits_value(digits.take(i - start)),
        decreases n - i,
    {
        let c = s.get_char(i);
        assert(digits[i - start] == c);
        if c < '0' || '9' < c {
            return None;
        }
        let d: u64 = c as u64 - 48;
        let wide: u128 = (value as u128) * 10 + d as u128;
        proof {
            let t = digits.take(i - start + 1);
            assert(t.drop_last() =~= digits.take(i - start));
            assert(t.last() == c);
            assert(wide == digits_value(t));
        }
        if wide > u64::MAX as u128 {
            proof {
                if all_digits(digits) {
                    lemma_digits_grow(digits, i - start + 1);
                }
            }
            return None;
        }
        value = wide as u64;
        i += 1;
    }
    assert(digits.take(n - start) =~= digits);
    Some(value)
}

/// Whether a text begins with another.
pub open spec fn begins(s: Seq<char>, front: Seq<char>) -> bool {
    front.len() <= s.len() && s.take(front.len() as int) == front
}

/// Whether a text ends with another.
pub open spec fn ends(s: Seq<char>, back: Seq<char>) -> bool {
    back.len() <= s.len() && s.skip(s.len() - back.len()) == back
}

/// What follows the front of a text, where the text begins with it.
pub fn behind<'a>(s: &'a str, front: &str) -> (res: Option<&'a str>)
    ensures
        match res {
            Some(rest) => begins(s@, front@) && rest@ == s@.skip(front@.len() as int),
            None => !begins(s@, front@),
        },
{
    let n: usize = s.unicode_len();
    let m: usize = front.unicode_len();
    if m > n || !same_text(s.substring_char(0, m), front) {
        return None;
    }
    assert(s@.subrange(m as int, n as int) =~= s@.skip(m as int));
    Some(s.substring_char(m, n))
}

/// What stands before the end of a text, where the text ends with it.
pub fn ahead<'a>(s: &'a str, back: &str) -> (res: Option<&'a str>)
    ensures
        match res {
            Some(rest) => ends(s@, back@) && rest@ == s@.take(s@.len() - back@.len()),
            None => !ends(s@, back@),
        },
{
    let n: usize = s.unicode_len();
    let m: usize = back.unicode_len();
    if m > n {
        return None;
    }
    assert(s@.subrange(n - m, n as int) =~= s@.skip(n - m));
    if !same_text(s.substring_char(n - m, n), back) {
        return None;
    }
    assert(s@.subrange(0, n - m) =~= s@.take(n - m));
    Some(s.substring_char(0, n - m))
}

/// The first place of a character from `i` on.
pub open spec fn place_of_char(s: Seq<char>, c: char, i: int) -> Option<int>
    decreases s.len() - i,
{
    if i < 0 || i >= s.len() {
        None
    } else if s[i] == c {
        Some(i)
    } else {
        place_of_char(s, c, i + 1)
    }
}

/// The first place of a character.
pub fn find_char(s: &str, c: char) -> (res: Option<usize>)
    ensures
        match res {
            Some(i) => i < s@.len() && place_of_char(s@, c, 0) == Some(i as int),
            None => place_of_char(s@, c, 0) is None,
        },
{
    let n: usize = s.unicode_len();
    let mut i: usize = 0;
    while i < n
        invariant
            i <= n,
            n == s@.len(),
            place_of_char(s@, c, 0) == place_of_char(s@, c, i as int),
        decreases n - i,
    {
        if s.get_char(i) == c {
            return Some(i);
        }
        i += 1;
    }
    None
}

/// A character is found at a place where none stands before it.
pub proof fn lemma_place_of_char(s: Seq<char>, c: char, i: int, at: int)
    requires
        0 <= i <= at < s.len(),
        s[at] == c,
        forall|k: int| i <= k < at ==> s[k] != c,
    ensures
        place_of_char(s, c, i) == Some(at),
    decreases at - i,
{
    if i < at {
        lemma_place_of_char(s, c, i + 1, at);
    }
}

/// The end of the run of digits from `i` on.
pub open spec fn past_digits(s: Seq<char>, i: int) -> int
    decreases s.len() - i,
{
    if 0 <= i < s.len() && '0' <= s[i] <= '9' {
        past_digits(s, i + 1)
    } else {
        i
    }
}

/// The place behind the sign that a numeral may carry at `i`.
pub open spec fn past_sign(s: Seq<char>, i: int) -> int {
    if 0 <= i < s.len() && (s[i] == '+' || s[i] == '-') {
        i + 1
    } else {
        i
    }
}

/// The end of the digits of a numeral from `i` on, with the point among them.
pub open spec fn past_mantissa(s: Seq<char>, i: int) -> int {
    let whole = past_digits(s, i);
    if 0 <= whole < s.len() && s[whole] == '.' {
        past_digits(s, whole + 1)
    } else {
        whole
    }
}

/// Whether a numeral has a digit between two places.
pub open spec fn digit_between(s: Seq<char>, a: int, b: int) -> bool {
    exists|k: int| a <= k < b && '0' <= #[trigger] s[k] <= '9'
}

/// Whether a text is a decimal numeral: a sign or none, digits with at most one point among them,
/// an exponent or none.
pub open spec fn is_numeral(s: Seq<char>) -> bool {
    let a = past_sign(s, 0);
    let b = past_mantissa(s, a);
    &&& digit_between(s, a, b)
    &&& b == s.len() || {
        &&& s[b] == 'e' || s[b] == 'E'
        &&& past_sign(s, b + 1) < s.len()
        &&& past_digits(s, past_sign(s, b + 1)) == s.len()
    }
}

/// The end of the run of digits from a place on.
pub fn skip_digits(s: &str, from: usize) -> (res: usize)
    requires
        from <= s@.len(),
    ensures
        res == past_digits(s@, from as int),
        from <= res <= s@.len(),
        forall|k: int| from <= k < res ==> '0' <= #[trigger] s@[k] <= '9',
{
    let n: usize = s.unicode_len();
    let mut i: usize = from;
    while i < n && '0' <= s.get_char(i) && s.get_char(i) <= '9'
        invariant
            from <= i <= n,
            n == s@.len(),
            past_digits(s@, from as int) == past_digits(s@, i as int),
            forall|k: int| from <= k < i ==> '0' <= #[trigger] s@[k] <= '9',
        decreases n - i,
    {
        i += 1;
    }
    i
}

/// The place past a sign.
pub fn skip_sign(s: &str, from: usize) -> (res: usize)
    requires
        from <= s@.len(),
    ensures
        res == past_sign(s@, from as int),
        from <= res <= s@.len(),
{
    if from < s.unicode_len() && (s.get_char(from) == '+' || s.get_char(from) == '-') {
        from + 1
    } else {
        from
    }
}

/// The place past the digits of a numeral and its point.
pub fn skip_mantissa(s: &str, from: usize) -> (res: usize)
    requires
        from <= s@.len(),
    ensures
        res == past_mantissa(s@, from as int),
        from <= res <= s@.len(),
{
    let whole: usize = skip_digits(s, from);
    if whole < s.unicode_len() && s.get_char(whole) == '.' {
        skip_digits(s, whole + 1)
    } else {
        whole
    }
}

/// Whether a text is a decimal numeral.
pub fn numeral(s: &str) -> (res: bool)
    ensures
        res == is_numeral(s@),
{
    let n: usize = s.unicode_len();
    let a: usize = skip_sign(s, 0);
    let b: usize = skip_mantissa(s, a);
    let mut some = false;
    let mut i: usize = a;
    while i < b
        invariant
            a <= i <= b,
            b <= n,
            n == s@.len(),
            some == digit_between(s@, a as int, i as int),
        decreases b - i,
    {
        let c = s.get_char(i);
        if '0' <= c && c <= '9' {
            assert('0' <= s@[i as int] <= '9');
            some = true;
        }
        i += 1;
    }
    if !some || b == n {
        return some;
    }
    let e = s.get_char(b);
    if e != 'e' && e != 'E' {
        return false;
    }
    let from: usize = skip_sign(s, b + 1);
    from < n && skip_digits(s, from) == n
}

/// Between a place and the end of its run of digits stand digits alone.
pub proof fn lemma_past_digits(s: Seq<char>, i: int)
    requires
        0 <= i <= s.len(),
    ensures
        i <= past_digits(s, i) <= s.len(),
        forall|k: int| i <= k < past_digits(s, i) ==> '0' <= #[trigger] s[k] <= '9',
    decreases s.len() - i,
{
    if i < s.len() && '0' <= s[i] <= '9' {
        lemma_past_digits(s, i + 1);
    }
}

/// A numeral holds digits, signs, points and the letter of the exponent alone.
pub proof fn lemma_numeral_chars(s: Seq<char>, k: int)
    requires
        is_numeral(s),
        0 <= k < s.len(),
    ensures
        '0' <= s[k] <= '9' || s[k] == '+' || s[k] == '-' || s[k] == '.' || s[k] == 'e' || s[k]
            == 'E',
{
    let a = past_sign(s, 0);
    let whole = past_digits(s, a);
    lemma_past_digits(s, a);
    if whole < s.len() && s[whole] == '.' {
        lemma_past_digits(s, whole + 1);
    }
    let b = past_mantissa(s, a);
    if b < s.len() {
        lemma_past_digits(s, past_sign(s, b + 1));
    }
}

/// Trimming takes white space off both ends and nothing else: what is left is a part of the text that
/// neither begins nor ends with white space, and all before and behind it is white space.
pub proof fn law_trimmed(s: Seq<char>)
    ensures
        trimmed(s).len() > 0 ==> !is_white(trimmed(s)[0]) && !is_white(trimmed(s).last()),
        exists|a: int|
            0 <= a && a + trimmed(s).len() <= s.len() && trimmed(s) == #[trigger] s.subrange(
                a,
                a + trimmed(s).len(),
            ) && (forall|i: int| 0 <= i < a ==> is_white(#[trigger] s[i])) && (forall|i: int|
                a + trimmed(s).len() <= i < s.len() ==> is_white(#[trigger] s[i])),
        trimmed(trimmed(s)) == trimmed(s),
        (forall|i: int| 0 <= i < s.len() ==> is_white(#[trigger] s[i])) ==> trimmed(s).len() == 0,
{
    let f = trimmed_front(s);
    lemma_trimmed_front(s);
    lemma_trimmed_back(f);
    let t = trimmed_back(f);
    let a = s.len() - f.len();
    assert(t =~= s.subrange(a, a + t.len()));
    assert forall|i: int| a + t.len() <= i < s.len() implies is_white(#[trigger] s[i]) by {
        assert(f[i - a] == s[i]);
    }
    assert(a + t.len() <= s.len());
    if t.len() > 0 {
        assert(t[0] == f[0]);
    }
    assert(trimmed_front(t) == t);
    assert(trimmed_back(t) == t);
    assert(trimmed(s) == t);
    assert(trimmed(s) == s.subrange(a, a + trimmed(s).len()));
    if forall|i: int| 0 <= i < s.len() ==> is_white(#[trigger] s[i]) {
        if t.len() > 0 {
            assert(is_white(s[a]));
        }
    }
}

proof fn lemma_trimmed_front(s: Seq<char>)
    ensures
        trimmed_front(s).len() <= s.len(),
        trimmed_front(s) == s.skip(s.len() - trimmed_front(s).len()),
        trimmed_front(s).len() > 0 ==> !is_white(trimmed_front(s)[0]),
        forall|i: int| 0 <= i < s.len() - trimmed_front(s).len() ==> is_white(#[trigger] s[i]),
    decreases s.len(),
{
    if s.len() > 0 && is_white(s[0]) {
        let r = s.drop_first();
        lemma_trimmed_front(r);
        let k = r.len() - trimmed_front(r).len();
        assert(r.skip(k) =~= s.skip(k + 1));
        assert forall|i: int| 0 <= i < k + 1 implies is_white(#[trigger] s[i]) by {
            if i > 0 {
                assert(is_white(r[i - 1]));
            }
        }
    } else {
        assert(s.skip(0) =~= s);
    }
}

proof fn lemma_trimmed_back(s: Seq<char>)
    ensures
        trimmed_back(s).len() <= s.len(),
        trimmed_back(s) == s.take(trimmed_back(s).len() as int),
        trimmed_back(s).len() > 0 ==> !is_white(trimmed_back(s).last()),
        forall|i: int| trimmed_back(s).len() <= i < s.len() ==> is_white(#[trigger] s[i]),
    decreases s.len(),
{
    if s.len() > 0 && is_white(s.last()) {
        let r = s.drop_last();
        lemma_trimmed_back(r);
        let k = trimmed_back(r).len() as int;
        assert(r.take(k) =~= s.take(k));
        assert forall|i: int| k <= i < s.len() implies is_white(#[trigger] s[i]) by {
            if i < r.len() {
                assert(is_white(r[i]));
            }
        }
    } else {
        assert(s.take(s.len() as int) =~= s);
    }
}

/// Two texts are the same but for the case of their letters exactly where they are equally long and
/// each pair of characters is the same or the small and the capital form of one ASCII letter.
pub proof fn law_same_but_case(a: Seq<char>, b: Seq<char>)
    ensures
        same_but_case(a, b) <==> a.len() == b.len() && forall|i: int|
            0 <= i < a.len() ==> (#[trigger] a[i] == b[i] || ('A' <= a[i] <= 'Z' && b[i] as int
                == a[i] as int + 32) || ('A' <= b[i] <= 'Z' && a[i] as int == b[i] as int + 32)),
{
    let x = a.map_values(|c: char| ascii_lower(c));
    let y = b.map_values(|c: char| ascii_lower(c));
    if x == y {
        assert(x.len() == a.len() && y.len() == b.len());
        assert forall|i: int| 0 <= i < a.len() implies (#[trigger] a[i] == b[i] || ('A' <= a[i] <= 'Z'
            && b[i] as int == a[i] as int + 32) || ('A' <= b[i] <= 'Z' && a[i] as int == b[i] as int
            + 32)) by {
            assert(x[i] == y[i]);
            lemma_lower(a[i], b[i]);
        }
    }
    if a.len() == b.len() && forall|i: int|
        0 <= i < a.len() ==> (#[trigger] a[i] == b[i] || ('A' <= a[i] <= 'Z' && b[i] as int
            == a[i] as int + 32) || ('A' <= b[i] <= 'Z' && a[i] as int == b[i] as int + 32)) {
        assert forall|i: int| 0 <= i < a.len() implies #[trigger] x[i] == y[i] by {
            assert(a[i] == a[i]);
            lemma_lower(a[i], b[i]);
        }
        assert(x =~= y);
    }
}

proof fn lemma_lower(a: char, b: char)
    ensures
        ascii_lower(a) == ascii_lower(b) <==> (a == b || ('A' <= a <= 'Z' && b as int == a as int
            + 32) || ('A' <= b <= 'Z' && a as int == b as int + 32)),
{
}

} // verus!
