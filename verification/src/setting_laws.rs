//! What settings and numbers in texts stand for, and how seeds spread.

use crate::config::{
    idle_names, is_strategy_key, joseki_file, looked_at, map_of, names_in_order, overlaid, place_of, think_budget,
    unknown_names,
    DEFAULT_THINK_BUDGET_MS,
};
use crate::mate_report::{belongs, shard_of, slash_place};
use crate::numeral::lemma_decimal;
use crate::origin_weights::{
    class_place, dist_place, entry_of, filled, halves, is_good, place_of_name, reads, table_len,
};
use crate::check_mining::two_digits;
use crate::seeds::{drawn, folded, mixed, p99_place, seed_row, stepped, stepped_by, sum_of};
use crate::text::{decimal, digits_value, number_of, place_of_char, trimmed};
use vstd::prelude::*;
use vstd::string::*;

verus! {

/// The time for a move follows the value for the candidate alone where that is a number, else the value
/// for all where that is one, else it is two seconds.
pub proof fn law_time_for_a_move(
    source: Map<Seq<char>, Seq<char>>,
    a: Seq<char>,
    b: Seq<char>,
    n: u64,
    m: u64,
)
    requires
        number_of(a) == Some(n),
        number_of(b) == Some(m),
    ensures
        think_budget(source.insert("TSUITATE_CAND_THINK_BUDGET_MS"@, a)) == n,
        think_budget(
            source.remove("TSUITATE_CAND_THINK_BUDGET_MS"@).insert("TSUITATE_THINK_BUDGET_MS"@, b),
        ) == m,
        think_budget(
            source.insert("TSUITATE_THINK_BUDGET_MS"@, b).insert("TSUITATE_CAND_THINK_BUDGET_MS"@, a),
        ) == n,
        think_budget(
            source.remove("TSUITATE_CAND_THINK_BUDGET_MS"@).remove("TSUITATE_THINK_BUDGET_MS"@),
        ) == 2000,
        DEFAULT_THINK_BUDGET_MS == 2000,
{
    reveal_strlit("TSUITATE_CAND_THINK_BUDGET_MS");
    reveal_strlit("TSUITATE_THINK_BUDGET_MS");
    assert("TSUITATE_CAND_THINK_BUDGET_MS"@.len() == 29);
    assert("TSUITATE_THINK_BUDGET_MS"@.len() == 24);
}

/// A value that is no number counts as not set.
pub proof fn law_no_number_is_not_set(source: Map<Seq<char>, Seq<char>>, a: Seq<char>)
    requires
        number_of(a) is None,
    ensures
        think_budget(source.insert("TSUITATE_CAND_THINK_BUDGET_MS"@, a)) == think_budget(
            source.remove("TSUITATE_CAND_THINK_BUDGET_MS"@),
        ),
        think_budget(source.insert("TSUITATE_THINK_BUDGET_MS"@, a)) == think_budget(
            source.remove("TSUITATE_THINK_BUDGET_MS"@),
        ),
{
    reveal_strlit("TSUITATE_CAND_THINK_BUDGET_MS");
    reveal_strlit("TSUITATE_THINK_BUDGET_MS");
    assert("TSUITATE_CAND_THINK_BUDGET_MS"@.len() == 29);
    assert("TSUITATE_THINK_BUDGET_MS"@.len() == 24);
}

/// The opening book is the file that is named, else the one of the usual name.
pub proof fn law_opening_book(source: Map<Seq<char>, Seq<char>>, path: Seq<char>)
    ensures
        joseki_file(source.insert("TSUITATE_JOSEKI"@, path)) == path,
        joseki_file(source.remove("TSUITATE_JOSEKI"@)) == "joseki.json"@,
{
}

/// What is looked at are the named values a strategy knows, unchanged.
pub proof fn law_looked_at(source: Map<Seq<char>, Seq<char>>, key: Seq<char>)
    ensures
        looked_at(source).dom().contains(key) <==> source.dom().contains(key) && is_strategy_key(key),
        looked_at(source).dom().contains(key) ==> looked_at(source)[key] == source[key],
{
}

/// Of the values put over others the last of a name holds; a name that is not among them keeps its value.
pub proof fn law_last_value_holds(
    base: Map<Seq<char>, Seq<char>>,
    pairs: Seq<(Seq<char>, Seq<char>)>,
    key: Seq<char>,
    i: int,
)
    ensures
        0 <= i < pairs.len() && pairs[i].0 == key && (forall|k: int|
            i < k < pairs.len() ==> (#[trigger] pairs[k]).0 != key) ==> overlaid(base, pairs).dom().contains(
            key,
        ) && overlaid(base, pairs)[key] == pairs[i].1,
        (forall|k: int| 0 <= k < pairs.len() ==> (#[trigger] pairs[k]).0 != key) ==> (overlaid(
            base,
            pairs,
        ).dom().contains(key) <==> base.dom().contains(key)) && (base.dom().contains(key) ==> overlaid(
            base,
            pairs,
        )[key] == base[key]),
    decreases pairs.len(),
{
    if pairs.len() > 0 {
        let head = pairs.drop_last();
        law_last_value_holds(base, head, key, i);
        assert(pairs[pairs.len() - 1] == pairs.last());
        if forall|k: int| 0 <= k < pairs.len() ==> (#[trigger] pairs[k]).0 != key {
            assert forall|k: int| 0 <= k < head.len() implies (#[trigger] head[k]).0 != key by {
                assert(pairs[k].0 != key);
            }
        }
        if 0 <= i < head.len() && pairs[i].0 == key && (forall|k: int|
            i < k < pairs.len() ==> (#[trigger] pairs[k]).0 != key) {
            assert forall|k: int| i < k < head.len() implies (#[trigger] head[k]).0 != key by {
                assert(pairs[k].0 != key);
            }
        }
    }
}

/// A name is unknown where no strategy looks at it; it is idle where one does and its value alone changes
/// nothing.
pub proof fn law_names_without_effect(
    pairs: Seq<(Seq<char>, Seq<char>)>,
    prints: Seq<Seq<char>>,
    base: Seq<char>,
    n: int,
    x: Seq<char>,
)
    requires
        0 <= n <= pairs.len(),
        prints.len() == pairs.len(),
    ensures
        unknown_names(pairs, n).contains(x) <==> !is_strategy_key(x) && exists|k: int|
            0 <= k < n && (#[trigger] pairs[k]).0 == x,
        idle_names(pairs, prints, base, n).contains(x) <==> is_strategy_key(x) && exists|k: int|
            0 <= k < n && (#[trigger] pairs[k]).0 == x && prints[k] == base,
    decreases n,
{
    if n > 0 {
        law_names_without_effect(pairs, prints, base, n - 1, x);
        let y = pairs[n - 1].0;
        let a = unknown_names(pairs, n - 1);
        let b = idle_names(pairs, prints, base, n - 1);
        lemma_push_contains(a, y, x);
        lemma_push_contains(b, y, x);
    }
}

proof fn lemma_push_contains(s: Seq<Seq<char>>, y: Seq<char>, x: Seq<char>)
    ensures
        s.push(y).contains(x) <==> s.contains(x) || x == y,
{
    if s.contains(x) {
        let k = choose|k: int| 0 <= k < s.len() && s[k] == x;
        assert(s.push(y)[k] == x);
    }
    assert(s.push(y)[s.len() as int] == y);
    if s.push(y).contains(x) {
        let k = choose|k: int| 0 <= k < s.push(y).len() && s.push(y)[k] == x;
        if k < s.len() {
            assert(s[k] == x);
        }
    }
}

/// A number that is written out is read back, with a plus sign before it or not.
pub proof fn law_numbers_round_trip(n: u64)
    ensures
        number_of(decimal(n as nat)) == Some(n),
        number_of(seq!['+'] + decimal(n as nat)) == Some(n),
        number_of(Seq::empty()) is None,
        number_of(seq!['-'] + decimal(n as nat)) is None,
{
    let t = decimal(n as nat);
    lemma_decimal(n as nat);
    assert('0' <= t[0] <= '9');
    assert((seq!['+'] + t).drop_first() =~= t);
    let m = seq!['-'] + t;
    assert(m[0] == '-');
}

/// A number stands for a text only where the text is a row of digits, one at least, behind one plus sign
/// at most.
pub proof fn law_numbers_are_digits(s: Seq<char>, i: int)
    requires
        0 <= i < s.len(),
        number_of(s) is Some,
    ensures
        '0' <= s[i] <= '9' || (i == 0 && s[0] == '+' && s.len() > 1),
{
    if s[0] == '+' {
        if i > 0 {
            assert(s.drop_first()[i - 1] == s[i]);
        }
    }
}

/// A part of several is named by two numbers with a slash between them.
pub proof fn law_shards(a: usize, b: usize, index: int)
    requires
        b > 0,
        index >= 0,
    ensures
        shard_of(decimal(a as nat) + seq!['/'] + decimal(b as nat)) == Some((a, b)),
        belongs(index, a as int, b as int) <==> exists|k: int| a < b && #[trigger] (k * b) + a == index,
{
    let s = decimal(a as nat) + seq!['/'] + decimal(b as nat);
    let n = decimal(a as nat).len() as int;
    lemma_decimal(a as nat);
    lemma_decimal(b as nat);
    law_numbers_round_trip(a as u64);
    law_numbers_round_trip(b as u64);
    assert forall|k: int| 0 <= k < n implies #[trigger] s[k] != '/' by {
        assert(s[k] == decimal(a as nat)[k]);
    }
    assert(s[n] == '/');
    lemma_slash(s, n, 0);
    assert(s.take(n) =~= decimal(a as nat));
    assert(s.skip(n + 1) =~= decimal(b as nat));
    let m = b as int;
    if index % m == a as int {
        let k = index / m;
        assert(k * m + a == index) by (nonlinear_arith)
            requires
                m > 0,
                k == index / m,
                index % m == a as int,
        ;
        assert(0 <= index % m < m);
        assert((k * b) + a == index);
    }
    if exists|k: int| a < b && #[trigger] (k * b) + a == index {
        let k = choose|k: int| a < b && #[trigger] (k * b) + a == index;
        assert(index % m == a as int) by (nonlinear_arith)
            requires
                k * m + a == index,
                0 <= a < m,
        ;
    }
}

proof fn lemma_slash(s: Seq<char>, n: int, i: int)
    requires
        0 <= i <= n < s.len(),
        s[n] == '/',
        forall|k: int| 0 <= k < n ==> #[trigger] s[k] != '/',
    ensures
        slash_place(s, i) == Some(n),
    decreases n - i,
{
    if i < n {
        assert(s[i] != '/');
        lemma_slash(s, n, i + 1);
    }
}

/// The weights of a list: an item names a place and a number, and a later item of a name counts.
pub proof fn law_weights_of_a_list(
    by_class: bool,
    items: Seq<Seq<char>>,
    n: int,
    t: Seq<Option<Seq<char>>>,
    name: Seq<char>,
    w: Seq<char>,
    i: int,
)
    requires
        0 < n <= items.len(),
        filled(by_class, items, n - 1) == Some(t),
        entry_of(items[n - 1]) == Some((name, w)),
        t.len() == table_len(by_class),
    ensures
        filled(by_class, items, n) is Some <==> place_of_name(by_class, name) is Some && reads(w),
        filled(by_class, items, n) matches Some(u) ==> u.len() == t.len() && (0 <= i < t.len() ==> u[i] == (
        if place_of_name(by_class, name) == Some(i) {
            Some(w)
        } else {
            t[i]
        })),
        filled(by_class, items, 0) matches Some(u) && u.len() == (if by_class {
            3int
        } else {
            4
        }) && (0 <= i < u.len() ==> u[i] is None),
{
}

/// The names of the classes and of the distances are those of their places, in order.
pub proof fn law_weight_names(by_class: bool)
    ensures
        class_place("knight"@) == Some(0int) && class_place("line"@) == Some(1int) && class_place("diag"@)
            == Some(2int),
        dist_place("d2"@) == Some(0int) && dist_place("d3"@) == Some(1int) && dist_place("d4"@) == Some(2int)
            && dist_place("d5+"@) == Some(3int),
        place_of_name(true, "line"@) == Some(1int) && place_of_name(false, "d3"@) == Some(1int),
        place_of_name(true, "d3"@) is None && place_of_name(false, "line"@) is None,
{
    reveal_strlit("knight");
    reveal_strlit("line");
    reveal_strlit("diag");
    reveal_strlit("d2");
    reveal_strlit("d3");
    reveal_strlit("d4");
    reveal_strlit("d5+");
    assert("knight"@.len() == 6 && "line"@.len() == 4 && "diag"@.len() == 4);
    assert("line"@[0] == 'l' && "diag"@[0] == 'd');
    assert("d2"@.len() == 2 && "d3"@.len() == 2 && "d4"@.len() == 2 && "d5+"@.len() == 3);
    assert("d2"@[1] == '2' && "d3"@[1] == '3' && "d4"@[1] == '4');
}

/// An item is what stands around its first colon, without the white space.
pub proof fn law_weight_items(name: Seq<char>, w: Seq<char>)
    requires
        !name.contains(':'),
    ensures
        entry_of(name + seq![':'] + w) == Some((trimmed(name), trimmed(w))),
        entry_of(name) is None,
{
    let s = name + seq![':'] + w;
    let n = name.len() as int;
    assert forall|k: int| 0 <= k < n implies #[trigger] s[k] != ':' by {
        assert(name[k] == s[k]);
        assert(name.contains(name[k]));
    }
    assert(s[n] == ':');
    lemma_char_place(s, ':', n, 0);
    assert(s.take(n) =~= name);
    assert(s.skip(n + 1) =~= w);
    lemma_char_nowhere(name, ':', 0);
}

/// The two halves of a text of weights stand around a semicolon; a second one spoils it.
pub proof fn law_weight_halves(a: Seq<char>, b: Seq<char>, c: Seq<char>)
    requires
        !a.contains(';'),
        !b.contains(';'),
    ensures
        halves(a) == Some((a, Seq::<char>::empty())),
        halves(a + seq![';'] + b) == Some((a, b)),
        halves(a + seq![';'] + b + seq![';'] + c) is None,
{
    lemma_char_nowhere(a, ';', 0);
    lemma_char_nowhere(b, ';', 0);
    let n = a.len() as int;
    let s = a + seq![';'] + b;
    assert forall|k: int| 0 <= k < n implies #[trigger] s[k] != ';' by {
        assert(a[k] == s[k]);
        assert(a.contains(a[k]));
    }
    assert(s[n] == ';');
    lemma_char_place(s, ';', n, 0);
    assert(s.take(n) =~= a);
    assert(s.skip(n + 1) =~= b);
    let t = a + seq![';'] + b + seq![';'] + c;
    assert forall|k: int| 0 <= k < n implies #[trigger] t[k] != ';' by {
        assert(a[k] == t[k]);
        assert(a.contains(a[k]));
    }
    assert(t[n] == ';');
    lemma_char_place(t, ';', n, 0);
    let rest = b + seq![';'] + c;
    assert(t.skip(n + 1) =~= rest);
    let m = b.len() as int;
    assert forall|k: int| 0 <= k < m implies #[trigger] rest[k] != ';' by {
        assert(b[k] == rest[k]);
        assert(b.contains(b[k]));
    }
    assert(rest[m] == ';');
    lemma_char_place(rest, ';', m, 0);
}

proof fn lemma_char_place(s: Seq<char>, c: char, n: int, i: int)
    requires
        0 <= i <= n < s.len(),
        s[n] == c,
        forall|k: int| 0 <= k < n ==> #[trigger] s[k] != c,
    ensures
        place_of_char(s, c, i) == Some(n),
    decreases n - i,
{
    if i < n {
        assert(s[i] != c);
        lemma_char_place(s, c, n, i + 1);
    }
}

proof fn lemma_char_nowhere(s: Seq<char>, c: char, i: int)
    requires
        0 <= i <= s.len(),
        !s.contains(c),
    ensures
        place_of_char(s, c, i) is None,
    decreases s.len() - i,
{
    if i < s.len() {
        assert(s.contains(s[i]));
        lemma_char_nowhere(s, c, i + 1);
    }
}

/// A table of weights is good where no weight is below zero and not all of them are zero.
pub proof fn law_good_weights(t: Seq<Option<Seq<char>>>, i: int)
    requires
        0 <= i < t.len(),
    ensures
        is_good(t) && (t[i] matches Some(w) && crate::text::is_numeral(w)) ==> !crate::numeral::number(
            t[i]->0,
        ).negative,
        (forall|k: int|
            0 <= k < t.len() ==> (#[trigger] t[k] matches Some(w) && crate::text::is_numeral(w)
                && crate::numeral::number(w).size.mant == 0)) ==> !is_good(t),
        (forall|k: int| 0 <= k < t.len() ==> #[trigger] t[k] is None) ==> is_good(t),
{
    if forall|k: int| 0 <= k < t.len() ==> #[trigger] t[k] is None {
        assert(t[i] is None);
    }
}

/// The place that ninety-nine in a hundred stand before: it is one of the list, and the share of those
/// before it is the largest that is not above that.
pub proof fn law_ninety_ninth(n: int)
    requires
        n > 0,
    ensures
        0 <= p99_place(n) < n,
        100 * p99_place(n) <= 99 * n,
        p99_place(n) == n - 1 || 99 * n < 100 * (p99_place(n) + 1),
{
}

/// The sum of a list grows by each number put behind it.
pub proof fn law_sums(s: Seq<u64>, x: u64)
    ensures
        sum_of(s.push(x)) == sum_of(s) + x,
        sum_of(Seq::empty()) == 0,
{
    assert(s.push(x).drop_last() =~= s);
}

/// A draw of as many places as there are takes each from the places there are, one step of the generator
/// after the other.
pub proof fn law_draws(state: u64, n: nat, k: int)
    requires
        0 <= k < n,
    ensures
        drawn(state, n).len() == n,
        0 <= drawn(state, n)[k] < n,
        stepped_by(state, 0) == state,
        stepped_by(state, (k + 1) as nat) == stepped(stepped_by(state, k as nat)),
{
}

/// The seeds of an evaluation are those of its base and their number, whatever their count: a longer row
/// begins with a shorter one, and each of its seeds comes from a different number.
pub proof fn law_seed_rows(base: u64, n: nat, m: nat, i: int)
    requires
        0 <= i < n <= m < 0x1_0000_0000_0000_0000,
    ensures
        seed_row(base, n).len() == n,
        seed_row(base, n)[i] == seed_row(base, m)[i],
        seed_row(base, n)[i] == mixed(base ^ ((i + 1) as u64)),
{
}

/// Multiplying by a number with an inverse takes different numbers to different ones.
proof fn lemma_times(x: u64, y: u64, c: u64, d: int, k: int)
    requires
        c * d == 1 + k * 0x1_0000_0000_0000_0000,
        x.wrapping_mul(c) == y.wrapping_mul(c),
    ensures
        x == y,
{
    let m = 0x1_0000_0000_0000_0000int;
    let p = x * c;
    let q = y * c;
    assert(p % m == q % m);
    let j = p / m - q / m;
    assert(p - q == m * j) by (nonlinear_arith)
        requires
            m > 0,
            p % m == q % m,
            j == p / m - q / m,
    ;
    let z = x - y;
    assert(z * c == p - q) by (nonlinear_arith)
        requires
            z == x - y,
            p == x * c,
            q == y * c,
    ;
    assert((z * c) * d == z * (c * d)) by (nonlinear_arith);
    assert((m * j) * d == m * (j * d)) by (nonlinear_arith);
    assert(z * (1 + k * m) == z + m * (z * k)) by (nonlinear_arith);
    let e = j * d - z * k;
    assert(m * e == m * (j * d) - m * (z * k)) by (nonlinear_arith)
        requires
            e == j * d - z * k,
    ;
    assert(z == m * e);
    assert(e == 0) by (nonlinear_arith)
        requires
            z == m * e,
            -m < z < m,
            m > 0,
    ;
}

/// Scrambling takes different numbers to different ones.
pub proof fn law_mixing_keeps_apart(x: u64, y: u64)
    requires
        x != y,
    ensures
        mixed(x) != mixed(y),
{
    if mixed(x) == mixed(y) {
        let a = x.wrapping_add(0x9E37_79B9_7F4A_7C15);
        let b = y.wrapping_add(0x9E37_79B9_7F4A_7C15);
        let a1 = a ^ (a >> 30u64);
        let b1 = b ^ (b >> 30u64);
        let a2 = a1.wrapping_mul(0xBF58_476D_1CE4_E5B9);
        let b2 = b1.wrapping_mul(0xBF58_476D_1CE4_E5B9);
        let a3 = a2 ^ (a2 >> 27u64);
        let b3 = b2 ^ (b2 >> 27u64);
        let a4 = a3.wrapping_mul(0x94D0_49BB_1331_11EB);
        let b4 = b3.wrapping_mul(0x94D0_49BB_1331_11EB);
        assert(a4 ^ (a4 >> 31u64) == b4 ^ (b4 >> 31u64) ==> a4 == b4) by (bit_vector);
        assert(0x94D0_49BB_1331_11EBu64 * 3573116690164977347int == 1 + 2077064247507883091int * 0x1_0000_0000_0000_0000);
        lemma_times(a3, b3, 0x94D0_49BB_1331_11EB, 3573116690164977347int, 2077064247507883091int);
        assert(a2 ^ (a2 >> 27u64) == b2 ^ (b2 >> 27u64) ==> a2 == b2) by (bit_vector);
        assert(0xBF58_476D_1CE4_E5B9u64 * 10871156337175269513int == 1 + 8125545580553827436int * 0x1_0000_0000_0000_0000);
        lemma_times(a1, b1, 0xBF58_476D_1CE4_E5B9, 10871156337175269513int, 8125545580553827436int);
        assert(a ^ (a >> 30u64) == b ^ (b >> 30u64) ==> a == b) by (bit_vector);
    }
}

/// The seeds of one evaluation are all different.
pub proof fn law_seeds_differ(base: u64, n: nat, i: int, j: int)
    requires
        0 <= i < j < n < 0x1_0000_0000_0000_0000,
    ensures
        seed_row(base, n)[i] != seed_row(base, n)[j],
{
    let a = (i + 1) as u64;
    let b = (j + 1) as u64;
    assert(base ^ a == base ^ b ==> a == b) by (bit_vector);
    law_mixing_keeps_apart(base ^ a, base ^ b);
}

/// A named value is found in a list that is in order by the names wherever it stands.
pub proof fn law_named_values(pairs: Seq<(String, String)>, key: Seq<char>, i: int)
    requires
        names_in_order(pairs),
    ensures
        0 <= i < pairs.len() && pairs[i].0@ == key ==> map_of(pairs).dom().contains(key) && map_of(pairs)[key]
            == pairs[i].1@,
        (forall|k: int| 0 <= k < pairs.len() ==> (#[trigger] pairs[k]).0@ != key) ==> !map_of(
            pairs,
        ).dom().contains(key),
{
    lemma_pair_place(pairs, key, 0);
    if 0 <= i < pairs.len() && pairs[i].0@ == key {
        let p = place_of(pairs, key, 0)->0;
        if p < i {
            assert(crate::text::comes_before(pairs[p].0@, pairs[i].0@));
            crate::text::lemma_one_comes_first(key, key);
        }
    }
}

proof fn lemma_pair_place(pairs: Seq<(String, String)>, key: Seq<char>, n: int)
    requires
        0 <= n <= pairs.len(),
    ensures
        match place_of(pairs, key, n) {
            Some(p) => n <= p < pairs.len() && pairs[p].0@ == key && forall|k: int|
                n <= k < p ==> (#[trigger] pairs[k]).0@ != key,
            None => forall|k: int| n <= k < pairs.len() ==> (#[trigger] pairs[k]).0@ != key,
        },
    decreases pairs.len() - n,
{
    if n < pairs.len() {
        lemma_pair_place(pairs, key, n + 1);
    }
}

/// The bytes of a text are folded in one by one, each by mixing it in and multiplying.
pub proof fn law_folding(bytes: Seq<u8>, b: u8)
    ensures
        folded(bytes.push(b)) == (folded(bytes) ^ (b as u64)).wrapping_mul(0x1000_0000_01b3),
        folded(Seq::empty()) == 0xcbf2_9ce4_8422_2325,
{
    assert(bytes.push(b).drop_last() =~= bytes);
}

/// A number of a hit has two digits at least, and is read as what it is.
pub proof fn law_two_digits(n: u64)
    ensures
        two_digits(n as nat).len() >= 2,
        number_of(two_digits(n as nat)) == Some(n),
{
    let t = two_digits(n as nat);
    lemma_decimal(n as nat);
    law_numbers_round_trip(n);
    if n < 10 {
        reveal_strlit("0");
        let d = decimal(n as nat);
        assert("0"@.len() == 1 && "0"@[0] == '0');
        assert(t.drop_last() =~= "0"@);
        assert("0"@.drop_last() =~= Seq::<char>::empty());
        assert(t.last() == d[0]);
        assert(d.drop_last() =~= Seq::<char>::empty());
        assert(d.last() == d[0]);
        assert(t[0] == '0' && t[1] == d[0]);
        assert(digits_value("0"@) == 0);
    } else {
        assert(decimal((n / 10) as nat).len() > 0) by {
            lemma_decimal((n / 10) as nat);
        }
    }
}

} // verus!
