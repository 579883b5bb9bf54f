//! The weights of the squares from which a king can be checked, as they are given on the command
//! line: by class and by distance. The numbers stay numerals.

use crate::numeral::{below_zero, is_zero, number};
use crate::scenario::{comma_list, split_list};
use crate::text::{
    equal_but_case, find_char, is_numeral, numeral, past_sign, place_of_char, same_but_case, same_text,
    skip_sign, trim, trimmed,
};
use vstd::prelude::*;
use vstd::string::*;

verus! {

/// Whether a text behind a sign is a word for a number that is not finite.
pub open spec fn is_word(s: Seq<char>, word: Seq<char>) -> bool {
    same_but_case(s.skip(past_sign(s, 0)), word)
}

/// Whether a text is read as a number.
pub open spec fn reads(s: Seq<char>) -> bool {
    is_numeral(s) || is_word(s, "inf"@) || is_word(s, "infinity"@) || is_word(s, "nan"@)
}

/// Whether a text stands for a number that is zero or more.
pub open spec fn is_weight(s: Seq<char>) -> bool {
    if is_numeral(s) {
        !number(s).negative
    } else {
        (is_word(s, "inf"@) || is_word(s, "infinity"@)) && !(s.len() > 0 && s[0] == '-')
    }
}

/// Whether a text stands for a number above zero, provided that it is not below.
pub open spec fn is_some_weight(s: Seq<char>) -> bool {
    is_numeral(s) ==> number(s).size.mant > 0
}

fn word(s: &str, w: &str) -> (res: bool)
    ensures
        res == is_word(s@, w@),
{
    let a: usize = skip_sign(s, 0);
    let n: usize = s.unicode_len();
    let rest = s.substring_char(a, n);
    assert(rest@ =~= s@.skip(a as int));
    equal_but_case(rest, w)
}

fn readable(s: &str) -> (res: bool)
    ensures
        res == reads(s@),
{
    numeral(s) || word(s, "inf") || word(s, "infinity") || word(s, "nan")
}

fn weight(s: &str) -> (res: bool)
    ensures
        res == is_weight(s@),
{
    if numeral(s) {
        return !below_zero(s);
    }
    (word(s, "inf") || word(s, "infinity")) && !(s.unicode_len() > 0 && s.get_char(0) == '-')
}

fn some_weight(s: &str) -> (res: bool)
    ensures
        res == is_some_weight(s@),
{
    !numeral(s) || !is_zero(s)
}

/// A name and what stands behind the colon.
pub open spec fn entry_of(item: Seq<char>) -> Option<(Seq<char>, Seq<char>)> {
    match place_of_char(item, ':', 0) {
        Some(i) => Some((trimmed(item.take(i)), trimmed(item.skip(i + 1)))),
        None => None,
    }
}

/// The place of a class by its name.
pub open spec fn class_place(name: Seq<char>) -> Option<int> {
    if name == "knight"@ {
        Some(0)
    } else if name == "line"@ {
        Some(1)
    } else if name == "diag"@ {
        Some(2)
    } else {
        None
    }
}

/// The place of a distance by its name.
pub open spec fn dist_place(name: Seq<char>) -> Option<int> {
    if name == "d2"@ {
        Some(0)
    } else if name == "d3"@ {
        Some(1)
    } else if name == "d4"@ {
        Some(2)
    } else if name == "d5+"@ {
        Some(3)
    } else {
        None
    }
}

/// The place of a name.
pub open spec fn place_of_name(by_class: bool, name: Seq<char>) -> Option<int> {
    if by_class {
        class_place(name)
    } else {
        dist_place(name)
    }
}

/// How many names there are.
pub open spec fn table_len(by_class: bool) -> nat {
    if by_class {
        3
    } else {
        4
    }
}

/// The table after the first `n` items. An item without a colon, a number or a known name spoils it;
/// a later item of a name counts more than an earlier one.
pub open spec fn filled(
    by_class: bool,
    items: Seq<Seq<char>>,
    n: int,
) -> Option<Seq<Option<Seq<char>>>>
    decreases n,
{
    if n <= 0 {
        Some(Seq::new(table_len(by_class), |i: int| None))
    } else {
        match (filled(by_class, items, n - 1), entry_of(items[n - 1])) {
            (Some(t), Some(e)) => match place_of_name(by_class, e.0) {
                Some(i) => if reads(e.1) {
                    Some(t.update(i, Some(e.1)))
                } else {
                    None
                },
                None => None,
            },
            _ => None,
        }
    }
}

/// The table that a part of the text stands for.
pub open spec fn table_of(by_class: bool, part: Seq<char>) -> Option<Seq<Option<Seq<char>>>> {
    let items = comma_list(part);
    filled(by_class, items, items.len() as int)
}

/// Whether the weights of a table are zero or more, and one of them is more. A weight that is not
/// given is one.
pub open spec fn is_good(t: Seq<Option<Seq<char>>>) -> bool {
    &&& forall|i: int| 0 <= i < t.len() ==> (#[trigger] t[i] matches Some(w) ==> is_weight(w))
    &&& exists|i: int|
        0 <= i < t.len() && (#[trigger] t[i] matches Some(w) ==> is_some_weight(w))
}

/// The part for the classes and that for the distances; nothing where there is a third.
pub open spec fn halves(spec: Seq<char>) -> Option<(Seq<char>, Seq<char>)> {
    match place_of_char(spec, ';', 0) {
        Some(i) => if place_of_char(spec.skip(i + 1), ';', 0) is None {
            Some((spec.take(i), spec.skip(i + 1)))
        } else {
            None
        },
        None => Some((spec, Seq::empty())),
    }
}

/// The tables that a text stands for.
pub open spec fn weights_of(spec: Seq<char>) -> Option<
    (Seq<Option<Seq<char>>>, Seq<Option<Seq<char>>>),
> {
    match halves(spec) {
        Some((a, b)) => match (table_of(true, a), table_of(false, b)) {
            (Some(c), Some(d)) => if is_good(c) && is_good(d) {
                Some((c, d))
            } else {
                None
            },
            _ => None,
        },
        None => None,
    }
}

/// The contents of a table.
pub open spec fn table_view(t: Seq<Option<String>>) -> Seq<Option<Seq<char>>> {
    t.map_values(
        |w: Option<String>|
            match w {
                Some(s) => Some(s@),
                None => None,
            },
    )
}

fn find_name(by_class: bool, name: &str) -> (res: Option<usize>)
    ensures
        match res {
            Some(i) => place_of_name(by_class, name@) == Some(i as int) && i < table_len(by_class),
            None => place_of_name(by_class, name@) is None,
        },
{
    if by_class {
        if same_text(name, "knight") {
            Some(0)
        } else if same_text(name, "line") {
            Some(1)
        } else if same_text(name, "diag") {
            Some(2)
        } else {
            None
        }
    } else if same_text(name, "d2") {
        Some(0)
    } else if same_text(name, "d3") {
        Some(1)
    } else if same_text(name, "d4") {
        Some(2)
    } else if same_text(name, "d5+") {
        Some(3)
    } else {
        None
    }
}

proof fn lemma_stays_spoilt(by_class: bool, items: Seq<Seq<char>>, a: int, b: int)
    requires
        0 <= a <= b,
        filled(by_class, items, a) is None,
    ensures
        filled(by_class, items, b) is None,
    decreases b - a,
{
    if a < b {
        lemma_stays_spoilt(by_class, items, a, b - 1);
    }
}

fn read_table(by_class: bool, part: &str) -> (res: Option<Vec<Option<String>>>)
    ensures
        match res {
            Some(t) => table_of(by_class, part@) == Some(table_view(t@)) && t@.len() == table_len(
                by_class,
            ),
            None => table_of(by_class, part@) is None,
        },
{
    let items = split_list(part);
    let ghost all = crate::config::texts_of(items@);
    let n: usize = if by_class {
        3
    } else {
        4
    };
    let mut out: Vec<Option<String>> = Vec::new();
    while out.len() < n
        invariant
            out@.len() <= n,
            forall|k: int| 0 <= k < out@.len() ==> #[trigger] out@[k] is None,
        decreases n - out@.len(),
    {
        out.push(None);
    }
    assert(table_view(out@) =~= Seq::new(table_len(by_class), |i: int| None::<Seq<char>>));
    let mut i: usize = 0;
    while i < items.len()
        invariant
            i <= items@.len(),
            all == crate::config::texts_of(items@),
            all == comma_list(part@),
            out@.len() == table_len(by_class),
            filled(by_class, all, i as int) == Some(table_view(out@)),
        decreases items@.len() - i,
    {
        assert(all[i as int] == items@[i as int]@);
        let item = items[i].as_str();
        let ghost start = out@;
        let found = find_char(item, ':');
        let mut good = false;
        if let Some(c) = found {
            let len: usize = item.unicode_len();
            let head = item.substring_char(0, c);
            let tail = item.substring_char(c + 1, len);
            assert(head@ =~= item@.take(c as int));
            assert(tail@ =~= item@.skip(c + 1));
            let name = trim(head);
            let value = trim(tail);
            if let Some(k) = find_name(by_class, name.as_str()) {
                if readable(value.as_str()) {
                    good = true;
                    let ghost text = value@;
                    out.set(k, Some(value));
                    assert(table_view(out@) =~= table_view(start).update(k as int, Some(text)));
                }
            }
        }
        if !good {
            proof {
                assert(filled(by_class, all, i + 1) is None);
                lemma_stays_spoilt(by_class, all, i + 1, all.len() as int);
            }
            return None;
        }
        i += 1;
    }
    Some(out)
}

fn good_table(t: &Vec<Option<String>>) -> (res: bool)
    ensures
        res == is_good(table_view(t@)),
{
    let ghost all = table_view(t@);
    let mut some = false;
    let mut i: usize = 0;
    while i < t.len()
        invariant
            i <= t@.len(),
            all == table_view(t@),
            forall|k: int| 0 <= k < i ==> (#[trigger] all[k] matches Some(w) ==> is_weight(w)),
            some ==> exists|k: int|
                0 <= k < all.len() && (#[trigger] all[k] matches Some(w) ==> is_some_weight(w)),
            !some ==> forall|k: int|
                0 <= k < i ==> (#[trigger] all[k] matches Some(w) && !is_some_weight(w)),
        decreases t@.len() - i,
    {
        match &t[i] {
            Some(w) => {
                assert(all[i as int] == Some(w@));
                if !weight(w.as_str()) {
                    return false;
                }
                if some_weight(w.as_str()) {
                    some = true;
                }
            },
            None => {
                assert(all[i as int] is None);
                some = true;
            },
        }
        i += 1;
    }
    some
}

/// The weights by class and by distance; one that is not given is one.
#[derive(Debug)]
pub struct OriginWeights {
    pub class: Vec<Option<String>>,
    pub dist: Vec<Option<String>>,
}

impl OriginWeights {
    /// Reads weights such as `knight:1,line:2,diag:3;d2:4,d3:2,d4:1,d5+:1`. None may be below zero,
    /// and neither all of the classes nor all of the distances may be zero.
    pub fn parse(spec: &str) -> (res: Option<OriginWeights>)
        ensures
            match res {
                Some(w) => weights_of(spec@) == Some((table_view(w.class@), table_view(w.dist@)))
                    && w.class@.len() == 3 && w.dist@.len() == 4,
                None => weights_of(spec@) is None,
            },
    {
        let n: usize = spec.unicode_len();
        let (a, b) = match find_char(spec, ';') {
            Some(i) => {
                let rest = spec.substring_char(i + 1, n);
                assert(rest@ =~= spec@.skip(i + 1));
                if find_char(rest, ';').is_some() {
                    return None;
                }
                let head = spec.substring_char(0, i);
                assert(head@ =~= spec@.take(i as int));
                (head, rest)
            },
            None => {
                let none = spec.substring_char(0, 0);
                assert(none@ =~= Seq::<char>::empty());
                (spec, none)
            },
        };
        let class = match read_table(true, a) {
            Some(t) => t,
            None => return None,
        };
        let dist = match read_table(false, b) {
            Some(t) => t,
            None => return None,
        };
        if good_table(&class) && good_table(&dist) {
            Some(OriginWeights { class, dist })
        } else {
            None
        }
    }
}

} // verus!
