//! Experiments on positions out of real games: which position is meant, what a strategy chooses
//! there, and how games go on from it.

use crate::board::{parse_usi_square, square_of_text, Coord};
use crate::candidates::{insert_text, lemma_no_texts, text_set};
use crate::client::text_of;
use crate::config::texts_of;
use crate::kifu::{Kifu, Ply};
use crate::lists::{lemma_placed_by, sorted_by};
use crate::model::{bump, bumped};
use crate::observation::{Event, Observation, ObservationLog};
use crate::protocol::{Color, Role, MAX_FOULS};
use crate::replay::{raised, side_idx, side_place, Replayed};
use crate::shogi::{
    attacks_from, legal, move_of_text, parse_usi, piece_list, text_of_move, writable, Piece,
    Position, PositionModel,
};
use crate::text::{append_decimal, decimal, digit_char, number_of, parse_number, same_text, trim, trimmed};
use vstd::prelude::*;
use vstd::string::*;

verus! {

/// A position to experiment on.
#[derive(Debug)]
pub struct Scenario {
    pub name: String,
    pub desc: String,
    /// The move to look out for.
    pub target: String,
    /// How many moves are played; the next is the one to choose.
    pub ply: usize,
    /// The squares to test for attacks.
    pub diag_squares: Vec<String>,
    /// The number of moves, counted from the start of the game, at which a game is broken off.
    pub limit: u32,
    pub kifu: Kifu,
}

/// Why a score does not make a scenario.
#[derive(Debug, PartialEq, Eq)]
pub enum ScenarioError {
    /// Nothing says how many moves to play.
    NoPly,
    /// The score has fewer moves.
    BeyondScore { ply: usize, plies: usize },
    /// The place in the list of squares of the first that is none.
    BadSquare { place: usize },
}

/// Whether a scenario is named by its file.
pub open spec fn names_file(spec: Seq<char>) -> bool {
    spec.contains('/') || (spec.len() >= 4 && spec.skip(spec.len() - 4) == ".kif"@)
}

/// Whether a scenario is named by its file. Other names are looked up among the scenarios.
pub fn is_file_name(spec: &str) -> (res: bool)
    ensures
        res == names_file(spec@),
{
    let n: usize = spec.unicode_len();
    let mut i: usize = 0;
    while i < n
        invariant
            i <= n,
            n == spec@.len(),
            forall|k: int| 0 <= k < i ==> #[trigger] spec@[k] != '/',
        decreases n - i,
    {
        if spec.get_char(i) == '/' {
            assert(spec@[i as int] == '/');
            return true;
        }
        i += 1;
    }
    if n < 4 {
        return false;
    }
    assert(spec@.skip(n - 4) =~= spec@.subrange(n - 4, n as int));
    same_text(spec.substring_char(n - 4, n), ".kif")
}

/// What a score says under a name.
pub open spec fn directive_of(directives: Seq<(String, String)>, name: Seq<char>, i: int) -> Option<
    Seq<char>,
>
    decreases directives.len() - i,
{
    if i < 0 || i >= directives.len() {
        None
    } else if directives[i].0@ == name {
        Some(directives[i].1@)
    } else {
        directive_of(directives, name, i + 1)
    }
}

/// What a score says under a name.
pub fn directive(kifu: &Kifu, name: &str) -> (res: Option<String>)
    ensures
        match res {
            Some(v) => directive_of(kifu.directives@, name@, 0) == Some(v@),
            None => directive_of(kifu.directives@, name@, 0) is None,
        },
{
    let mut i: usize = 0;
    while i < kifu.directives.len()
        invariant
            i <= kifu.directives@.len(),
            directive_of(kifu.directives@, name@, 0) == directive_of(
                kifu.directives@,
                name@,
                i as int,
            ),
        decreases kifu.directives@.len() - i,
    {
        if same_text(kifu.directives[i].0.as_str(), name) {
            return Some(kifu.directives[i].1.clone());
        }
        i += 1;
    }
    None
}

/// The number that a text stands for, where the machine can hold it.
pub open spec fn count_of(s: Option<Seq<char>>) -> Option<usize> {
    match s {
        Some(t) => match number_of(t) {
            Some(n) => if n <= usize::MAX {
                Some(n as usize)
            } else {
                None
            },
            None => None,
        },
        None => None,
    }
}

/// The number that a text stands for, where the machine can hold it.
pub fn count_in(s: &Option<String>) -> (res: Option<usize>)
    ensures
        res == count_of(text_of(*s)),
{
    match s {
        Some(t) => match parse_number(t.as_str()) {
            Some(n) => {
                if n <= usize::MAX as u64 {
                    Some(n as usize)
                } else {
                    None
                }
            },
            None => None,
        },
        None => None,
    }
}

/// The parts of a text between commas.
pub open spec fn comma_parts(s: Seq<char>) -> Seq<Seq<char>>
    decreases s.len(),
{
    if s.len() == 0 {
        seq![Seq::empty()]
    } else {
        let front = comma_parts(s.drop_last());
        if s.last() == ',' {
            front.push(Seq::empty())
        } else {
            front.update(front.len() - 1, front.last().push(s.last()))
        }
    }
}

/// What a text lists: its parts between commas, without the white space around them and without the
/// empty ones.
pub open spec fn comma_list(s: Seq<char>) -> Seq<Seq<char>> {
    comma_parts(s).map_values(|p: Seq<char>| trimmed(p)).filter(|p: Seq<char>| p.len() > 0)
}

proof fn lemma_comma_parts_len(s: Seq<char>)
    ensures
        comma_parts(s).len() >= 1,
    decreases s.len(),
{
    if s.len() > 0 {
        lemma_comma_parts_len(s.drop_last());
    }
}

/// The text from the last comma before `i` on is the last part.
proof fn lemma_last_part(s: Seq<char>, a: int, i: int)
    requires
        0 <= a <= i <= s.len(),
        a == 0 || s[a - 1] == ',',
        forall|k: int| a <= k < i ==> s[k] != ',',
    ensures
        comma_parts(s.take(i)).last() == s.subrange(a, i),
        comma_parts(s.take(i)).drop_last() == (if a == 0 {
            Seq::empty()
        } else {
            comma_parts(s.take(a - 1))
        }),
    decreases i - a,
{
    lemma_comma_parts_len(s.take(i));
    if i == a {
        if a == 0 {
            assert(s.take(0) =~= Seq::<char>::empty());
            assert(comma_parts(s.take(0)).drop_last() =~= Seq::<Seq<char>>::empty());
            assert(s.subrange(0, 0) =~= Seq::<char>::empty());
        } else {
            assert(s.take(a).drop_last() =~= s.take(a - 1));
            assert(s.take(a).last() == ',');
            assert(comma_parts(s.take(a)).drop_last() =~= comma_parts(s.take(a - 1)));
            assert(s.subrange(a, a) =~= Seq::<char>::empty());
        }
    } else {
        lemma_last_part(s, a, i - 1);
        lemma_comma_parts_len(s.take(i - 1));
        assert(s.take(i).drop_last() =~= s.take(i - 1));
        assert(s.take(i).last() == s[i - 1]);
        let front = comma_parts(s.take(i - 1));
        assert(comma_parts(s.take(i)).drop_last() =~= front.drop_last());
        assert(s.subrange(a, i - 1).push(s[i - 1]) =~= s.subrange(a, i));
    }
}

/// Adds a part of a list, unless it is empty.
fn push_part(out: &mut Vec<String>, part: &str, Ghost(parts): Ghost<Seq<Seq<char>>>)
    requires
        texts_of(old(out)@) == parts.map_values(|p: Seq<char>| trimmed(p)).filter(
            |p: Seq<char>| p.len() > 0,
        ),
    ensures
        texts_of(final(out)@) == parts.push(part@).map_values(|p: Seq<char>| trimmed(p)).filter(
            |p: Seq<char>| p.len() > 0,
        ),
{
    let ghost clean = |p: Seq<char>| trimmed(p);
    let ghost some = |p: Seq<char>| p.len() > 0;
    let ghost before_ = out@;
    let text = trim(part);
    proof {
        assert(parts.push(part@).map_values(clean) =~= parts.map_values(clean).push(text@));
        parts.map_values(clean).lemma_filter_push(text@, some);
    }
    if text.as_str().unicode_len() > 0 {
        out.push(text);
        assert(texts_of(out@) =~= texts_of(before_).push(text@));
    }
}

/// Splits a text at its commas.
pub fn split_list(s: &str) -> (res: Vec<String>)
    ensures
        texts_of(res@) == comma_list(s@),
{
    let n: usize = s.unicode_len();
    let ghost clean = |p: Seq<char>| trimmed(p);
    let ghost some = |p: Seq<char>| p.len() > 0;
    let mut out: Vec<String> = Vec::new();
    let mut a: usize = 0;
    let mut i: usize = 0;
    let ghost mut parts = Seq::<Seq<char>>::empty();
    assert(texts_of(out@) =~= Seq::<Seq<char>>::empty());
    assert(parts.map_values(clean).filter(some) =~= Seq::<Seq<char>>::empty()) by {
        reveal(Seq::filter);
    }
    while i < n
        invariant
            a <= i <= n,
            n == s@.len(),
            clean == (|p: Seq<char>| trimmed(p)),
            some == (|p: Seq<char>| p.len() > 0),
            a == 0 || s@[a - 1] == ',',
            forall|k: int| a <= k < i ==> s@[k] != ',',
            parts == (if a == 0 {
                Seq::empty()
            } else {
                comma_parts(s@.take(a - 1))
            }),
            texts_of(out@) == parts.map_values(clean).filter(some),
        decreases n - i,
    {
        if s.get_char(i) == ',' {
            push_part(&mut out, s.substring_char(a, i), Ghost(parts));
            proof {
                lemma_last_part(s@, a as int, i as int);
                lemma_comma_parts_len(s@.take(i as int));
                let whole = comma_parts(s@.take(i as int));
                assert(whole =~= parts.push(s@.subrange(a as int, i as int)));
                parts = whole;
            }
            a = i + 1;
        }
        i += 1;
    }
    push_part(&mut out, s.substring_char(a, n), Ghost(parts));
    proof {
        lemma_last_part(s@, a as int, n as int);
        lemma_comma_parts_len(s@);
        assert(s@.take(n as int) =~= s@);
        assert(comma_parts(s@) =~= parts.push(s@.subrange(a as int, n as int)));
    }
    out
}

/// The place of the first text that is no square.
pub open spec fn first_bad(texts: Seq<Seq<char>>, i: int) -> Option<int>
    decreases texts.len() - i,
{
    if i < 0 || i >= texts.len() {
        None
    } else if square_of_text(texts[i]) is None {
        Some(i)
    } else {
        first_bad(texts, i + 1)
    }
}

fn find_bad(texts: &Vec<String>) -> (res: Option<usize>)
    ensures
        match res {
            Some(i) => first_bad(texts_of(texts@), 0) == Some(i as int) && i < texts@.len(),
            None => first_bad(texts_of(texts@), 0) is None,
        },
{
    let ghost all = texts_of(texts@);
    let mut i: usize = 0;
    while i < texts.len()
        invariant
            i <= texts@.len(),
            all == texts_of(texts@),
            first_bad(all, 0) == first_bad(all, i as int),
        decreases texts@.len() - i,
    {
        assert(all[i as int] == texts@[i as int]@);
        if parse_usi_square(texts[i].as_str()).is_none() {
            return Some(i);
        }
        i += 1;
    }
    None
}

/// What is asked for from outside in place of what the score says.
#[derive(Debug)]
pub struct Flags {
    pub ply: Option<usize>,
    pub target: Option<String>,
    pub diag: Option<String>,
}

/// The number of moves to play: as asked for, else as the score says.
pub open spec fn chosen_ply(
    directives: Seq<(String, String)>,
    flag: Option<usize>,
) -> Option<usize> {
    match flag {
        Some(n) => Some(n),
        None => count_of(directive_of(directives, "ply"@, 0)),
    }
}

/// The text asked for, else what the score says under a name.
pub open spec fn chosen_text(
    directives: Seq<(String, String)>,
    flag: Option<String>,
    name: Seq<char>,
) -> Option<Seq<char>> {
    match flag {
        Some(t) => Some(t@),
        None => directive_of(directives, name, 0),
    }
}

/// The squares to test for attacks.
pub open spec fn chosen_squares(directives: Seq<(String, String)>, flag: Option<String>) -> Seq<
    Seq<char>,
> {
    match chosen_text(directives, flag, "diag"@) {
        Some(t) => comma_list(t),
        None => Seq::empty(),
    }
}

/// Why a score does not make a scenario, if it does not.
pub open spec fn scenario_fault(
    plies: int,
    directives: Seq<(String, String)>,
    flags: Flags,
) -> Option<ScenarioError> {
    match chosen_ply(directives, flags.ply) {
        None => Some(ScenarioError::NoPly),
        Some(ply) => if ply > plies {
            Some(ScenarioError::BeyondScore { ply, plies: plies as usize })
        } else {
            match first_bad(chosen_squares(directives, flags.diag), 0) {
                Some(i) => Some(ScenarioError::BadSquare { place: i as usize }),
                None => None,
            }
        },
    }
}

/// The move to look out for: as asked for, else as the score says, else the next of the score.
pub open spec fn chosen_target(
    plies: Seq<Ply>,
    directives: Seq<(String, String)>,
    flag: Option<String>,
    ply: int,
) -> Seq<char> {
    match chosen_text(directives, flag, "target"@) {
        Some(t) => t,
        None => if ply < plies.len() {
            text_of_move(plies[ply].mv)
        } else {
            Seq::empty()
        },
    }
}

/// The number of moves at which games are broken off: as the score says, else 200.
pub open spec fn chosen_limit(directives: Seq<(String, String)>) -> u32 {
    match directive_of(directives, "limit"@, 0) {
        Some(t) => match number_of(t) {
            Some(n) => if n <= u32::MAX {
                n as u32
            } else {
                200
            },
            None => 200,
        },
        None => 200,
    }
}

/// The description: that of the score, if it is about the position at hand, else one of its own.
pub open spec fn chosen_desc(directives: Seq<(String, String)>, ply: usize) -> Seq<char> {
    let said = directive_of(directives, "desc"@, 0);
    if said is Some && count_of(directive_of(directives, "ply"@, 0)) == Some(ply) {
        said->0
    } else {
        decimal(ply as nat) + "手目まで再生し、"@ + decimal((ply + 1) as nat) + "手目を考えさせる"@
    }
}

/// Makes a scenario out of a score. What is asked for counts more than what the score says.
pub fn load_scenario(name: String, kifu: Kifu, flags: &Flags) -> (res: Result<
    Scenario,
    ScenarioError,
>)
    requires
        kifu.plies@.len() < usize::MAX,
        forall|i: int| 0 <= i < kifu.plies@.len() ==> writable((#[trigger] kifu.plies@[i]).mv),
    ensures
        match res {
            Err(e) => scenario_fault(kifu.plies@.len() as int, kifu.directives@, *flags) == Some(e),
            Ok(sc) => {
                &&& scenario_fault(kifu.plies@.len() as int, kifu.directives@, *flags) is None
                &&& Some(sc.ply) == chosen_ply(kifu.directives@, flags.ply)
                &&& sc.name == name
                &&& sc.kifu == kifu
                &&& sc.target@ == chosen_target(
                    kifu.plies@,
                    kifu.directives@,
                    flags.target,
                    sc.ply as int,
                )
                &&& texts_of(sc.diag_squares@) == chosen_squares(kifu.directives@, flags.diag)
                &&& sc.limit == chosen_limit(kifu.directives@)
                &&& sc.desc@ == chosen_desc(kifu.directives@, sc.ply)
            },
        },
{
    let directive_ply: Option<usize> = count_in(&directive(&kifu, "ply"));
    let ply: usize = match flags.ply {
        Some(n) => n,
        None => match directive_ply {
            Some(n) => n,
            None => return Err(ScenarioError::NoPly),
        },
    };
    if ply > kifu.plies.len() {
        return Err(ScenarioError::BeyondScore { ply, plies: kifu.plies.len() });
    }
    let diag = match &flags.diag {
        Some(t) => Some(t.clone()),
        None => directive(&kifu, "diag"),
    };
    let diag_squares = match &diag {
        Some(t) => split_list(t.as_str()),
        None => Vec::new(),
    };
    assert(texts_of(diag_squares@) =~= chosen_squares(kifu.directives@, flags.diag));
    if let Some(place) = find_bad(&diag_squares) {
        return Err(ScenarioError::BadSquare { place });
    }
    let target = match &flags.target {
        Some(t) => t.clone(),
        None => match directive(&kifu, "target") {
            Some(t) => t,
            None => {
                if ply < kifu.plies.len() {
                    kifu.plies[ply].mv.to_usi()
                } else {
                    String::new()
                }
            },
        },
    };
    assert(target@ =~= chosen_target(kifu.plies@, kifu.directives@, flags.target, ply as int));
    let limit: u32 = match directive(&kifu, "limit") {
        Some(t) => match parse_number(t.as_str()) {
            Some(n) => {
                if n <= u32::MAX as u64 {
                    n as u32
                } else {
                    200
                }
            },
            None => 200,
        },
        None => 200,
    };
    let mut own = String::new();
    append_decimal(&mut own, ply as u64);
    own.append("手目まで再生し、");
    append_decimal(&mut own, ply as u64 + 1);
    own.append("手目を考えさせる");
    assert(own@ =~= decimal(ply as nat) + "手目まで再生し、"@ + decimal((ply + 1) as nat)
        + "手目を考えさせる"@);
    let desc = match directive(&kifu, "desc") {
        Some(t) => {
            if directive_ply == Some(ply) {
                t
            } else {
                own
            }
        },
        None => own,
    };
    Ok(Scenario { name, desc, target, ply, diag_squares, limit, kifu })
}

/// How often each text was counted, in the order in which they first came.
#[derive(Debug)]
pub struct Tally {
    entries: Vec<(String, u32)>,
}

/// The place of a text in a tally.
pub open spec fn tally_place(t: Seq<(Seq<char>, u32)>, key: Seq<char>, i: int) -> Option<int>
    decreases t.len() - i,
{
    if i < 0 || i >= t.len() {
        None
    } else if t[i].0 == key {
        Some(i)
    } else {
        tally_place(t, key, i + 1)
    }
}

/// A tally with one more of a text.
pub open spec fn counted(t: Seq<(Seq<char>, u32)>, key: Seq<char>) -> Seq<(Seq<char>, u32)> {
    match tally_place(t, key, 0) {
        Some(i) => t.update(i, (key, bumped(t[i].1))),
        None => t.push((key, 1u32)),
    }
}

/// The tally of several texts.
pub open spec fn tally_of(keys: Seq<Seq<char>>) -> Seq<(Seq<char>, u32)>
    decreases keys.len(),
{
    if keys.len() == 0 {
        Seq::empty()
    } else {
        counted(tally_of(keys.drop_last()), keys.last())
    }
}

/// The contents of counted texts.
pub open spec fn count_list(entries: Seq<(String, u32)>) -> Seq<(Seq<char>, u32)> {
    entries.map_values(|e: (String, u32)| (e.0@, e.1))
}

impl View for Tally {
    type V = Seq<(Seq<char>, u32)>;

    closed spec fn view(&self) -> Seq<(Seq<char>, u32)> {
        count_list(self.entries@)
    }
}

/// A tally by falling counts; of equal counts that comes first which was met first.
pub open spec fn by_count(t: Seq<(Seq<char>, u32)>) -> Seq<(Seq<char>, u32)> {
    sorted_by(t, |a: (Seq<char>, u32), b: (Seq<char>, u32)| a.1 >= b.1)
}

impl Tally {
    pub fn new() -> (res: Tally)
        ensures
            res@ == Seq::<(Seq<char>, u32)>::empty(),
    {
        let res = Tally { entries: Vec::new() };
        assert(res@ =~= Seq::<(Seq<char>, u32)>::empty());
        res
    }

    /// Counts a text.
    pub fn count(&mut self, key: String)
        ensures
            final(self)@ == counted(old(self)@, key@),
    {
        let ghost all = count_list(self.entries@);
        let mut i: usize = 0;
        while i < self.entries.len()
            invariant
                i <= self.entries@.len(),
                *self == *old(self),
                all == count_list(self.entries@),
                tally_place(all, key@, 0) == tally_place(all, key@, i as int),
            decreases self.entries@.len() - i,
        {
            assert(all[i as int].0 == self.entries@[i as int].0@);
            if self.entries[i].0 == key {
                let n: u32 = bump(self.entries[i].1);
                self.entries.set(i, (key, n));
                assert(count_list(self.entries@) =~= all.update(i as int, (key@, n)));
                return;
            }
            i += 1;
        }
        self.entries.push((key, 1));
        assert(count_list(self.entries@) =~= all.push((key@, 1u32)));
    }

    /// The counts, highest first.
    pub fn ranked(&self) -> (res: Vec<(String, u32)>)
        ensures
            count_list(res@) == by_count(self@),
    {
        let ghost le = |a: (Seq<char>, u32), b: (Seq<char>, u32)| a.1 >= b.1;
        let ghost all = count_list(self.entries@);
        let mut out: Vec<(String, u32)> = Vec::new();
        let mut i: usize = 0;
        assert(count_list(out@) =~= Seq::<(Seq<char>, u32)>::empty());
        while i < self.entries.len()
            invariant
                i <= self.entries@.len(),
                all == count_list(self.entries@),
                le == (|a: (Seq<char>, u32), b: (Seq<char>, u32)| a.1 >= b.1),
                count_list(out@) == sorted_by(all.take(i as int), le),
            decreases self.entries@.len() - i,
        {
            let entry = (self.entries[i].0.clone(), self.entries[i].1);
            let ghost x = all[i as int];
            let ghost sorted = count_list(out@);
            let mut n: usize = out.len();
            while n > 0 && out[n - 1].1 < entry.1
                invariant
                    n <= out@.len(),
                    entry.1 == x.1,
                    sorted == count_list(out@),
                    le == (|a: (Seq<char>, u32), b: (Seq<char>, u32)| a.1 >= b.1),
                    forall|k: int| n <= k < sorted.len() ==> !le(#[trigger] sorted[k], x),
                decreases n,
            {
                assert(sorted[n - 1].1 == out@[n - 1].1);
                n -= 1;
            }
            proof {
                if n > 0 {
                    assert(sorted[n - 1].1 == out@[n - 1].1);
                }
                lemma_placed_by(sorted, x, le, n as int);
                let t = all.take(i + 1);
                assert(t.drop_last() =~= all.take(i as int));
                assert(t.last() == x);
            }
            out.insert(n, entry);
            assert(count_list(out@) =~= sorted.insert(n as int, x));
            i += 1;
        }
        assert(all.take(i as int) =~= all);
        out
    }
}

/// How often a tally has counted a text.
pub open spec fn tallied(t: Seq<(Seq<char>, u32)>, key: Seq<char>) -> nat {
    match tally_place(t, key, 0) {
        Some(i) => t[i].1 as nat,
        None => 0,
    }
}

proof fn lemma_tally_place(t: Seq<(Seq<char>, u32)>, key: Seq<char>, i: int)
    requires
        0 <= i,
    ensures
        match tally_place(t, key, i) {
            Some(p) => i <= p < t.len() && t[p].0 == key && forall|k: int|
                i <= k < p ==> (#[trigger] t[k]).0 != key,
            None => forall|k: int| i <= k < t.len() ==> (#[trigger] t[k]).0 != key,
        },
    decreases t.len() - i,
{
    if i < t.len() && t[i].0 != key {
        lemma_tally_place(t, key, i + 1);
    }
}

proof fn lemma_one_more(t: Seq<(Seq<char>, u32)>, added: Seq<char>, key: Seq<char>)
    requires
        tallied(t, added) < u32::MAX,
    ensures
        tallied(counted(t, added), key) == tallied(t, key) + (if key == added {
            1nat
        } else {
            0nat
        }),
{
    let after = counted(t, added);
    lemma_tally_place(t, added, 0);
    lemma_tally_place(t, key, 0);
    lemma_tally_place(after, key, 0);
    match tally_place(t, added, 0) {
        Some(i) => {
            assert forall|k: int| 0 <= k < t.len() implies (#[trigger] after[k]).0 == t[k].0 by {}
            if key != added {
                match tally_place(t, key, 0) {
                    Some(p) => {
                        assert(after[p].0 == key);
                        let q = tally_place(after, key, 0)->0;
                        assert(t[q].0 == after[q].0);
                    },
                    None => {},
                }
            } else {
                assert(after[i].0 == key);
                let q = tally_place(after, key, 0)->0;
                assert(t[q].0 == after[q].0);
            }
        },
        None => {
            let n = t.len() as int;
            assert(after[n].0 == added);
            if key != added {
                match tally_place(t, key, 0) {
                    Some(p) => {
                        assert(after[p] == t[p]);
                        let q = tally_place(after, key, 0)->0;
                        assert(after[q] == t[q]);
                    },
                    None => {
                        assert forall|k: int| 0 <= k < after.len() implies (#[trigger] after[k]).0
                            != key by {
                            if k < n {
                                assert(after[k] == t[k]);
                            }
                        }
                    },
                }
            } else {
                let q = tally_place(after, key, 0)->0;
                if q < n {
                    assert(after[q] == t[q]);
                }
            }
        },
    }
}

/// A tally counts each text as often as it came.
pub proof fn law_tally_counts(keys: Seq<Seq<char>>, key: Seq<char>)
    requires
        keys.len() <= u32::MAX,
    ensures
        tallied(tally_of(keys), key) == keys.filter(|k: Seq<char>| k == key).len(),
    decreases keys.len(),
{
    let same = |k: Seq<char>| k == key;
    if keys.len() == 0 {
        reveal(Seq::filter);
        assert(tally_of(keys) =~= Seq::empty());
        assert(keys.filter(same) =~= Seq::empty());
    } else {
        let front = keys.drop_last();
        let added = keys.last();
        law_tally_counts(front, key);
        law_tally_counts(front, added);
        let other = |k: Seq<char>| k == added;
        front.lemma_filter_len(other);
        lemma_one_more(tally_of(front), added, key);
        assert(front.push(added) =~= keys);
        front.lemma_filter_push(added, same);
    }
}

/// What a strategy chose over several trials.
#[derive(Debug)]
pub struct ChoiceStats {
    /// The accepted moves with their counts, highest first.
    pub tally: Vec<(String, u32)>,
    pub total_fouls: u32,
}

impl ChoiceStats {
    /// How often a move was accepted.
    pub fn target_hits(&self, target: &str) -> (res: u32)
        ensures
            res == (match tally_place(count_list(self.tally@), target@, 0) {
                Some(i) => self.tally@[i].1,
                None => 0,
            }),
    {
        let ghost all = count_list(self.tally@);
        let mut i: usize = 0;
        while i < self.tally.len()
            invariant
                i <= self.tally@.len(),
                all == count_list(self.tally@),
                tally_place(all, target@, 0) == tally_place(all, target@, i as int),
            decreases self.tally@.len() - i,
        {
            assert(all[i as int].0 == self.tally@[i as int].0@);
            if same_text(self.tally[i].0.as_str(), target) {
                return self.tally[i].1;
            }
            i += 1;
        }
        0
    }
}

/// Whether the referee accepts a text as a move.
pub open spec fn accepted(pos: PositionModel, usi: Seq<char>) -> bool {
    move_of_text(usi) matches Some(mv) && legal(pos, mv)
}

/// One trial: what has happened in the turn so far.
#[derive(Debug)]
pub struct Trial {
    pub fouls: [u32; 2],
    pub log: ObservationLog,
    pub foul_tried: Vec<String>,
    /// The fouls of the turn in their order.
    pub foul_seq: Vec<String>,
}

/// The mathematical content of a `Trial`.
pub struct TrialModel {
    pub fouls: Seq<u32>,
    pub events: Seq<Event>,
    pub tried: Set<Seq<char>>,
    pub foul_seq: Seq<Seq<char>>,
}

impl View for Trial {
    type V = TrialModel;

    open spec fn view(&self) -> TrialModel {
        TrialModel {
            fouls: self.fouls@,
            events: self.log@,
            tried: text_set(self.foul_tried@),
            foul_seq: texts_of(self.foul_seq@),
        }
    }
}

/// A trial after a foul of the side to move.
pub open spec fn trial_fouled(t: TrialModel, pos: PositionModel, usi: Seq<char>) -> TrialModel {
    TrialModel {
        fouls: raised(t.fouls, pos.turn),
        events: t.events.push(Event::MyFoul { move_number: pos.move_number, usi }),
        tried: t.tried.insert(usi),
        foul_seq: t.foul_seq.push(usi),
    }
}

/// A trial after a choice.
pub open spec fn trial_after(
    t: TrialModel,
    pos: PositionModel,
    choice: Option<Seq<char>>,
) -> TrialModel {
    match choice {
        Some(usi) => if accepted(pos, usi) {
            t
        } else {
            trial_fouled(t, pos, usi)
        },
        None => t,
    }
}

/// How a trial ends with a choice, if it does: with the move, with giving up, or with one foul too
/// many.
pub open spec fn trial_end(t: TrialModel, pos: PositionModel, choice: Option<Seq<char>>) -> Option<
    Seq<char>,
> {
    match choice {
        Some(usi) => if accepted(pos, usi) {
            Some(usi)
        } else if raised(t.fouls, pos.turn)[side_place(pos.turn)] >= MAX_FOULS {
            Some("foul_limit"@)
        } else {
            None
        },
        None => Some("resign"@),
    }
}

/// Whether the referee accepts a text as a move.
pub fn is_accepted(pos: &Position, usi: &str) -> (res: bool)
    ensures
        res == accepted(pos@, usi@),
{
    match parse_usi(usi) {
        Some(mv) => pos.is_legal(&mv),
        None => false,
    }
}

impl Trial {
    /// A trial of the side to move of a replayed game.
    pub fn start(rep: &Replayed) -> (res: Trial)
        ensures
            res@ == (TrialModel {
                fouls: rep@.fouls,
                events: rep@.logs.of(rep@.pos.turn),
                tried: Set::empty(),
                foul_seq: Seq::empty(),
            }),
    {
        let side = rep.pos.turn();
        let res = Trial {
            fouls: rep.fouls,
            log: rep.logs.of(side).clone(),
            foul_tried: Vec::new(),
            foul_seq: Vec::new(),
        };
        proof {
            lemma_no_texts(res.foul_tried@);
            assert(texts_of(res.foul_seq@) =~= Seq::<Seq<char>>::empty());
        }
        res
    }

    /// Judges a choice. A foul is noted, and the turn goes on; otherwise the way the trial ended
    /// comes back.
    pub fn judge(&mut self, pos: &Position, choice: &Option<String>) -> (res: Option<String>)
        ensures
            final(self)@ == trial_after(old(self)@, pos@, text_of(*choice)),
            text_of(res) == trial_end(old(self)@, pos@, text_of(*choice)),
    {
        let usi = match choice {
            Some(usi) => usi,
            None => return Some("resign".to_owned()),
        };
        if is_accepted(pos, usi.as_str()) {
            return Some(usi.clone());
        }
        let ghost before_ = self.foul_seq@;
        let i: usize = side_idx(pos.turn());
        let count: u32 = bump(self.fouls[i]);
        self.fouls[i] = count;
        self.log.record(Observation::MyFoul { move_number: pos.move_number(), usi: usi.clone() });
        insert_text(&mut self.foul_tried, usi.clone());
        self.foul_seq.push(usi.clone());
        assert(texts_of(self.foul_seq@) =~= texts_of(before_).push(usi@));
        assert(self.fouls@ =~= raised(old(self).fouls@, pos@.turn));
        if count >= MAX_FOULS {
            Some("foul_limit".to_owned())
        } else {
            None
        }
    }
}

/// In a turn that goes on after a choice, the choice was a foul, it is set aside, and the side still
/// has a foul left.
pub proof fn law_trial_goes_on_after_a_foul(
    t: TrialModel,
    pos: PositionModel,
    choice: Option<Seq<char>>,
)
    requires
        t.fouls.len() == 2,
        trial_end(t, pos, choice) is None,
    ensures
        choice is Some,
        !accepted(pos, choice->0),
        trial_after(t, pos, choice).tried.contains(choice->0),
        trial_after(t, pos, choice).foul_seq == t.foul_seq.push(choice->0),
        trial_after(t, pos, choice).fouls[side_place(pos.turn)] < MAX_FOULS,
        trial_after(t, pos, choice).fouls[side_place(pos.turn)] == t.fouls[side_place(pos.turn)] + 1,
{
}

/// Before which observations the strategy thinks: those of its own attempts.
pub open spec fn thinks_before(e: Event) -> bool {
    e is MyMove || e is MyFoul
}

/// The lengths of the log at which the strategy has to be brought up to date, as in a real game.
pub fn prewarm_points(log: &ObservationLog) -> (res: Vec<usize>)
    ensures
        res@.map_values(|i: usize| i as int) == Seq::new(log@.len(), |i: int| i).filter(
            |i: int| thinks_before(log@[i]),
        ),
{
    let events = log.events();
    let ghost all = Seq::new(log@.len(), |i: int| i);
    let ghost own = |i: int| thinks_before(log@[i]);
    let ghost wide = |i: usize| i as int;
    let mut out: Vec<usize> = Vec::new();
    let mut i: usize = 0;
    assert(all.take(0).filter(own) =~= Seq::<int>::empty()) by {
        reveal(Seq::filter);
    }
    assert(out@.map_values(wide) =~= Seq::<int>::empty());
    while i < events.len()
        invariant
            i <= events@.len(),
            log@ == crate::observation::events_of(events@),
            all == Seq::new(log@.len(), |i: int| i),
            own == (|i: int| thinks_before(log@[i])),
            wide == (|i: usize| i as int),
            out@.map_values(wide) == all.take(i as int).filter(own),
        decreases events@.len() - i,
    {
        let ghost before_ = out@;
        proof {
            assert(all.take(i + 1) =~= all.take(i as int).push(i as int));
            all.take(i as int).lemma_filter_push(i as int, own);
            assert(log@[i as int] == events@[i as int]@);
        }
        let attempt = match &events[i] {
            Observation::MyMove { move_number: _, usi: _, captured: _ } => true,
            Observation::MyFoul { move_number: _, usi: _ } => true,
            _ => false,
        };
        if attempt {
            out.push(i);
            assert(out@.map_values(wide) =~= before_.map_values(wide).push(i as int));
        }
        i += 1;
    }
    assert(all.take(i as int) =~= all);
    out
}

/// Whether a piece of a side attacks a square; the king may be left out.
pub open spec fn counts_for(
    pos: PositionModel,
    side: Color,
    sq: Coord,
    with_king: bool,
    x: (Coord, Piece),
) -> bool {
    x.1.color == side && (with_king || x.1.role != Role::King) && attacks_from(pos, x.0, sq)
}

/// How many pieces of a side attack a square.
pub open spec fn attack_count(pos: PositionModel, side: Color, sq: Coord, with_king: bool) -> nat {
    piece_list(pos).filter(|x: (Coord, Piece)| counts_for(pos, side, sq, with_king, x)).len()
}

/// How many pieces of a side attack a square, with its king or without.
pub fn attackers(pos: &Position, side: Color, sq: Coord, with_king: bool) -> (res: usize)
    ensures
        res == attack_count(pos@, side, sq, with_king),
{
    let pieces = pos.pieces();
    let ghost all = piece_list(pos@);
    let ghost good = |x: (Coord, Piece)| counts_for(pos@, side, sq, with_king, x);
    let mut n: usize = 0;
    let mut i: usize = 0;
    proof {
        all.take(0).lemma_filter_len(good);
    }
    while i < pieces.len()
        invariant
            i <= pieces@.len(),
            n <= i,
            pieces@ == all,
            all == piece_list(pos@),
            good == (|x: (Coord, Piece)| counts_for(pos@, side, sq, with_king, x)),
            n == all.take(i as int).filter(good).len(),
        decreases pieces@.len() - i,
    {
        let (from, p) = pieces[i];
        proof {
            assert(all.take(i + 1) =~= all.take(i as int).push((from, p)));
            all.take(i as int).lemma_filter_push((from, p), good);
        }
        if p.color == side && (with_king || p.role != Role::King) && pos.attacks(from, sq) {
            n += 1;
        }
        i += 1;
    }
    assert(all.take(i as int) =~= all);
    n
}

/// The column in which an attack count is shown: three and more share one.
pub fn attack_column(n: usize) -> (res: usize)
    ensures
        res == (if n < 3 {
            n
        } else {
            3
        }),
{
    if n < 3 {
        n
    } else {
        3
    }
}

/// A text on one line.
pub open spec fn one_line(s: Seq<char>) -> Seq<char> {
    s.map_values(
        |c: char|
            if c == '\n' {
                ' '
            } else {
                c
            },
    )
}

fn append_one_line(out: &mut String, s: &str)
    ensures
        final(out)@ == old(out)@ + one_line(s@),
{
    let ghost first = out@;
    let n: usize = s.unicode_len();
    let mut i: usize = 0;
    assert(first + one_line(s@).take(0) =~= first);
    while i < n
        invariant
            i <= n,
            n == s@.len(),
            out@ == first + one_line(s@).take(i as int),
        decreases n - i,
    {
        if s.get_char(i) == '\n' {
            proof {
                reveal_strlit(" ");
            }
            out.append(" ");
        } else {
            out.append(s.substring_char(i, i + 1));
        }
        assert(out@ =~= first + one_line(s@).take(i + 1));
        i += 1;
    }
    assert(one_line(s@).take(n as int) =~= one_line(s@));
}

/// The line of a score that makes it a scenario.
pub open spec fn scenario_header(ply: nat, target: Seq<char>, desc: Seq<char>) -> Seq<char> {
    "*scenario ply="@ + decimal(ply) + " target="@ + target + " desc="@ + one_line(desc) + "\n"@
}

/// The line of a score that makes it a scenario.
pub fn scenario_line(ply: u64, target: &str, desc: &str) -> (res: String)
    ensures
        res@ == scenario_header(ply as nat, target@, desc@),
{
    let mut out = String::from_str("*scenario ply=");
    append_decimal(&mut out, ply);
    out.append(" target=");
    out.append(target);
    out.append(" desc=");
    append_one_line(&mut out, desc);
    out.append("\n");
    out
}

proof fn lemma_digits_break_no_line(n: nat)
    ensures
        forall|k: int| 0 <= k < decimal(n).len() ==> #[trigger] decimal(n)[k] != '\n',
    decreases n,
{
    if n >= 10 {
        lemma_digits_break_no_line(n / 10);
    }
    let d: int = n as int % 10;
    let unit = digit_char(d);
    assert(unit != '\n') by {
        assert(unit as int == '0' as int + d);
    }
    assert forall|k: int| 0 <= k < decimal(n).len() implies #[trigger] decimal(n)[k] != '\n' by {
        if n >= 10 && k < decimal(n / 10).len() {
            assert(decimal(n)[k] == decimal(n / 10)[k]);
        }
    }
}

/// A scenario takes one line, whatever its description.
pub proof fn law_scenario_takes_one_line(ply: nat, target: Seq<char>, desc: Seq<char>)
    requires
        !target.contains('\n'),
    ensures
        ({
            let line = scenario_header(ply, target, desc);
            forall|k: int| 0 <= k < line.len() ==> (#[trigger] line[k] == '\n' <==> k == line.len() - 1)
        }),
{
    reveal_strlit("*scenario ply=");
    reveal_strlit(" target=");
    reveal_strlit(" desc=");
    reveal_strlit("\n");
    lemma_digits_break_no_line(ply);
    let a = "*scenario ply="@ + decimal(ply);
    assert(forall|k: int| 0 <= k < a.len() ==> #[trigger] a[k] != '\n');
    let b = a + " target="@ + target;
    assert forall|k: int| 0 <= k < b.len() implies #[trigger] b[k] != '\n' by {
        if k >= b.len() - target.len() {
            assert(b[k] == target[k - (b.len() - target.len())]);
        }
    }
    let c = b + " desc="@ + one_line(desc);
    assert forall|k: int| 0 <= k < c.len() implies #[trigger] c[k] != '\n' by {
        if k < b.len() {
            assert(c[k] == b[k]);
        }
    }
    assert(scenario_header(ply, target, desc) =~= c + "\n"@);
}

/// The middle of several numbers, the upper one of two.
pub fn median(plies: &Vec<u64>) -> (res: Option<u64>)
    ensures
        res is None <==> plies@.len() == 0,
        res matches Some(m) ==> exists|s: Seq<u64>|
            crate::seeds::is_ascending(s) && #[trigger] s.to_multiset() == plies@.to_multiset()
                && s.len() == plies@.len() && m == s[plies@.len() as int / 2],
{
    if plies.len() == 0 {
        return None;
    }
    let sorted = crate::seeds::ascending(plies.as_slice());
    let n: usize = sorted.len();
    let res: u64 = sorted[n / 2];
    assert(sorted@.to_multiset() == plies@.to_multiset());
    Some(res)
}

/// Whether a counted text is another one than that looked out for.
pub open spec fn is_other(e: (Seq<char>, u32), target: Seq<char>) -> bool {
    e.0 != target
}

/// The accepted moves other than the one looked out for, the first three.
pub open spec fn others_of(t: Seq<(Seq<char>, u32)>, target: Seq<char>) -> Seq<(Seq<char>, u32)> {
    let rest = t.filter(|e: (Seq<char>, u32)| is_other(e, target));
    if rest.len() <= 3 {
        rest
    } else {
        rest.take(3)
    }
}

/// The accepted moves other than the one looked out for, the first three.
pub fn top_others(tally: &Vec<(String, u32)>, target: &str) -> (res: Vec<(String, u32)>)
    ensures
        count_list(res@) == others_of(count_list(tally@), target@),
{
    let ghost all = count_list(tally@);
    let ghost other = |e: (Seq<char>, u32)| is_other(e, target@);
    let mut out: Vec<(String, u32)> = Vec::new();
    let mut i: usize = 0;
    assert(all.take(0).filter(other) =~= Seq::<(Seq<char>, u32)>::empty()) by {
        reveal(Seq::filter);
    }
    assert(count_list(out@) =~= Seq::<(Seq<char>, u32)>::empty());
    while i < tally.len()
        invariant
            i <= tally@.len(),
            all == count_list(tally@),
            other == (|e: (Seq<char>, u32)| is_other(e, target@)),
            count_list(out@) == (if all.take(i as int).filter(other).len() <= 3 {
                all.take(i as int).filter(other)
            } else {
                all.take(i as int).filter(other).take(3)
            }),
        decreases tally@.len() - i,
    {
        let ghost before_ = out@;
        let ghost x = all[i as int];
        let ghost kept = all.take(i as int).filter(other);
        proof {
            assert(all.take(i + 1) =~= all.take(i as int).push(x));
            all.take(i as int).lemma_filter_push(x, other);
        }
        if !same_text(tally[i].0.as_str(), target) {
            if out.len() < 3 {
                out.push((tally[i].0.clone(), tally[i].1));
                assert(count_list(out@) =~= count_list(before_).push(x));
                assert(kept.len() < 3);
            } else {
                assert(kept.push(x).take(3) =~= (if kept.len() <= 3 {
                    kept
                } else {
                    kept.take(3)
                }));
            }
        }
        i += 1;
    }
    assert(all.take(i as int) =~= all);
    out
}

/// What is wrong with the arguments of a program.
#[derive(Clone, Copy, Debug, PartialEq, Eq, Structural)]
pub enum FlagError {
    PlyMissing,
    PlyNoNumber,
    TargetMissing,
    TargetNoMove,
    DiagMissing,
}

/// The flags found so far and the other arguments.
pub struct FlagsModel {
    pub ply: Option<usize>,
    pub target: Option<Seq<char>>,
    pub diag: Option<Seq<char>>,
    pub rest: Seq<Seq<char>>,
}

/// Takes the flags out of the arguments from a place on; the others keep their order.
pub open spec fn flags_from(args: Seq<Seq<char>>, i: int, found: FlagsModel) -> Result<
    FlagsModel,
    FlagError,
>
    decreases args.len() - i,
{
    if i < 0 || i >= args.len() {
        Ok(found)
    } else if args[i] == "--ply"@ {
        if i + 1 >= args.len() {
            Err(FlagError::PlyMissing)
        } else {
            match count_of(Some(args[i + 1])) {
                Some(n) => flags_from(args, i + 2, FlagsModel { ply: Some(n), ..found }),
                None => Err(FlagError::PlyNoNumber),
            }
        }
    } else if args[i] == "--target"@ {
        if i + 1 >= args.len() {
            Err(FlagError::TargetMissing)
        } else if move_of_text(args[i + 1]) is None {
            Err(FlagError::TargetNoMove)
        } else {
            flags_from(args, i + 2, FlagsModel { target: Some(args[i + 1]), ..found })
        }
    } else if args[i] == "--diag"@ {
        if i + 1 >= args.len() {
            Err(FlagError::DiagMissing)
        } else {
            flags_from(args, i + 2, FlagsModel { diag: Some(args[i + 1]), ..found })
        }
    } else {
        flags_from(args, i + 1, FlagsModel { rest: found.rest.push(args[i]), ..found })
    }
}

/// The content of flags and the other arguments.
pub open spec fn flags_model(flags: Flags, rest: Seq<String>) -> FlagsModel {
    FlagsModel {
        ply: flags.ply,
        target: text_of(flags.target),
        diag: text_of(flags.diag),
        rest: texts_of(rest),
    }
}

/// Takes the flags out of the arguments of a program.
pub fn parse_flags(args: &Vec<String>) -> (res: Result<(Flags, Vec<String>), FlagError>)
    requires
        args@.len() < usize::MAX - 1,
    ensures
        match res {
            Ok((flags, rest)) => flags_from(
                texts_of(args@),
                0,
                FlagsModel { ply: None, target: None, diag: None, rest: Seq::empty() },
            ) == Ok::<FlagsModel, FlagError>(flags_model(flags, rest@)),
            Err(e) => flags_from(
                texts_of(args@),
                0,
                FlagsModel { ply: None, target: None, diag: None, rest: Seq::empty() },
            ) == Err::<FlagsModel, FlagError>(e),
        },
{
    let ghost all = texts_of(args@);
    let ghost start = FlagsModel { ply: None, target: None, diag: None, rest: Seq::empty() };
    let ghost goal = flags_from(all, 0, start);
    let mut flags = Flags { ply: None, target: None, diag: None };
    let mut rest: Vec<String> = Vec::new();
    let mut i: usize = 0;
    assert(texts_of(rest@) =~= Seq::<Seq<char>>::empty());
    while i < args.len()
        invariant
            i <= args@.len() + 1,
            args@.len() < usize::MAX - 1,
            all == texts_of(args@),
            goal == flags_from(all, i as int, flags_model(flags, rest@)),
            goal == flags_from(all, 0, start),
            start == (FlagsModel { ply: None, target: None, diag: None, rest: Seq::empty() }),
        decreases args@.len() - i,
    {
        assert(all[i as int] == args@[i as int]@);
        let arg = args[i].as_str();
        if same_text(arg, "--ply") {
            if i + 1 >= args.len() {
                return Err(FlagError::PlyMissing);
            }
            assert(all[i + 1] == args@[i + 1]@);
            let n: Option<u64> = parse_number(args[i + 1].as_str());
            match n {
                Some(v) => {
                    if v > usize::MAX as u64 {
                        return Err(FlagError::PlyNoNumber);
                    }
                    flags.ply = Some(v as usize);
                },
                None => return Err(FlagError::PlyNoNumber),
            }
            i += 2;
        } else if same_text(arg, "--target") {
            if i + 1 >= args.len() {
                return Err(FlagError::TargetMissing);
            }
            assert(all[i + 1] == args@[i + 1]@);
            if parse_usi(args[i + 1].as_str()).is_none() {
                return Err(FlagError::TargetNoMove);
            }
            flags.target = Some(args[i + 1].clone());
            i += 2;
        } else if same_text(arg, "--diag") {
            if i + 1 >= args.len() {
                return Err(FlagError::DiagMissing);
            }
            assert(all[i + 1] == args@[i + 1]@);
            flags.diag = Some(args[i + 1].clone());
            i += 2;
        } else {
            let ghost before_ = rest@;
            rest.push(args[i].clone());
            assert(texts_of(rest@) =~= texts_of(before_).push(all[i as int]));
            i += 1;
        }
    }
    Ok((flags, rest))
}

} // verus!
