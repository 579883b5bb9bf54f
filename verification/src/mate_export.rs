//! How decisions before a mate are written out: the heading of a score to look at one of them, and
//! the lines of a table with every candidate.

use crate::text::{append_decimal, before, comes_before, decimal, same_text};
use vstd::prelude::*;
use vstd::string::*;

verus! {

/// A decision to be written out.
#[derive(Debug)]
pub struct MatePoint {
    pub game: String,
    /// How many moves were made before.
    pub ply: usize,
    pub danger: bool,
    /// The moves that really do not allow a mate.
    pub safe: Vec<String>,
    /// The move of the game.
    pub played: String,
    /// The words for the kind of the mate that threatens, and its tag.
    pub kind: Option<(String, String)>,
    /// The move that mated in the opponent's next turn.
    pub executed: Option<String>,
}

/// The place of the text that comes first among the first `n`.
pub open spec fn first_text(list: Seq<String>, n: int) -> int
    decreases n,
{
    if n <= 1 {
        0
    } else {
        let best = first_text(list, n - 1);
        if comes_before(list[n - 1]@, list[best]@) {
            n - 1
        } else {
            best
        }
    }
}

/// The text that comes first, nothing where there is none.
pub open spec fn least_text(list: Seq<String>) -> Seq<char> {
    if list.len() == 0 {
        Seq::empty()
    } else {
        list[first_text(list, list.len() as int)]@
    }
}

fn least(list: &Vec<String>) -> (res: String)
    ensures
        res@ == least_text(list@),
{
    if list.len() == 0 {
        let none = String::new();
        assert(none@ =~= Seq::<char>::empty());
        return none;
    }
    let mut best: usize = 0;
    let mut i: usize = 1;
    while i < list.len()
        invariant
            1 <= i <= list@.len(),
            best < i,
            best == first_text(list@, i as int),
        decreases list@.len() - i,
    {
        if before(list[i].as_str(), list[best].as_str()) {
            best = i;
        }
        i += 1;
    }
    list[best].clone()
}

/// A text on one line.
pub open spec fn on_one_line(s: Seq<char>) -> Seq<char> {
    s.map_values(
        |c: char|
            if c == '\n' {
                ' '
            } else {
                c
            },
    )
}

fn one_line(s: &str) -> (res: String)
    ensures
        res@ == on_one_line(s@),
{
    let n: usize = s.unicode_len();
    let mut out = String::new();
    let mut i: usize = 0;
    proof {
        reveal_strlit(" ");
    }
    while i < n
        invariant
            i <= n,
            n == s@.len(),
            " "@ == seq![' '],
            out@ == on_one_line(s@.take(i as int)),
        decreases n - i,
    {
        if s.get_char(i) == '\n' {
            out.append(" ");
        } else {
            out.append(s.substring_char(i, i + 1));
        }
        i += 1;
        assert(out@ =~= on_one_line(s@.take(i as int)));
    }
    assert(s@.take(i as int) =~= s@);
    out
}

/// What is said of a decision.
pub open spec fn description(p: MatePoint) -> Seq<char> {
    p.game@ + " の"@ + decimal((p.ply + 1) as nat) + "手目（詰み経済 P0-3）: 次の相手番の詰め手は"@ + (
    match p.kind {
        Some(k) => k.0@,
        None => "なし"@,
    }) + "・真実上の安全手 "@ + decimal(p.safe@.len()) + "本・実戦は "@ + p.played@ + (match p.executed {
        Some(m) => "・次の相手番で "@ + m@ + " と詰まされた"@,
        None => Seq::empty(),
    })
}

/// The heading of a score in which a decision is looked at: what to look at, the first of the safe
/// moves as the one wanted, and the lines that stand before the moves.
pub open spec fn heading(p: MatePoint) -> Seq<char> {
    "*scenario ply="@ + decimal(p.ply as nat) + " target="@ + least_text(p.safe@) + " desc="@
        + on_one_line(description(p)) + "\n"@
        + "棋戦：arena\n手合割：平手\n先手：先手\n後手：後手\n手数----指手---------消費時間--\n"@
}

/// Writes the heading of a score in which a decision is looked at.
pub fn scenario_heading(p: &MatePoint) -> (res: String)
    requires
        p.ply < usize::MAX,
    ensures
        res@ == heading(*p),
{
    let mut desc = p.game.clone();
    desc.append(" の");
    append_decimal(&mut desc, (p.ply + 1) as u64);
    desc.append("手目（詰み経済 P0-3）: 次の相手番の詰め手は");
    match &p.kind {
        Some(k) => desc.append(k.0.as_str()),
        None => desc.append("なし"),
    }
    desc.append("・真実上の安全手 ");
    append_decimal(&mut desc, p.safe.len() as u64);
    desc.append("本・実戦は ");
    desc.append(p.played.as_str());
    if let Some(m) = &p.executed {
        desc.append("・次の相手番で ");
        desc.append(m.as_str());
        desc.append(" と詰まされた");
    }
    assert(desc@ =~= description(*p));
    let mut out = "*scenario ply=".to_owned();
    append_decimal(&mut out, p.ply as u64);
    out.append(" target=");
    out.append(least(&p.safe).as_str());
    out.append(" desc=");
    out.append(one_line(desc.as_str()).as_str());
    out.append("\n");
    out.append("棋戦：arena\n手合割：平手\n先手：先手\n後手：後手\n手数----指手---------消費時間--\n");
    out
}

/// How such a score says that a game ended for a reason.
pub open spec fn scenario_ending_of(reason: Seq<char>) -> Option<Seq<char>> {
    if reason == "foul_limit"@ {
        Some("反則負け"@)
    } else if reason == "checkmate"@ {
        Some("詰み"@)
    } else {
        None
    }
}

/// How such a score says that a game ended for a reason.
pub fn scenario_ending(reason: &str) -> (res: Option<&'static str>)
    ensures
        match res {
            Some(text) => scenario_ending_of(reason@) == Some(text@),
            None => scenario_ending_of(reason@) is None,
        },
{
    if same_text(reason, "foul_limit") {
        Some("反則負け")
    } else if same_text(reason, "checkmate") {
        Some("詰み")
    } else {
        None
    }
}

/// The name of the `n`-th score: the number has at least two digits.
pub open spec fn score_name(prefix: Seq<char>, n: nat) -> Seq<char> {
    prefix + "-"@ + (if n < 10 {
        "0"@
    } else {
        Seq::empty()
    }) + decimal(n) + ".kif"@
}

/// Names the `n`-th score.
pub fn score_file(prefix: &str, n: usize) -> (res: String)
    ensures
        res@ == score_name(prefix@, n as nat),
{
    let mut out = prefix.to_owned();
    out.append("-");
    if n < 10 {
        out.append("0");
    }
    append_decimal(&mut out, n as u64);
    out.append(".kif");
    assert(out@ =~= score_name(prefix@, n as nat));
    out
}

/// A candidate of a decision as a line of the table tells it. Scores come as they are written.
#[derive(Debug)]
pub struct MateLine {
    pub usi: String,
    pub rank: usize,
    /// Score, gain, chance to be legal, price of a foul and adjustment.
    pub scores: [String; 5],
    pub depth2: bool,
    /// Risk of a mate, the strict and the whole share of samples with one, and the share of strict
    /// samples.
    pub masses: [String; 4],
    pub truth_legal: bool,
    pub allows_mate: Option<bool>,
    /// The tag of the kind of mate that the move allows.
    pub kind: Option<String>,
}

/// The names of the columns.
pub const TABLE_HEAD: &'static str =
    "game,ply,danger,seed,usi,rank,det_score,gain,p_legal,foul_cost,adjust_det,depth2,mate_risk,q_strict,q_all,strict_share,truth_legal,truth_allows_mate,truth_kind,threat_kind,safe,played,chosen\n";

/// One for what holds, else zero.
pub open spec fn flag(b: bool) -> Seq<char> {
    if b {
        "1"@
    } else {
        "0"@
    }
}

/// Whether a text is in a list.
pub open spec fn is_in(list: Seq<String>, text: Seq<char>) -> bool {
    exists|i: int| 0 <= i < list.len() && (#[trigger] list[i])@ == text
}

/// The fields of a line of the table.
pub open spec fn fields(p: MatePoint, seed: u64, chosen: Seq<char>, r: MateLine) -> Seq<Seq<char>> {
    seq![
        p.game@,
        decimal((p.ply + 1) as nat),
        flag(p.danger),
        decimal(seed as nat),
        r.usi@,
        decimal(r.rank as nat),
        r.scores@[0]@,
        r.scores@[1]@,
        r.scores@[2]@,
        r.scores@[3]@,
        r.scores@[4]@,
        flag(r.depth2),
        r.masses@[0]@,
        r.masses@[1]@,
        r.masses@[2]@,
        r.masses@[3]@,
        flag(r.truth_legal),
        match r.allows_mate {
            Some(b) => flag(b),
            None => Seq::empty(),
        },
        match r.kind {
            Some(k) => k@,
            None => Seq::empty(),
        },
        match p.kind {
            Some(k) => k.1@,
            None => Seq::empty(),
        },
        flag(is_in(p.safe@, r.usi@)),
        flag(r.usi@ == p.played@),
        flag(r.usi@ == chosen),
    ]
}

/// The first `n` fields with commas between them.
pub open spec fn with_commas(fields: Seq<Seq<char>>, n: int) -> Seq<char>
    decreases n,
{
    if n <= 0 {
        Seq::empty()
    } else if n == 1 {
        fields[0]
    } else {
        with_commas(fields, n - 1) + ","@ + fields[n - 1]
    }
}

fn next_field(out: &mut String, text: &str, Ghost(all): Ghost<Seq<Seq<char>>>, Ghost(n): Ghost<int>)
    requires
        1 <= n < all.len(),
        old(out)@ == with_commas(all, n),
        text@ == all[n],
    ensures
        final(out)@ == with_commas(all, n + 1),
{
    out.append(",");
    out.append(text);
}

fn flag_text(b: bool) -> (res: &'static str)
    ensures
        res@ == flag(b),
{
    if b {
        "1"
    } else {
        "0"
    }
}

fn count_text(n: u64) -> (res: String)
    ensures
        res@ == decimal(n as nat),
{
    let mut out = String::new();
    append_decimal(&mut out, n);
    assert(out@ =~= decimal(n as nat));
    out
}

fn holds_text(list: &Vec<String>, text: &String) -> (res: bool)
    ensures
        res == is_in(list@, text@),
{
    let mut i: usize = 0;
    while i < list.len()
        invariant
            i <= list@.len(),
            forall|k: int| 0 <= k < i ==> (#[trigger] list@[k])@ != text@,
        decreases list@.len() - i,
    {
        if list[i] == *text {
            assert(list@[i as int]@ == text@);
            return true;
        }
        i += 1;
    }
    false
}

/// Writes a line of the table: a candidate of a decision under a seed, under which `chosen` was taken.
pub fn table_line(p: &MatePoint, seed: u64, chosen: &str, r: &MateLine) -> (res: String)
    requires
        p.ply < usize::MAX,
    ensures
        res@ == with_commas(fields(*p, seed, chosen@, *r), 23) + "\n"@,
{
    let ghost all = fields(*p, seed, chosen@, *r);
    let mut out = p.game.clone();
    assert(out@ == with_commas(all, 1));
    next_field(&mut out, count_text((p.ply + 1) as u64).as_str(), Ghost(all), Ghost(1));
    next_field(&mut out, flag_text(p.danger), Ghost(all), Ghost(2));
    next_field(&mut out, count_text(seed).as_str(), Ghost(all), Ghost(3));
    next_field(&mut out, r.usi.as_str(), Ghost(all), Ghost(4));
    next_field(&mut out, count_text(r.rank as u64).as_str(), Ghost(all), Ghost(5));
    next_field(&mut out, r.scores[0].as_str(), Ghost(all), Ghost(6));
    next_field(&mut out, r.scores[1].as_str(), Ghost(all), Ghost(7));
    next_field(&mut out, r.scores[2].as_str(), Ghost(all), Ghost(8));
    next_field(&mut out, r.scores[3].as_str(), Ghost(all), Ghost(9));
    next_field(&mut out, r.scores[4].as_str(), Ghost(all), Ghost(10));
    next_field(&mut out, flag_text(r.depth2), Ghost(all), Ghost(11));
    next_field(&mut out, r.masses[0].as_str(), Ghost(all), Ghost(12));
    next_field(&mut out, r.masses[1].as_str(), Ghost(all), Ghost(13));
    next_field(&mut out, r.masses[2].as_str(), Ghost(all), Ghost(14));
    next_field(&mut out, r.masses[3].as_str(), Ghost(all), Ghost(15));
    next_field(&mut out, flag_text(r.truth_legal), Ghost(all), Ghost(16));
    proof {
        reveal_strlit("");
        assert(""@ =~= Seq::<char>::empty());
    }
    let allows: &str = match r.allows_mate {
        Some(b) => flag_text(b),
        None => "",
    };
    next_field(&mut out, allows, Ghost(all), Ghost(17));
    let kind: &str = match &r.kind {
        Some(k) => k.as_str(),
        None => "",
    };
    next_field(&mut out, kind, Ghost(all), Ghost(18));
    let threat: &str = match &p.kind {
        Some(k) => k.1.as_str(),
        None => "",
    };
    next_field(&mut out, threat, Ghost(all), Ghost(19));
    next_field(&mut out, flag_text(holds_text(&p.safe, &r.usi)), Ghost(all), Ghost(20));
    next_field(&mut out, flag_text(r.usi == p.played), Ghost(all), Ghost(21));
    next_field(&mut out, flag_text(same_text(r.usi.as_str(), chosen)), Ghost(all), Ghost(22));
    out.append("\n");
    out
}

} // verus!
