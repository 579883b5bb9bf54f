//! What is believed of the checking piece: interventions on the belief, the moves that show what it
//! does, and the turns in check of a finished game.

use crate::board::Coord;
use crate::check_economy::{
    after_fouls, checker_list, entry_replayed, is_true_checker, lemma_checker_list, true_checkers,
    turn_entry, ReplayedModel,
};
use crate::check_policy::{policy_list, policy_of, Policy, PolicyModel, PolicyMove, PolicyMoveModel};
use crate::check_prep::{
    decision_snapshots, law_snapshots_cover_the_game, snapshot_list, snapshots_of, Snapshot,
    SnapshotModel,
};
use crate::client::text_of;
use crate::config::texts_of;
use crate::numeral::{
    hold, is_finite, kept, law_named_numeral_stays, law_named_sign, name_of, named, number,
    parse_finite, reaches, Binary,
};
use crate::observation::{Event, Observation, ObservationLog};
use crate::protocol::{Color, GameEndPayload, MoveRecord, PlayerView, Role};
use crate::replay::{add_foul_obs, make_view, shown, Replayed};
use crate::shogi::{checked, text_of_move, writable, Position, PositionModel, ShogiMove};
use crate::text::{ahead, begins, behind, ends, lemma_numeral_chars, same_text};
use vstd::prelude::*;
use vstd::string::*;

verus! {

/// The factor that leaves nothing else. A name says `inf` for it and for whatever is larger.
pub const ORACLE_INF: &'static str = "1000000000";

/// An intervention on what is believed of the checking piece. The factor is a numeral in plain form.
#[derive(Debug)]
pub enum Belief {
    /// None.
    Current,
    /// The true hypothesis times `k`, in a single check.
    Oracle { k: String },
    /// The heaviest of the wrong hypotheses times `k`, in a single check.
    Misdirected { k: String },
    /// Without the hypotheses that the opponent's last move cannot explain.
    DeduceLastMove,
}

/// The mathematical content of a `Belief`.
pub enum BeliefModel {
    Current,
    Oracle { k: Seq<char> },
    Misdirected { k: Seq<char> },
    DeduceLastMove,
}

impl View for Belief {
    type V = BeliefModel;

    open spec fn view(&self) -> BeliefModel {
        match self {
            Belief::Current => BeliefModel::Current,
            Belief::Oracle { k } => BeliefModel::Oracle { k: k@ },
            Belief::Misdirected { k } => BeliefModel::Misdirected { k: k@ },
            Belief::DeduceLastMove => BeliefModel::DeduceLastMove,
        }
    }
}

/// Whether a text is a factor: `inf`, or a numeral of a finite number that is not negative.
pub open spec fn is_factor(k: Seq<char>) -> bool {
    k == "inf"@ || is_plain_factor(k)
}

/// Whether a text is the numeral of a finite number that is not negative.
pub open spec fn is_plain_factor(k: Seq<char>) -> bool {
    is_finite(k) && !number(k).negative
}

/// A factor as it is kept: in plain form.
pub open spec fn factor_kept(k: Seq<char>) -> Seq<char> {
    if k == "inf"@ {
        ORACLE_INF@
    } else {
        kept(k)
    }
}

/// Whether a number is at or beyond the factor that leaves nothing else.
pub open spec fn leaves_nothing_else(b: Binary) -> bool {
    reaches(b, 1_000_000_000)
}

/// A factor as it stands in a name.
pub open spec fn factor_named(k: Seq<char>) -> Seq<char> {
    if leaves_nothing_else(number(k)) {
        "inf"@
    } else {
        named(k)
    }
}

fn factor(k: &str) -> (res: Option<String>)
    ensures
        match res {
            Some(f) => is_factor(k@) && f@ == factor_kept(k@),
            None => !is_factor(k@),
        },
{
    if same_text(k, "inf") {
        return Some(ORACLE_INF.to_owned());
    }
    proof {
        reveal(kept);
    }
    match parse_finite(k) {
        Some(d) => if d.negative {
            None
        } else {
            Some(d.plain())
        },
        None => None,
    }
}

fn fmt_k(k: &str) -> (res: String)
    requires
        is_finite(k@),
    ensures
        res@ == factor_named(k@),
{
    let (d, _) = hold(k);
    if d.at_least(1_000_000_000) {
        "inf".to_owned()
    } else {
        name_of(k)
    }
}

impl BeliefModel {
    /// Whether the factor is a numeral of a finite number that is not negative.
    pub open spec fn wf(self) -> bool {
        match self {
            BeliefModel::Oracle { k } => is_plain_factor(k),
            BeliefModel::Misdirected { k } => is_plain_factor(k),
            _ => true,
        }
    }

    /// The intervention with its factor as it stands in its name.
    pub open spec fn as_named(self) -> BeliefModel {
        match self {
            BeliefModel::Oracle { k } => BeliefModel::Oracle { k: factor_kept(factor_named(k)) },
            BeliefModel::Misdirected { k } => BeliefModel::Misdirected {
                k: factor_kept(factor_named(k)),
            },
            _ => self,
        }
    }
}

/// The name of an intervention.
pub open spec fn belief_tag(b: BeliefModel) -> Seq<char> {
    match b {
        BeliefModel::Current => "current"@,
        BeliefModel::Oracle { k } => "oracle@k"@ + factor_named(k),
        BeliefModel::Misdirected { k } => "oracle_misdirected@k"@ + factor_named(k),
        BeliefModel::DeduceLastMove => "deduce_last_move"@,
    }
}

/// The intervention that a name stands for.
pub open spec fn belief_of(tag: Seq<char>) -> Option<BeliefModel> {
    if tag == "current"@ {
        Some(BeliefModel::Current)
    } else if tag == "deduce_last_move"@ {
        Some(BeliefModel::DeduceLastMove)
    } else if begins(tag, "oracle_misdirected@k"@) {
        let k = tag.skip("oracle_misdirected@k"@.len() as int);
        if is_factor(k) {
            Some(BeliefModel::Misdirected { k: factor_kept(k) })
        } else {
            None
        }
    } else if begins(tag, "oracle@k"@) {
        let k = tag.skip("oracle@k"@.len() as int);
        if is_factor(k) {
            Some(BeliefModel::Oracle { k: factor_kept(k) })
        } else {
            None
        }
    } else {
        None
    }
}

/// How the hypotheses are to be weighed.
#[derive(Debug)]
pub enum DiagMode {
    Plain,
    Oracle { k: String },
    Misdirected { k: String },
}

/// The mathematical content of a `DiagMode`.
pub enum ModeModel {
    Plain,
    Oracle { k: Seq<char> },
    Misdirected { k: Seq<char> },
}

impl View for DiagMode {
    type V = ModeModel;

    open spec fn view(&self) -> ModeModel {
        match self {
            DiagMode::Plain => ModeModel::Plain,
            DiagMode::Oracle { k } => ModeModel::Oracle { k: k@ },
            DiagMode::Misdirected { k } => ModeModel::Misdirected { k: k@ },
        }
    }
}

/// An intervention laid down for one position.
#[derive(Debug)]
pub struct HypothesisDiag {
    /// The true checker, where there is exactly one.
    pub truth: Vec<(Coord, Role)>,
    pub mode: DiagMode,
    pub deduce_last_move: bool,
}

impl HypothesisDiag {
    /// Whether nothing is changed.
    pub fn is_noop(&self) -> (res: bool)
        ensures
            res == (self.mode@ is Plain && !self.deduce_last_move),
    {
        match self.mode {
            DiagMode::Plain => !self.deduce_last_move,
            _ => false,
        }
    }
}

/// The checker of a single check. In a double check both hypotheses would share the weight, and a
/// move that meets one of them would look half legal.
pub open spec fn single_checker(truth: PositionModel, bot: Color) -> Seq<(Coord, Role)> {
    if checker_list(truth, bot).len() == 1 {
        checker_list(truth, bot)
    } else {
        Seq::empty()
    }
}

impl Belief {
    /// The name of the intervention.
    pub fn tag(&self) -> (res: String)
        requires
            self@.wf(),
        ensures
            res@ == belief_tag(self@),
    {
        match self {
            Belief::Current => "current".to_owned(),
            Belief::Oracle { k } => {
                let mut out = "oracle@k".to_owned();
                out.append(fmt_k(k.as_str()).as_str());
                out
            },
            Belief::Misdirected { k } => {
                let mut out = "oracle_misdirected@k".to_owned();
                out.append(fmt_k(k.as_str()).as_str());
                out
            },
            Belief::DeduceLastMove => "deduce_last_move".to_owned(),
        }
    }

    /// The intervention that a name stands for. A factor that is negative or not finite is refused.
    pub fn parse(tag: &str) -> (res: Option<Belief>)
        ensures
            match res {
                Some(b) => belief_of(tag@) == Some(b@),
                None => belief_of(tag@) is None,
            },
    {
        if same_text(tag, "current") {
            return Some(Belief::Current);
        }
        if same_text(tag, "deduce_last_move") {
            return Some(Belief::DeduceLastMove);
        }
        if let Some(k) = behind(tag, "oracle_misdirected@k") {
            return match factor(k) {
                Some(k) => Some(Belief::Misdirected { k }),
                None => None,
            };
        }
        if let Some(k) = behind(tag, "oracle@k") {
            return match factor(k) {
                Some(k) => Some(Belief::Oracle { k }),
                None => None,
            };
        }
        None
    }

    /// Whether the intervention needs the truth.
    pub fn needs_truth(&self) -> (res: bool)
        ensures
            res == (self@ is Oracle || self@ is Misdirected),
    {
        match self {
            Belief::Oracle { k: _ } | Belief::Misdirected { k: _ } => true,
            _ => false,
        }
    }

    /// Lays the intervention down for a position.
    pub fn diag(&self, truth: &Position, bot: Color) -> (res: HypothesisDiag)
        ensures
            res.truth@ == (if self@ is Oracle || self@ is Misdirected {
                single_checker(truth@, bot)
            } else {
                Seq::empty()
            }),
            res.mode@ == (match self@ {
                BeliefModel::Oracle { k } => ModeModel::Oracle { k },
                BeliefModel::Misdirected { k } => ModeModel::Misdirected { k },
                _ => ModeModel::Plain,
            }),
            res.deduce_last_move == (self@ is DeduceLastMove),
    {
        let checkers = true_checkers(truth, bot);
        let single: Vec<(Coord, Role)> = if checkers.len() == 1 {
            checkers
        } else {
            Vec::new()
        };
        match self {
            Belief::Current => HypothesisDiag {
                truth: Vec::new(),
                mode: DiagMode::Plain,
                deduce_last_move: false,
            },
            Belief::DeduceLastMove => HypothesisDiag {
                truth: Vec::new(),
                mode: DiagMode::Plain,
                deduce_last_move: true,
            },
            Belief::Oracle { k } => HypothesisDiag {
                truth: single,
                mode: DiagMode::Oracle { k: k.clone() },
                deduce_last_move: false,
            },
            Belief::Misdirected { k } => HypothesisDiag {
                truth: single,
                mode: DiagMode::Misdirected { k: k.clone() },
                deduce_last_move: false,
            },
        }
    }
}

/// An intervention is read back from its name, with its factor as it stands there: the factor that
/// leaves nothing else for whatever is at or beyond it, else the number that the name tells.
pub proof fn law_belief_name_round_trip(b: BeliefModel)
    requires
        b.wf(),
    ensures
        belief_of(belief_tag(b)) == Some(b.as_named()),
        match b {
            BeliefModel::Oracle { k } => factor_kept(factor_named(k)) == (if leaves_nothing_else(
                number(k),
            ) {
                ORACLE_INF@
            } else {
                kept(named(k))
            }),
            BeliefModel::Misdirected { k } => factor_kept(factor_named(k)) == (
            if leaves_nothing_else(number(k)) {
                ORACLE_INF@
            } else {
                kept(named(k))
            }),
            _ => true,
        },
{
    match b {
        BeliefModel::Oracle { k } => {
            lemma_factor_in_name(k);
            lemma_oracle_name(factor_named(k));
        },
        BeliefModel::Misdirected { k } => {
            lemma_factor_in_name(k);
            lemma_misdirected_name(factor_named(k));
        },
        _ => {
            reveal_strlit("current");
            reveal_strlit("deduce_last_move");
            assert("current"@[0] == 'c');
            assert("deduce_last_move"@[0] == 'd');
        },
    }
}

proof fn lemma_oracle_name(k: Seq<char>)
    ensures
        ({
            let t = "oracle@k"@ + k;
            &&& t != "current"@ && t != "deduce_last_move"@
            &&& !begins(t, "oracle_misdirected@k"@)
            &&& begins(t, "oracle@k"@)
            &&& t.skip("oracle@k"@.len() as int) == k
        }),
{
    reveal_strlit("current");
    reveal_strlit("deduce_last_move");
    reveal_strlit("oracle_misdirected@k");
    reveal_strlit("oracle@k");
    let t = "oracle@k"@ + k;
    assert(t[0] == 'o' && t[6] == '@');
    assert("oracle_misdirected@k"@[6] == '_');
    if begins(t, "oracle_misdirected@k"@) {
        assert(t.take(20)[6] == t[6]);
    }
    assert(t.take(8) =~= "oracle@k"@);
    assert(t.skip(8) =~= k);
}

proof fn lemma_misdirected_name(k: Seq<char>)
    ensures
        ({
            let t = "oracle_misdirected@k"@ + k;
            &&& t != "current"@ && t != "deduce_last_move"@
            &&& begins(t, "oracle_misdirected@k"@)
            &&& t.skip("oracle_misdirected@k"@.len() as int) == k
        }),
{
    reveal_strlit("current");
    reveal_strlit("deduce_last_move");
    reveal_strlit("oracle_misdirected@k");
    let t = "oracle_misdirected@k"@ + k;
    assert(t[0] == 'o');
    assert(t.take(20) =~= "oracle_misdirected@k"@);
    assert(t.skip(20) =~= k);
}

/// A factor as it stands in a name is a factor, and is kept as it stands there.
proof fn lemma_factor_in_name(k: Seq<char>)
    requires
        is_plain_factor(k),
    ensures
        is_factor(factor_named(k)),
        factor_kept(factor_named(k)) == (if leaves_nothing_else(number(k)) {
            ORACLE_INF@
        } else {
            kept(named(k))
        }),
{
    if !leaves_nothing_else(number(k)) {
        law_named_numeral_stays(k);
        law_named_sign(k);
        reveal_strlit("inf");
        assert("inf"@[0] == 'i');
        if named(k) == "inf"@ {
            lemma_numeral_chars(named(k), 0);
        }
    }
}

/// An arm of a comparison: what is believed, what is decided by, and whether each foul is followed by
/// a real decision.
#[derive(Debug)]
pub struct ArmSpec {
    pub tag: String,
    pub belief: Belief,
    pub policy: Policy,
    pub real: bool,
}

/// The mathematical content of an `ArmSpec`, without its name.
pub struct ArmModel {
    pub belief: BeliefModel,
    pub policy: PolicyModel,
    pub real: bool,
}

/// The name of an arm without what it says of the decisions after a foul, and what it says.
pub open spec fn arm_core(tag: Seq<char>) -> (Seq<char>, bool) {
    if ends(tag, "@real"@) {
        (tag.take(tag.len() - "@real"@.len()), true)
    } else if ends(tag, "@shadow"@) {
        (tag.take(tag.len() - "@shadow"@.len()), false)
    } else {
        (tag, false)
    }
}

/// The arm of a policy under the present belief, or of a belief under the present policy.
pub open spec fn arm_named(core: Seq<char>, anew: bool) -> Option<ArmModel> {
    match policy_of(core) {
        Some(policy) => Some(ArmModel { belief: BeliefModel::Current, policy, real: anew }),
        None => match belief_of(core) {
            Some(belief) => Some(ArmModel { belief, policy: PolicyModel::Current, real: anew }),
            None => None,
        },
    }
}

/// The arm that a name stands for.
pub open spec fn arm_of(tag: Seq<char>) -> Option<ArmModel> {
    let (core, anew) = arm_core(tag);
    arm_named(core, anew)
}

impl ArmSpec {
    /// The arm that a name stands for.
    pub fn parse(tag: &str) -> (res: Option<ArmSpec>)
        ensures
            match res {
                Some(a) => a.tag@ == tag@ && arm_of(tag@) == Some(
                    ArmModel { belief: a.belief@, policy: a.policy@, real: a.real },
                ),
                None => arm_of(tag@) is None,
            },
    {
        let (core, anew) = match ahead(tag, "@real") {
            Some(core) => (core, true),
            None => match ahead(tag, "@shadow") {
                Some(core) => (core, false),
                None => (tag, false),
            },
        };
        match Policy::parse(core) {
            Some(policy) => Some(
                ArmSpec { tag: tag.to_owned(), belief: Belief::Current, policy, real: anew },
            ),
            None => match Belief::parse(core) {
                Some(belief) => Some(
                    ArmSpec { tag: tag.to_owned(), belief, policy: Policy::Current, real: anew },
                ),
                None => None,
            },
        }
    }
}

/// What follows a name in the name of an arm changes the decisions after a foul and nothing else.
pub proof fn law_arm_suffix(core: Seq<char>)
    ensures
        arm_of(core + "@real"@) == arm_named(core, true),
        arm_of(core + "@shadow"@) == arm_named(core, false),
{
    reveal_strlit("@real");
    reveal_strlit("@shadow");
    let r = core + "@real"@;
    assert(r.skip(r.len() - 5) =~= "@real"@);
    assert(r.take(r.len() - 5) =~= core);
    let s = core + "@shadow"@;
    assert(s.skip(s.len() - 7) =~= "@shadow"@);
    assert(s.take(s.len() - 7) =~= core);
    assert(s.last() == 'w');
    if ends(s, "@real"@) {
        assert(s.skip(s.len() - 5).last() == s.last());
        assert("@real"@[4] == 'l');
    }
}

/// What a decision after the fouls of a turn is made from.
#[derive(Debug)]
pub struct Redecision {
    pub view: PlayerView,
    pub log: ObservationLog,
    /// The fouls as texts.
    pub tried: Vec<String>,
}

/// Prepares a decision after fouls that were made in thought: the player sees the position as it
/// was, with the fouls counted and in its log.
pub fn redecision(entry: &Replayed, side: Color, fouls: &Vec<ShogiMove>) -> (res: Redecision)
    requires
        forall|i: int| 0 <= i < fouls@.len() ==> writable(#[trigger] fouls@[i]),
    ensures
        texts_of(res.tried@) == fouls@.map_values(|mv: ShogiMove| text_of_move(mv)),
        ({
            let post = after_fouls(entry@, side, texts_of(res.tried@));
            res.log@ == post.logs.of(side) && res.view@ == shown(entry.pos@, side, post.fouls)
        }),
{
    let ghost write = |mv: ShogiMove| text_of_move(mv);
    let mut logs = entry.logs.clone();
    let mut counts = entry.fouls;
    let mut tried: Vec<String> = Vec::new();
    let mut i: usize = 0;
    assert(texts_of(tried@) =~= fouls@.take(0).map_values(write));
    while i < fouls.len()
        invariant
            i <= fouls@.len(),
            write == (|mv: ShogiMove| text_of_move(mv)),
            forall|i: int| 0 <= i < fouls@.len() ==> writable(#[trigger] fouls@[i]),
            texts_of(tried@) == fouls@.take(i as int).map_values(write),
            logs@ == after_fouls(entry@, side, texts_of(tried@)).logs,
            counts@ == after_fouls(entry@, side, texts_of(tried@)).fouls,
            after_fouls(entry@, side, texts_of(tried@)).pos == entry.pos@,
        decreases fouls@.len() - i,
    {
        let ghost before_ = tried@;
        let text = fouls[i].to_usi();
        add_foul_obs(side, text.clone(), &entry.pos, &mut logs, &mut counts);
        tried.push(text);
        proof {
            assert(texts_of(tried@) =~= texts_of(before_).push(text@));
            assert(texts_of(tried@).drop_last() =~= texts_of(before_));
            assert(fouls@.take(i + 1).map_values(write) =~= fouls@.take(i as int).map_values(
                write,
            ).push(text@));
        }
        i += 1;
    }
    assert(fouls@.take(i as int) =~= fouls@);
    let view = make_view(&entry.pos, side, &counts);
    let log = logs.of(side).clone();
    Redecision { view, log, tried }
}

/// The two moves that show where the belief goes.
#[derive(Clone, Copy, Debug, PartialEq, Eq)]
pub struct Focus {
    /// The first move, but for the king's, that takes a true checker.
    pub true_capture: Option<usize>,
    /// The first move, but for the king's, onto a square where a checker is wrongly supposed.
    pub false_capture: Option<usize>,
}

/// Whether a candidate takes a true checker, and not with the king.
pub open spec fn takes_truth(m: PolicyMoveModel, truth: PositionModel, bot: Color) -> bool {
    &&& !m.is_king
    &&& m.mv matches ShogiMove::Board { from, to, promote }
    &&& is_true_checker(truth, bot, to)
}

/// Whether a candidate goes, and not with the king, to a square where a checker is wrongly supposed.
pub open spec fn takes_phantom(
    m: PolicyMoveModel,
    truth: PositionModel,
    bot: Color,
    supposed: Seq<Coord>,
) -> bool {
    &&& !m.is_king
    &&& m.mv matches ShogiMove::Board { from, to, promote }
    &&& !is_true_checker(truth, bot, to) && supposed.contains(to)
}

/// The first of the first `n` places with a property.
pub open spec fn first_with(
    moves: Seq<PolicyMoveModel>,
    p: spec_fn(PolicyMoveModel) -> bool,
    n: int,
) -> Option<int>
    decreases n,
{
    if n <= 0 {
        None
    } else {
        match first_with(moves, p, n - 1) {
            Some(i) => Some(i),
            None => if p(moves[n - 1]) {
                Some(n - 1)
            } else {
                None
            },
        }
    }
}

/// A place that may be missing, as a number.
pub open spec fn place(i: Option<usize>) -> Option<int> {
    match i {
        Some(i) => Some(i as int),
        None => None,
    }
}

fn holds_square(list: &Vec<Coord>, c: Coord) -> (res: bool)
    ensures
        res == list@.contains(c),
{
    let mut i: usize = 0;
    while i < list.len()
        invariant
            i <= list@.len(),
            forall|k: int| 0 <= k < i ==> list@[k] != c,
        decreases list@.len() - i,
    {
        if list[i] == c {
            assert(list@[i as int] == c);
            return true;
        }
        i += 1;
    }
    false
}

fn holds_checker(list: &Vec<(Coord, Role)>, c: Coord) -> (res: bool)
    ensures
        res == exists|i: int| 0 <= i < list@.len() && (#[trigger] list@[i]).0 == c,
{
    let mut i: usize = 0;
    while i < list.len()
        invariant
            i <= list@.len(),
            forall|k: int| 0 <= k < i ==> (#[trigger] list@[k]).0 != c,
        decreases list@.len() - i,
    {
        if list[i].0 == c {
            assert(list@[i as int].0 == c);
            return true;
        }
        i += 1;
    }
    false
}

/// Finds the two moves that show where the belief goes, among candidates in the order of their rank.
pub fn focus(moves: &Vec<PolicyMove>, truth: &Position, bot: Color, supposed: &Vec<Coord>) -> (res:
    Focus)
    ensures
        place(res.true_capture) == first_with(
            policy_list(moves@),
            |m: PolicyMoveModel| takes_truth(m, truth@, bot),
            moves@.len() as int,
        ),
        place(res.false_capture) == first_with(
            policy_list(moves@),
            |m: PolicyMoveModel| takes_phantom(m, truth@, bot, supposed@),
            moves@.len() as int,
        ),
{
    let checkers = true_checkers(truth, bot);
    let ghost all = policy_list(moves@);
    let ghost genuine = |m: PolicyMoveModel| takes_truth(m, truth@, bot);
    let ghost phantom = |m: PolicyMoveModel| takes_phantom(m, truth@, bot, supposed@);
    let mut out = Focus { true_capture: None, false_capture: None };
    let mut i: usize = 0;
    while i < moves.len()
        invariant
            i <= moves@.len(),
            all == policy_list(moves@),
            checkers@ == checker_list(truth@, bot),
            genuine == (|m: PolicyMoveModel| takes_truth(m, truth@, bot)),
            phantom == (|m: PolicyMoveModel| takes_phantom(m, truth@, bot, supposed@)),
            place(out.true_capture) == first_with(all, genuine, i as int),
            place(out.false_capture) == first_with(all, phantom, i as int),
        decreases moves@.len() - i,
    {
        let m = &moves[i];
        assert(all[i as int] == m@);
        if let ShogiMove::Board { from: _, to, promote: _ } = m.mv {
            proof {
                lemma_checker_list(truth@, bot, to);
            }
            if !m.is_king {
                if holds_checker(&checkers, to) {
                    if out.true_capture.is_none() {
                        out.true_capture = Some(i);
                    }
                } else if holds_square(supposed, to) {
                    if out.false_capture.is_none() {
                        out.false_capture = Some(i);
                    }
                }
            }
        }
        i += 1;
    }
    out
}

/// A turn in check of a finished game.
#[derive(Debug)]
pub struct Point {
    /// The state at the beginning of the turn, before its fouls.
    pub entry: Replayed,
    pub truth: Position,
    pub bot: Color,
    pub move_number: u32,
    /// The fouls of the turn, in order.
    pub record_fouls: Vec<String>,
    /// The move that was accepted; none where the game ended in the turn.
    pub record_accepted: Option<String>,
    /// The opponent's move before the turn.
    pub opp_last_usi: Option<String>,
    /// Where that move took a piece.
    pub opp_captured_at: Option<String>,
    /// Whether the game ended in the turn.
    pub terminal: bool,
}

/// The mathematical content of a `Point`.
pub struct PointModel {
    pub entry: ReplayedModel,
    pub truth: PositionModel,
    pub bot: Color,
    pub move_number: u32,
    pub record_fouls: Seq<Seq<char>>,
    pub record_accepted: Option<Seq<char>>,
    pub opp_last_usi: Option<Seq<char>>,
    pub opp_captured_at: Option<Seq<char>>,
    pub terminal: bool,
}

impl View for Point {
    type V = PointModel;

    open spec fn view(&self) -> PointModel {
        PointModel {
            entry: self.entry@,
            truth: self.truth@,
            bot: self.bot,
            move_number: self.move_number,
            record_fouls: texts_of(self.record_fouls@),
            record_accepted: text_of(self.record_accepted),
            opp_last_usi: text_of(self.opp_last_usi),
            opp_captured_at: text_of(self.opp_captured_at),
            terminal: self.terminal,
        }
    }
}

/// The contents of a list of points.
pub open spec fn point_list(points: Seq<Point>) -> Seq<PointModel> {
    points.map_values(|p: Point| p@)
}

impl Point {
    /// Whether the turn held fouls.
    pub fn estimand(&self) -> (res: &'static str)
        ensures
            res@ == (if self@.record_fouls.len() == 0 {
                "nofoul"@
            } else {
                "foul"@
            }),
    {
        if self.record_fouls.len() == 0 {
            "nofoul"
        } else {
            "foul"
        }
    }
}

/// What became of the turns in check of a game.
#[derive(Clone, Copy, Debug, PartialEq, Eq)]
pub struct Attrition {
    /// All of them.
    pub turns: u32,
    /// Those in which the game ended.
    pub terminal: u32,
    /// Those whose beginning could not be restored.
    pub unreplayable: u32,
}

/// Whether a decision is a turn of the bot in check.
pub open spec fn in_danger(s: SnapshotModel, bot: Color) -> bool {
    s.side == bot && checked(s.pos, bot)
}

/// The state of a decision, after its fouls.
pub open spec fn post_of(s: SnapshotModel) -> ReplayedModel {
    ReplayedModel { pos: s.pos, logs: s.logs, fouls: s.fouls, plies: 0 }
}

/// The texts of the last `n` events, which are fouls.
pub open spec fn foul_texts(events: Seq<Event>, n: int) -> Seq<Seq<char>> {
    Seq::new(n as nat, |i: int| events[events.len() - n + i]->MyFoul_usi)
}

/// Where the opponent's last move took a piece.
pub open spec fn last_taken(events: Seq<Event>) -> Option<Seq<char>>
    decreases events.len(),
{
    if events.len() == 0 {
        None
    } else {
        match events.last() {
            Event::OpponentMoved { move_number, captured_at } => captured_at,
            _ => last_taken(events.drop_last()),
        }
    }
}

/// The move at a place of a record.
pub open spec fn usi_at(moves: Seq<MoveRecord>, i: int) -> Option<Seq<char>> {
    if 0 <= i < moves.len() {
        Some(moves[i].usi@)
    } else {
        None
    }
}

/// The point of a decision, if it is a turn in check whose beginning can be restored.
pub open spec fn point_of(
    moves: Seq<MoveRecord>,
    bot: Color,
    s: SnapshotModel,
) -> Option<PointModel> {
    match turn_entry(post_of(s), bot, s.fouls_this_turn) {
        Some(entry) => if in_danger(s, bot) {
            Some(
                PointModel {
                    entry,
                    truth: s.pos,
                    bot,
                    move_number: s.pos.move_number,
                    record_fouls: foul_texts(s.logs.of(bot), s.fouls_this_turn as int),
                    record_accepted: if s.terminal {
                        None
                    } else {
                        usi_at(moves, s.decision_id as int)
                    },
                    opp_last_usi: usi_at(moves, s.decision_id - 1),
                    opp_captured_at: last_taken(s.logs.of(bot)),
                    terminal: s.terminal,
                },
            )
        } else {
            None
        },
        None => None,
    }
}

/// All turns in check of a game, of those that can be restored.
pub open spec fn points_of(end: GameEndPayload, bot: Color) -> Option<Seq<PointModel>> {
    match snapshots_of(end) {
        Some(list) => Some(list.filter_map(|s: SnapshotModel| point_of(end.moves@, bot, s))),
        None => None,
    }
}

/// What became of the turns in check among some decisions.
pub open spec fn attrition_of(list: Seq<SnapshotModel>, bot: Color) -> (nat, nat, nat) {
    (
        list.filter(|s: SnapshotModel| in_danger(s, bot)).len(),
        list.filter(|s: SnapshotModel| in_danger(s, bot) && s.terminal).len(),
        list.filter(
            |s: SnapshotModel|
                in_danger(s, bot) && turn_entry(post_of(s), bot, s.fouls_this_turn) is None,
        ).len(),
    )
}

fn record_usi(moves: &Vec<MoveRecord>, id: u64) -> (res: Option<String>)
    ensures
        text_of(res) == usi_at(moves@, id as int),
{
    if id < moves.len() as u64 {
        let i: usize = id as usize;
        Some(moves[i].usi.clone())
    } else {
        None
    }
}

fn find_last_taken(log: &ObservationLog) -> (res: Option<String>)
    ensures
        text_of(res) == last_taken(log@),
{
    let events = log.events();
    let mut i: usize = events.len();
    assert(log@.take(i as int) =~= log@);
    while i > 0
        invariant
            i <= events@.len(),
            log@ == crate::observation::events_of(events@),
            last_taken(log@) == last_taken(log@.take(i as int)),
        decreases i,
    {
        i -= 1;
        proof {
            assert(log@.take(i + 1).drop_last() =~= log@.take(i as int));
            assert(log@.take(i + 1).last() == events@[i as int]@);
        }
        if let Observation::OpponentMoved { move_number: _, captured_my_piece_at } = &events[i] {
            return match captured_my_piece_at {
                Some(sq) => Some(sq.clone()),
                None => None,
            };
        }
    }
    None
}

fn last_fouls(log: &ObservationLog, n: usize) -> (res: Vec<String>)
    requires
        crate::check_economy::ends_in_fouls(log@, n as int, true),
    ensures
        texts_of(res@) == foul_texts(log@, n as int),
{
    let events = log.events();
    let total: usize = events.len();
    let start: usize = total - n;
    let mut out: Vec<String> = Vec::new();
    let mut i: usize = 0;
    while i < n
        invariant
            i <= n,
            log@ == crate::observation::events_of(events@),
            crate::check_economy::ends_in_fouls(log@, n as int, true),
            total == events@.len(),
            start + n == total,
            out@.len() == i,
            forall|k: int| 0 <= k < i ==> (#[trigger] out@[k])@ == log@[start + k]->MyFoul_usi,
        decreases n - i,
    {
        assert(log@[start + i] == events@[start + i]@);
        assert(log@[start + i] is MyFoul);
        if let Observation::MyFoul { move_number: _, usi } = &events[start + i] {
            out.push(usi.clone());
        }
        i += 1;
    }
    assert(texts_of(out@) =~= foul_texts(log@, n as int));
    out
}

/// The point of a decision, which is a turn in check.
fn point_at(end: &GameEndPayload, bot: Color, s: &Snapshot) -> (res: Option<Point>)
    requires
        in_danger(s@, bot),
    ensures
        match res {
            Some(p) => point_of(end.moves@, bot, s@) == Some(p@),
            None => point_of(end.moves@, bot, s@) is None && turn_entry(
                post_of(s@),
                bot,
                s.fouls_this_turn,
            ) is None,
        },
{
    let post = Replayed { pos: s.pos, logs: s.logs.clone(), fouls: s.fouls, plies: 0 };
    assert(post@ == post_of(s@));
    let entry = match entry_replayed(&post, bot, s.fouls_this_turn) {
        Some(entry) => entry,
        None => return None,
    };
    let record_fouls = last_fouls(post.logs.of(bot), s.fouls_this_turn as usize);
    let opp_last_usi = if s.decision_id > 0 {
        record_usi(&end.moves, s.decision_id - 1)
    } else {
        None
    };
    let record_accepted = if s.terminal {
        None
    } else {
        record_usi(&end.moves, s.decision_id)
    };
    Some(
        Point {
            entry,
            truth: s.pos,
            bot,
            move_number: s.pos.move_number(),
            record_fouls,
            record_accepted,
            opp_last_usi,
            opp_captured_at: find_last_taken(post.logs.of(bot)),
            terminal: s.terminal,
        },
    )
}

/// Takes all turns in check out of a finished game, the one in which it ended among them, and counts
/// what became of them. Each turn is either returned or counted as one that could not be restored.
pub fn decision_points(end: &GameEndPayload, bot: Color, at: &mut Attrition) -> (res: Option<
    Vec<Point>,
>)
    requires
        end.moves@.len() <= u32::MAX,
        end.foul_attempts@.len() <= u32::MAX,
        old(at).turns + end.moves@.len() < u32::MAX,
        old(at).terminal + end.moves@.len() < u32::MAX,
        old(at).unreplayable + end.moves@.len() < u32::MAX,
    ensures
        match res {
            Some(list) => {
                &&& points_of(*end, bot) == Some(point_list(list@))
                &&& ({
                    let found = attrition_of(snapshots_of(*end)->0, bot);
                    &&& final(at).turns == old(at).turns + found.0
                    &&& final(at).terminal == old(at).terminal + found.1
                    &&& final(at).unreplayable == old(at).unreplayable + found.2
                })
                &&& final(at).turns - old(at).turns == list@.len() + (final(at).unreplayable
                    - old(at).unreplayable)
            },
            None => points_of(*end, bot) is None && *final(at) == *old(at),
        },
{
    let snaps = match decision_snapshots(end) {
        Some(snaps) => snaps,
        None => return None,
    };
    let ghost all = snapshot_list(snaps@);
    let ghost first = *at;
    proof {
        law_snapshots_cover_the_game(*end);
    }
    let ghost pick = |s: SnapshotModel| point_of(end.moves@, bot, s);
    let ghost danger = |s: SnapshotModel| in_danger(s, bot);
    let ghost over = |s: SnapshotModel| in_danger(s, bot) && s.terminal;
    let ghost lost = |s: SnapshotModel|
        in_danger(s, bot) && turn_entry(post_of(s), bot, s.fouls_this_turn) is None;
    let mut out: Vec<Point> = Vec::new();
    let mut i: usize = 0;
    assert(all.take(0).filter_map(pick) =~= Seq::<PointModel>::empty());
    assert(point_list(out@) =~= Seq::<PointModel>::empty());
    proof {
        all.take(0).lemma_filter_len(danger);
        all.take(0).lemma_filter_len(over);
        all.take(0).lemma_filter_len(lost);
    }
    while i < snaps.len()
        invariant
            i <= snaps@.len(),
            all == snapshot_list(snaps@),
            snaps@.len() == end.moves@.len() + 1,
            end.moves@.len() <= u32::MAX,
            first == *old(at),
            first.turns + end.moves@.len() < u32::MAX,
            first.terminal + end.moves@.len() < u32::MAX,
            first.unreplayable + end.moves@.len() < u32::MAX,
            pick == (|s: SnapshotModel| point_of(end.moves@, bot, s)),
            danger == (|s: SnapshotModel| in_danger(s, bot)),
            over == (|s: SnapshotModel| in_danger(s, bot) && s.terminal),
            lost == (|s: SnapshotModel|
                in_danger(s, bot) && turn_entry(post_of(s), bot, s.fouls_this_turn) is None),
            point_list(out@) == all.take(i as int).filter_map(pick),
            all.take(i as int).filter(danger).len() <= i,
            all.take(i as int).filter(over).len() <= i,
            all.take(i as int).filter(lost).len() <= i,
            at.turns == first.turns + all.take(i as int).filter(danger).len(),
            at.terminal == first.terminal + all.take(i as int).filter(over).len(),
            at.unreplayable == first.unreplayable + all.take(i as int).filter(lost).len(),
            at.turns - first.turns == out@.len() + (at.unreplayable - first.unreplayable),
        decreases snaps@.len() - i,
    {
        let s = &snaps[i];
        let ghost before_ = out@;
        proof {
            assert(all[i as int] == s@);
            all.lemma_filter_map_take_succ(pick, i as int);
            assert(all.take(i + 1) =~= all.take(i as int).push(s@));
            all.take(i as int).lemma_filter_push(s@, danger);
            all.take(i as int).lemma_filter_push(s@, over);
            all.take(i as int).lemma_filter_push(s@, lost);
        }
        if s.side == bot && s.pos.in_check(bot) {
            at.turns += 1;
            if s.terminal {
                at.terminal += 1;
            }
            match point_at(end, bot, s) {
                Some(p) => {
                    out.push(p);
                    assert(point_list(out@) =~= point_list(before_).push(p@));
                },
                None => {
                    at.unreplayable += 1;
                },
            }
        }
        i += 1;
    }
    assert(all.take(i as int) =~= all);
    Some(out)
}

/// Every point is a turn of the bot in check in the truth, it begins at that very position, and the
/// game ended in it exactly where no move was accepted.
pub proof fn law_points_are_turns_in_check(end: GameEndPayload, bot: Color, i: int)
    requires
        points_of(end, bot) is Some,
        end.moves@.len() <= u32::MAX,
        0 <= i < points_of(end, bot)->0.len(),
    ensures
        ({
            let p = points_of(end, bot)->0[i];
            &&& checked(p.truth, bot)
            &&& p.entry.pos == p.truth
            &&& p.terminal <==> p.record_accepted is None
        }),
{
    law_snapshots_cover_the_game(end);
    let list = snapshots_of(end)->0;
    let pick = |s: SnapshotModel| point_of(end.moves@, bot, s);
    lemma_filter_map_from(list, pick, i);
    let k = choose|k: int| 0 <= k < list.len() && #[trigger] pick(list[k]) == Some(
        list.filter_map(pick)[i],
    );
    assert(list[k] == snapshots_of(end)->0[k]);
}

proof fn lemma_filter_map_from(
    list: Seq<SnapshotModel>,
    pick: spec_fn(SnapshotModel) -> Option<PointModel>,
    i: int,
)
    requires
        0 <= i < list.filter_map(pick).len(),
    ensures
        exists|k: int|
            0 <= k < list.len() && #[trigger] pick(list[k]) == Some(list.filter_map(pick)[i]),
    decreases list.len(),
{
    if list.len() == 0 {
        assert(list.filter_map(pick) =~= Seq::<PointModel>::empty());
    } else {
        let n = list.len() - 1;
        let front = list.take(n);
        list.lemma_filter_map_take_succ(pick, n);
        assert(list.take(n + 1) =~= list);
        if i < front.filter_map(pick).len() {
            lemma_filter_map_from(front, pick, i);
            let k = choose|k: int|
                0 <= k < front.len() && #[trigger] pick(front[k]) == Some(
                    front.filter_map(pick)[i],
                );
            assert(pick(list[k]) == Some(list.filter_map(pick)[i]));
        } else {
            assert(pick(list[n]) == Some(list.filter_map(pick)[i]));
        }
    }
}

} // verus!
