//! Policies for a turn in check, judged by the truth: which candidate is taken, what a foul does to
//! the turn, and how things stand afterwards.
//!
//! Scores are compared, never computed, here: each candidate comes with an integer that is ordered
//! as its score is.

use crate::board::Coord;
use crate::candidates::{insert_text, is_listed, lemma_no_texts, text_set};
use crate::check::CheckSolver;
use crate::check_economy::{
    classify_move_kind, is_king_move, kind_of, shown_king, CheckMoveKind,
};
use crate::client::text_of;
use crate::config::texts_of;
use crate::lists::count_if;
use crate::numeral::{
    is_finite, keep, kept, law_kept_numeral_stays, law_named_numeral_stays, name_of, named,
};
use crate::observation::{Event, Observation, ObservationLog};
use crate::protocol::{hand_slot, other_color, slot_of, Color, PlayerView, Role, MAX_FOULS};
use crate::replay::lemma_legal_is_playable;
use crate::shogi::{
    after_move, checked, law_legal_moves, legal, legal_list, move_of_text, outcome_of, parse_usi,
    piece_list, Outcome, Piece, Position, PositionModel, ShogiMove,
};
use crate::text::{
    before, begins, behind, comes_before, find_char, lemma_numeral_chars, lemma_place_of_char,
    place_of_char, same_text,
};
use vstd::prelude::*;
use vstd::string::*;

verus! {

/// A candidate of a turn in check.
#[derive(Debug)]
pub struct PolicyMove {
    /// Its place in the ranking.
    pub rank: usize,
    pub usi: String,
    pub mv: ShogiMove,
    pub kind: CheckMoveKind,
    pub is_king: bool,
    /// Whether it is really legal. A policy must not look at this.
    pub truth_legal: bool,
}

/// The mathematical content of a `PolicyMove`.
pub struct PolicyMoveModel {
    pub rank: int,
    pub usi: Seq<char>,
    pub mv: ShogiMove,
    pub kind: CheckMoveKind,
    pub is_king: bool,
    pub truth_legal: bool,
}

impl View for PolicyMove {
    type V = PolicyMoveModel;

    open spec fn view(&self) -> PolicyMoveModel {
        PolicyMoveModel {
            rank: self.rank as int,
            usi: self.usi@,
            mv: self.mv,
            kind: self.kind,
            is_king: self.is_king,
            truth_legal: self.truth_legal,
        }
    }
}

/// The contents of a list of candidates.
pub open spec fn policy_list(moves: Seq<PolicyMove>) -> Seq<PolicyMoveModel> {
    moves.map_values(|m: PolicyMove| m@)
}

/// The candidate at a place of a ranking, if its text is a move.
pub open spec fn policy_move_at(
    ranking: Seq<Seq<char>>,
    i: int,
    own: Seq<(Seq<char>, Role)>,
    truth: PositionModel,
    solver: Option<CheckSolver>,
    king: Option<Coord>,
) -> Option<PolicyMoveModel> {
    match move_of_text(ranking[i]) {
        Some(mv) => Some(
            PolicyMoveModel {
                rank: i,
                usi: ranking[i],
                mv,
                kind: kind_of(
                    mv,
                    shown_king(own),
                    solver matches Some(s) && s@.takes_checker(mv),
                ),
                is_king: mv matches ShogiMove::Board { from, to, promote } && king == Some(from),
                truth_legal: legal(truth, mv),
            },
        ),
        None => None,
    }
}

/// The candidates of a ranking, labelled by the truth.
pub open spec fn labelled_moves(
    ranking: Seq<Seq<char>>,
    own: Seq<(Seq<char>, Role)>,
    truth: PositionModel,
    solver: Option<CheckSolver>,
    king: Option<Coord>,
) -> Seq<PolicyMoveModel> {
    Seq::new(ranking.len(), |i: int| i).filter_map(
        |i: int| policy_move_at(ranking, i, own, truth, solver, king),
    )
}

/// A solver that may be absent.
pub open spec fn solver_of(solver: Option<&CheckSolver>) -> Option<CheckSolver> {
    match solver {
        Some(s) => Some(*s),
        None => None,
    }
}

/// Labels the candidates of a ranking. The kind of a candidate is what the player meant by it.
pub fn policy_moves(
    ranking: &Vec<String>,
    view: &PlayerView,
    truth: &Position,
    solver: Option<&CheckSolver>,
    king: Option<Coord>,
) -> (res: Vec<PolicyMove>)
    requires
        solver matches Some(s) ==> s.inv(),
    ensures
        policy_list(res@) == labelled_moves(
            texts_of(ranking@),
            view@.pieces,
            truth@,
            solver_of(solver),
            king,
        ),
{
    let ghost texts = texts_of(ranking@);
    let ghost all = Seq::new(texts.len(), |i: int| i);
    let ghost pick = |i: int|
        policy_move_at(texts, i, view@.pieces, truth@, solver_of(solver), king);
    let mut out: Vec<PolicyMove> = Vec::new();
    let mut i: usize = 0;
    assert(all.take(0).filter_map(pick) =~= Seq::<PolicyMoveModel>::empty());
    assert(policy_list(out@) =~= Seq::<PolicyMoveModel>::empty());
    while i < ranking.len()
        invariant
            i <= ranking@.len(),
            solver matches Some(s) ==> s.inv(),
            texts == texts_of(ranking@),
            all == Seq::new(texts.len(), |i: int| i),
            pick == (|i: int|
                policy_move_at(texts, i, view@.pieces, truth@, solver_of(solver), king)),
            policy_list(out@) == all.take(i as int).filter_map(pick),
        decreases ranking@.len() - i,
    {
        let ghost before_ = out@;
        proof {
            all.lemma_filter_map_take_succ(pick, i as int);
            assert(texts[i as int] == ranking@[i as int]@);
        }
        if let Some(mv) = parse_usi(ranking[i].as_str()) {
            let m = PolicyMove {
                rank: i,
                usi: ranking[i].clone(),
                mv,
                kind: classify_move_kind(&mv, view, solver),
                is_king: is_king_move(ranking[i].as_str(), king),
                truth_legal: truth.is_legal(&mv),
            };
            assert(Some(m@) == pick(i as int));
            out.push(m);
            assert(policy_list(out@) =~= policy_list(before_).push(m@));
        }
        i += 1;
    }
    assert(all.take(i as int) =~= all);
    out
}

/// How a policy uses the scores.
#[derive(Clone, Copy, Debug, PartialEq, Eq, Structural)]
pub enum PickRule {
    /// The best score.
    Best,
    /// Where the present scores would move the king, that move; else the best score among the other
    /// moves.
    ReorderProbes,
}

/// The best of the candidates among the first `n` that may be taken: the highest score, of equal
/// ones that with the earlier text, of equal texts the last.
pub open spec fn best_of(
    moves: Seq<PolicyMoveModel>,
    keys: Seq<i64>,
    excluded: Set<Seq<char>>,
    probes_only: bool,
    n: int,
) -> Option<int>
    decreases n,
{
    if n <= 0 {
        None
    } else {
        let best = best_of(moves, keys, excluded, probes_only, n - 1);
        let m = moves[n - 1];
        if excluded.contains(m.usi) || (probes_only && m.is_king) {
            best
        } else {
            match best {
                Some(b) => if keys[n - 1] > keys[b] || (keys[n - 1] == keys[b] && !comes_before(
                    moves[b].usi,
                    m.usi,
                )) {
                    Some(n - 1)
                } else {
                    best
                },
                None => Some(n - 1),
            }
        }
    }
}

/// The candidate that a policy takes. `present` are the scores at the present price.
pub open spec fn picked(
    rule: PickRule,
    moves: Seq<PolicyMoveModel>,
    keys: Seq<i64>,
    present: Seq<i64>,
    excluded: Set<Seq<char>>,
) -> Option<int> {
    let n = moves.len() as int;
    match rule {
        PickRule::Best => best_of(moves, keys, excluded, false, n),
        PickRule::ReorderProbes => match best_of(moves, present, excluded, false, n) {
            Some(cur) => if moves[cur].is_king {
                Some(cur)
            } else {
                match best_of(moves, keys, excluded, true, n) {
                    Some(i) => Some(i),
                    None => Some(cur),
                }
            },
            None => None,
        },
    }
}

fn best_index(
    moves: &Vec<PolicyMove>,
    keys: &Vec<i64>,
    excluded: &Vec<String>,
    probes_only: bool,
) -> (res:
    Option<usize>)
    requires
        keys@.len() == moves@.len(),
    ensures
        match res {
            Some(i) => i < moves@.len() && best_of(
                policy_list(moves@),
                keys@,
                text_set(excluded@),
                probes_only,
                moves@.len() as int,
            ) == Some(i as int),
            None => best_of(
                policy_list(moves@),
                keys@,
                text_set(excluded@),
                probes_only,
                moves@.len() as int,
            ) is None,
        },
{
    let ghost all = policy_list(moves@);
    let mut best: Option<usize> = None;
    let mut i: usize = 0;
    while i < moves.len()
        invariant
            i <= moves@.len(),
            keys@.len() == moves@.len(),
            all == policy_list(moves@),
            match best {
                Some(b) => b < i && best_of(all, keys@, text_set(excluded@), probes_only, i as int)
                    == Some(b as int),
                None => best_of(all, keys@, text_set(excluded@), probes_only, i as int) is None,
            },
        decreases moves@.len() - i,
    {
        assert(all[i as int] == moves@[i as int]@);
        if !is_listed(excluded, &moves[i].usi) && !(probes_only && moves[i].is_king) {
            best = match best {
                Some(b) => {
                    assert(all[b as int] == moves@[b as int]@);
                    if keys[i] > keys[b] || (keys[i] == keys[b] && !before(
                        moves[b].usi.as_str(),
                        moves[i].usi.as_str(),
                    )) {
                        Some(i)
                    } else {
                        Some(b)
                    }
                },
                None => Some(i),
            };
        }
        i += 1;
    }
    best
}

/// Takes a candidate by its scores.
pub fn pick(
    rule: PickRule,
    moves: &Vec<PolicyMove>,
    keys: &Vec<i64>,
    present: &Vec<i64>,
    excluded: &Vec<String>,
) -> (res: Option<usize>)
    requires
        keys@.len() == moves@.len(),
        present@.len() == moves@.len(),
    ensures
        match res {
            Some(i) => i < moves@.len() && picked(
                rule,
                policy_list(moves@),
                keys@,
                present@,
                text_set(excluded@),
            ) == Some(i as int),
            None => picked(rule, policy_list(moves@), keys@, present@, text_set(excluded@)) is None,
        },
{
    match rule {
        PickRule::Best => best_index(moves, keys, excluded, false),
        PickRule::ReorderProbes => match best_index(moves, present, excluded, false) {
            Some(cur) => {
                assert(policy_list(moves@)[cur as int] == moves@[cur as int]@);
                if moves[cur].is_king {
                    return Some(cur);
                }
                match best_index(moves, keys, excluded, true) {
                    Some(i) => Some(i),
                    None => Some(cur),
                }
            },
            None => None,
        },
    }
}

/// What is taken was not set aside, and nothing that may be taken scores higher; of equal scores the
/// earlier text is taken.
pub proof fn law_pick_is_best(
    moves: Seq<PolicyMoveModel>,
    keys: Seq<i64>,
    excluded: Set<Seq<char>>,
    probes_only: bool,
    n: int,
)
    requires
        0 <= n <= moves.len(),
        keys.len() == moves.len(),
    ensures
        match best_of(moves, keys, excluded, probes_only, n) {
            Some(b) => {
                &&& 0 <= b < n
                &&& !excluded.contains(moves[b].usi)
                &&& !(probes_only && moves[b].is_king)
                &&& forall|j: int|
                    0 <= j < n && !excluded.contains((#[trigger] moves[j]).usi) && !(probes_only
                        && moves[j].is_king) ==> keys[j] < keys[b] || (keys[j] == keys[b]
                        && !comes_before(moves[j].usi, moves[b].usi))
            },
            None => forall|j: int|
                0 <= j < n ==> excluded.contains((#[trigger] moves[j]).usi) || (probes_only
                    && moves[j].is_king),
        },
    decreases n,
{
    if n > 0 {
        law_pick_is_best(moves, keys, excluded, probes_only, n - 1);
        let old_best = best_of(moves, keys, excluded, probes_only, n - 1);
        let new_best = best_of(moves, keys, excluded, probes_only, n);
        if let Some(b) = new_best {
            crate::text::lemma_one_comes_first(moves[b].usi, moves[b].usi);
            if let Some(o) = old_best {
                crate::text::lemma_one_comes_first(moves[o].usi, moves[n - 1].usi);
                assert forall|j: int|
                    0 <= j < n && !excluded.contains((#[trigger] moves[j]).usi) && !(probes_only
                        && moves[j].is_king) implies keys[j] < keys[b] || (keys[j] == keys[b]
                    && !comes_before(moves[j].usi, moves[b].usi)) by {
                    if b == n - 1 && j < n - 1 && keys[j] == keys[b] && comes_before(
                        moves[j].usi,
                        moves[b].usi,
                    ) {
                        assert(keys[o] == keys[b]);
                        assert(!comes_before(moves[j].usi, moves[o].usi));
                        crate::text::lemma_one_comes_first(moves[j].usi, moves[o].usi);
                        if moves[o].usi != moves[j].usi {
                            crate::text::lemma_comes_before_chain(
                                moves[o].usi,
                                moves[j].usi,
                                moves[b].usi,
                            );
                        }
                        assert(comes_before(moves[o].usi, moves[b].usi));
                    }
                }
            }
        }
    }
}

/// What came of a policy in one turn.
#[derive(Debug)]
pub struct SimOutcome {
    /// The move that was accepted.
    pub accepted: Option<String>,
    pub accepted_kind: Option<CheckMoveKind>,
    /// The fouls of the turn.
    pub fouls: u32,
    /// What was tried, in order.
    pub sequence: Vec<String>,
    /// Whether the fouls were used up.
    pub foul_limit: bool,
    /// How often the candidates were judged anew.
    pub updates: u32,
}

/// The mathematical content of a `SimOutcome`.
pub struct OutcomeModel {
    pub accepted: Option<Seq<char>>,
    pub accepted_kind: Option<CheckMoveKind>,
    pub fouls: int,
    pub sequence: Seq<Seq<char>>,
    pub foul_limit: bool,
    pub updates: int,
}

impl View for SimOutcome {
    type V = OutcomeModel;

    open spec fn view(&self) -> OutcomeModel {
        OutcomeModel {
            accepted: text_of(self.accepted),
            accepted_kind: self.accepted_kind,
            fouls: self.fouls as int,
            sequence: texts_of(self.sequence@),
            foul_limit: self.foul_limit,
            updates: self.updates as int,
        }
    }
}

/// A turn in which a policy is followed.
#[derive(Debug)]
pub struct Sim {
    /// The fouls before the turn.
    pub fouls_before: u32,
    pub fouls: u32,
    pub excluded: Vec<String>,
    pub sequence: Vec<String>,
    /// The fouls of the turn as moves.
    pub fouls_mv: Vec<ShogiMove>,
    /// Whether the candidates are judged anew after each foul.
    pub updating: bool,
    pub updates: u32,
}

/// The mathematical content of a `Sim`.
pub struct SimModel {
    pub fouls_before: u32,
    pub fouls: int,
    pub excluded: Set<Seq<char>>,
    pub sequence: Seq<Seq<char>>,
    pub fouls_mv: Seq<ShogiMove>,
    pub updating: bool,
    pub updates: int,
}

impl View for Sim {
    type V = SimModel;

    open spec fn view(&self) -> SimModel {
        SimModel {
            fouls_before: self.fouls_before,
            fouls: self.fouls as int,
            excluded: text_set(self.excluded@),
            sequence: texts_of(self.sequence@),
            fouls_mv: self.fouls_mv@,
            updating: self.updating,
            updates: self.updates as int,
        }
    }
}

/// Whether the fouls are used up.
pub open spec fn used_up(s: SimModel) -> bool {
    s.fouls_before + s.fouls >= MAX_FOULS
}

/// A turn after a move was taken that is no legal one.
pub open spec fn sim_fouled(s: SimModel, m: PolicyMoveModel) -> SimModel {
    SimModel {
        fouls: s.fouls + 1,
        excluded: s.excluded.insert(m.usi),
        sequence: s.sequence.push(m.usi),
        fouls_mv: s.fouls_mv.push(m.mv),
        updates: if s.updating {
            s.updates + 1
        } else {
            s.updates
        },
        ..s
    }
}

/// The turn without an accepted move.
pub open spec fn sim_over(s: SimModel) -> OutcomeModel {
    OutcomeModel {
        accepted: None,
        accepted_kind: None,
        fouls: s.fouls,
        sequence: s.sequence,
        foul_limit: used_up(s),
        updates: s.updates,
    }
}

/// The turn with an accepted move.
pub open spec fn sim_accepted(s: SimModel, m: PolicyMoveModel) -> OutcomeModel {
    OutcomeModel {
        accepted: Some(m.usi),
        accepted_kind: Some(m.kind),
        fouls: s.fouls,
        sequence: s.sequence.push(m.usi),
        foul_limit: false,
        updates: s.updates,
    }
}

/// A copy of a list of texts.
pub fn copy_texts(list: &Vec<String>) -> (res: Vec<String>)
    ensures
        texts_of(res@) == texts_of(list@),
{
    let mut out: Vec<String> = Vec::new();
    let mut i: usize = 0;
    while i < list.len()
        invariant
            i <= list@.len(),
            out@.len() == i,
            forall|k: int| 0 <= k < i ==> (#[trigger] out@[k])@ == list@[k]@,
        decreases list@.len() - i,
    {
        out.push(list[i].clone());
        i += 1;
    }
    assert(texts_of(out@) =~= texts_of(list@));
    out
}

impl Sim {
    /// A turn that begins.
    pub fn start(fouls_before: u32, updating: bool) -> (res: Sim)
        ensures
            res@ == (SimModel {
                fouls_before,
                fouls: 0,
                excluded: Set::empty(),
                sequence: Seq::empty(),
                fouls_mv: Seq::empty(),
                updating,
                updates: 0,
            }),
    {
        let res = Sim {
            fouls_before,
            fouls: 0,
            excluded: Vec::new(),
            sequence: Vec::new(),
            fouls_mv: Vec::new(),
            updating,
            updates: 0,
        };
        proof {
            lemma_no_texts(res.excluded@);
            assert(texts_of(res.sequence@) =~= Seq::<Seq<char>>::empty());
            assert(res.fouls_mv@ =~= Seq::<ShogiMove>::empty());
        }
        res
    }

    /// The end of the turn where the fouls are used up before a move is taken.
    pub fn limit(&self) -> (res: Option<SimOutcome>)
        ensures
            res is Some <==> used_up(self@),
            res matches Some(o) ==> o@ == sim_over(self@),
    {
        if self.fouls_before >= MAX_FOULS || self.fouls >= MAX_FOULS - self.fouls_before {
            Some(self.over())
        } else {
            None
        }
    }

    fn over(&self) -> (res: SimOutcome)
        ensures
            res@ == sim_over(self@),
    {
        SimOutcome {
            accepted: None,
            accepted_kind: None,
            fouls: self.fouls,
            sequence: copy_texts(&self.sequence),
            foul_limit: self.fouls_before >= MAX_FOULS || self.fouls >= MAX_FOULS
                - self.fouls_before,
            updates: self.updates,
        }
    }

    /// Judges the candidate that was taken. A legal one, or none at all, ends the turn; any other is
    /// a foul, and the turn goes on without it.
    pub fn judge(&mut self, taken: Option<&PolicyMove>) -> (res: Option<SimOutcome>)
        requires
            !used_up(old(self)@),
            old(self)@.updates <= old(self)@.fouls,
        ensures
            match taken {
                None => final(self)@ == old(self)@ && (res matches Some(o) && o@ == sim_over(
                    old(self)@,
                )),
                Some(m) => if m.truth_legal {
                    res matches Some(o) && o@ == sim_accepted(old(self)@, m@)
                } else {
                    res is None && final(self)@ == sim_fouled(old(self)@, m@)
                },
            },
    {
        let m = match taken {
            Some(m) => m,
            None => return Some(self.over()),
        };
        let ghost start = self.sequence@;
        self.sequence.push(m.usi.clone());
        assert(texts_of(self.sequence@) =~= texts_of(start).push(m.usi@));
        if m.truth_legal {
            return Some(
                SimOutcome {
                    accepted: Some(m.usi.clone()),
                    accepted_kind: Some(m.kind),
                    fouls: self.fouls,
                    sequence: copy_texts(&self.sequence),
                    foul_limit: false,
                    updates: self.updates,
                },
            );
        }
        insert_text(&mut self.excluded, m.usi.clone());
        self.fouls_mv.push(m.mv);
        self.fouls += 1;
        if self.updating {
            self.updates += 1;
        }
        None
    }
}

/// A whole turn under scores that depend on the number of fouls alone: in row `f` those after `f`
/// fouls.
pub open spec fn sim_from(
    rule: PickRule,
    moves: Seq<PolicyMoveModel>,
    rows: Seq<Seq<i64>>,
    present: Seq<Seq<i64>>,
    s: SimModel,
) -> OutcomeModel
    decreases MAX_FOULS - s.fouls_before - s.fouls,
{
    if used_up(s) {
        sim_over(s)
    } else {
        match picked(rule, moves, rows[s.fouls], present[s.fouls], s.excluded) {
            Some(i) => if moves[i].truth_legal {
                sim_accepted(s, moves[i])
            } else {
                sim_from(rule, moves, rows, present, sim_fouled(s, moves[i]))
            },
            None => sim_over(s),
        }
    }
}

/// The contents of rows of scores.
pub open spec fn key_rows(rows: Seq<Vec<i64>>) -> Seq<Seq<i64>> {
    rows.map_values(|r: Vec<i64>| r@)
}

/// Follows a policy through a turn, without judging the candidates anew: each move taken that is not
/// really legal is a foul, until one is legal or the fouls are used up.
pub fn simulate(
    rule: PickRule,
    moves: &Vec<PolicyMove>,
    rows: &Vec<Vec<i64>>,
    present: &Vec<Vec<i64>>,
    fouls_before: u32,
) -> (res: SimOutcome)
    requires
        rows@.len() >= MAX_FOULS,
        present@.len() >= MAX_FOULS,
        forall|f: int| 0 <= f < rows@.len() ==> (#[trigger] rows@[f])@.len() == moves@.len(),
        forall|f: int| 0 <= f < present@.len() ==> (#[trigger] present@[f])@.len() == moves@.len(),
    ensures
        res@ == sim_from(
            rule,
            policy_list(moves@),
            key_rows(rows@),
            key_rows(present@),
            SimModel {
                fouls_before,
                fouls: 0,
                excluded: Set::empty(),
                sequence: Seq::empty(),
                fouls_mv: Seq::empty(),
                updating: false,
                updates: 0,
            },
        ),
{
    let ghost all = policy_list(moves@);
    let ghost goal = sim_from(
        rule,
        all,
        key_rows(rows@),
        key_rows(present@),
        SimModel {
            fouls_before,
            fouls: 0,
            excluded: Set::empty(),
            sequence: Seq::empty(),
            fouls_mv: Seq::empty(),
            updating: false,
            updates: 0,
        },
    );
    let mut sim = Sim::start(fouls_before, false);
    loop
        invariant
            all == policy_list(moves@),
            rows@.len() >= MAX_FOULS,
            present@.len() >= MAX_FOULS,
            forall|f: int| 0 <= f < rows@.len() ==> (#[trigger] rows@[f])@.len() == moves@.len(),
            forall|f: int|
                0 <= f < present@.len() ==> (#[trigger] present@[f])@.len() == moves@.len(),
            sim@.fouls_before == fouls_before,
            sim@.updates == 0,
            !sim@.updating,
            sim@.fouls >= 0,
            goal == sim_from(rule, all, key_rows(rows@), key_rows(present@), sim@),
            goal == sim_from(
                rule,
                policy_list(moves@),
                key_rows(rows@),
                key_rows(present@),
                SimModel {
                    fouls_before,
                    fouls: 0,
                    excluded: Set::empty(),
                    sequence: Seq::empty(),
                    fouls_mv: Seq::empty(),
                    updating: false,
                    updates: 0,
                },
            ),
        decreases u32::MAX - sim.fouls,
    {
        if let Some(end) = sim.limit() {
            return end;
        }
        let f: usize = sim.fouls as usize;
        assert(key_rows(rows@)[f as int] == rows@[f as int]@);
        assert(key_rows(present@)[f as int] == present@[f as int]@);
        let taken = match pick(rule, moves, &rows[f], &present[f], &sim.excluded) {
            Some(i) => {
                assert(all[i as int] == moves@[i as int]@);
                Some(&moves[i])
            },
            None => None,
        };
        if let Some(end) = sim.judge(taken) {
            return end;
        }
    }
}

/// A turn never holds more fouls than were left, nothing is tried twice, and what is accepted is
/// really legal.
pub proof fn law_turn_is_bounded(
    rule: PickRule,
    moves: Seq<PolicyMoveModel>,
    rows: Seq<Seq<i64>>,
    present: Seq<Seq<i64>>,
    s: SimModel,
)
    requires
        s.fouls_before + s.fouls <= MAX_FOULS,
        0 <= s.fouls,
        s.fouls == s.sequence.len(),
        rows.len() >= MAX_FOULS,
        present.len() >= MAX_FOULS,
        forall|f: int| 0 <= f < rows.len() ==> (#[trigger] rows[f]).len() == moves.len(),
        forall|f: int| 0 <= f < present.len() ==> (#[trigger] present[f]).len() == moves.len(),
        s.sequence.no_duplicates(),
        forall|t: Seq<char>| s.sequence.contains(t) <==> s.excluded.contains(t),
    ensures
        ({
            let o = sim_from(rule, moves, rows, present, s);
            &&& s.fouls_before + o.fouls <= MAX_FOULS
            &&& o.sequence.no_duplicates()
            &&& o.foul_limit ==> s.fouls_before + o.fouls == MAX_FOULS
            &&& o.accepted matches Some(usi) ==> o.sequence.last() == usi && exists|i: int|
                0 <= i < moves.len() && (#[trigger] moves[i]).usi == usi && moves[i].truth_legal
        }),
    decreases MAX_FOULS - s.fouls_before - s.fouls,
{
    if !used_up(s) {
        let n = moves.len() as int;
        assert(rows[s.fouls].len() == moves.len());
        assert(present[s.fouls].len() == moves.len());
        law_pick_is_best(moves, rows[s.fouls], s.excluded, false, n);
        law_pick_is_best(moves, present[s.fouls], s.excluded, false, n);
        law_pick_is_best(moves, rows[s.fouls], s.excluded, true, n);
        if let Some(i) = picked(rule, moves, rows[s.fouls], present[s.fouls], s.excluded) {
            assert(0 <= i < n && !s.excluded.contains(moves[i].usi));
            let more = s.sequence.push(moves[i].usi);
            assert(!s.sequence.contains(moves[i].usi));
            assert(more.no_duplicates()) by {
                assert forall|a: int, b: int|
                    0 <= a < more.len() && 0 <= b < more.len() && a != b implies more[a]
                    != more[b] by {
                    if a == s.sequence.len() {
                        assert(s.sequence.contains(s.sequence[b]));
                    } else if b == s.sequence.len() {
                        assert(s.sequence.contains(s.sequence[a]));
                    }
                }
            }
            if !moves[i].truth_legal {
                let t = sim_fouled(s, moves[i]);
                assert forall|x: Seq<char>| t.sequence.contains(x) <==> t.excluded.contains(x) by {
                    if s.sequence.contains(x) {
                        let k = choose|k: int| 0 <= k < s.sequence.len() && s.sequence[k] == x;
                        assert(more[k] == x);
                    }
                    assert(more[s.sequence.len() as int] == moves[i].usi);
                    if more.contains(x) && x != moves[i].usi {
                        let k = choose|k: int| 0 <= k < more.len() && more[k] == x;
                        assert(s.sequence[k] == x);
                    }
                }
                law_turn_is_bounded(rule, moves, rows, present, t);
            }
        }
    }
}

/// How many fouls are left before the game is lost.
pub open spec fn fouls_left(you: u32) -> int {
    if you >= MAX_FOULS {
        0
    } else {
        MAX_FOULS - you
    }
}

/// How many fouls are left.
pub fn remaining_fouls(you: u32) -> (res: u32)
    ensures
        res == fouls_left(you),
{
    if you >= MAX_FOULS {
        0
    } else {
        MAX_FOULS - you
    }
}

/// The captures in a log.
pub open spec fn captures_in(events: Seq<Event>) -> nat {
    events.filter(|e: Event| e matches Event::MyMove { move_number, usi, captured } && captured
        is Some).len()
}

/// How many pieces are left of twenty after some captures, but at least one.
pub open spec fn left_of_twenty(captures: nat) -> int {
    if captures >= 19 {
        1
    } else {
        20 - captures
    }
}

/// How many pieces the opponent is taken to have on the board: twenty less the own captures, but at
/// least one.
pub fn opp_board_count(log: &ObservationLog) -> (res: u32)
    ensures
        res == left_of_twenty(captures_in(log@)),
{
    let events = log.events();
    let ghost took = |e: Event| e matches Event::MyMove { move_number, usi, captured } && captured
        is Some;
    let mut n: usize = 0;
    let mut i: usize = 0;
    proof {
        log@.take(0).lemma_filter_len(took);
    }
    while i < events.len()
        invariant
            i <= events@.len(),
            n <= i,
            log@ == crate::observation::events_of(events@),
            took == (|e: Event| e matches Event::MyMove { move_number, usi, captured } && captured
                is Some),
            n == log@.take(i as int).filter(took).len(),
        decreases events@.len() - i,
    {
        proof {
            assert(log@[i as int] == events@[i as int]@);
            assert(log@.take(i + 1) =~= log@.take(i as int).push(log@[i as int]));
            log@.take(i as int).lemma_filter_push(log@[i as int], took);
        }
        match &events[i] {
            Observation::MyMove { move_number: _, usi: _, captured: Some(_) } => {
                n += 1;
            },
            _ => {},
        }
        i += 1;
    }
    assert(log@.take(i as int) =~= log@);
    if n >= 19 {
        1
    } else {
        20 - n as u32
    }
}

/// Whether a position is one in which none of some moves is legal: fouls have shown that they are
/// not.
pub open spec fn consistent_with(pos: PositionModel, fouls: Seq<ShogiMove>) -> bool {
    forall|i: int| 0 <= i < fouls.len() ==> !legal(pos, #[trigger] fouls[i])
}

/// The places of the sampled positions that the fouls of a turn leave possible.
pub fn keep_consistent(pool: &Vec<Position>, fouls: &Vec<ShogiMove>) -> (res: Vec<usize>)
    ensures
        res@.map_values(|i: usize| i as int) == Seq::new(pool@.len(), |i: int| i).filter(
            |i: int| consistent_with(pool@[i]@, fouls@),
        ),
{
    let ghost all = Seq::new(pool@.len(), |i: int| i);
    let ghost good = |i: int| consistent_with(pool@[i]@, fouls@);
    let ghost wide = |i: usize| i as int;
    let mut out: Vec<usize> = Vec::new();
    let mut i: usize = 0;
    assert(all.take(0).filter(good) =~= Seq::<int>::empty()) by {
        reveal(Seq::filter);
    }
    assert(out@.map_values(wide) =~= Seq::<int>::empty());
    while i < pool.len()
        invariant
            i <= pool@.len(),
            all == Seq::new(pool@.len(), |i: int| i),
            good == (|i: int| consistent_with(pool@[i]@, fouls@)),
            wide == (|i: usize| i as int),
            out@.map_values(wide) == all.take(i as int).filter(good),
        decreases pool@.len() - i,
    {
        let ghost before_ = out@;
        proof {
            assert(all.take(i + 1) =~= all.take(i as int).push(i as int));
            all.take(i as int).lemma_filter_push(i as int, good);
        }
        let mut fits = true;
        let mut j: usize = 0;
        while j < fouls.len() && fits
            invariant
                i < pool@.len(),
                j <= fouls@.len(),
                fits ==> forall|k: int| 0 <= k < j ==> !legal(pool@[i as int]@, #[trigger] fouls@[k]),
                !fits ==> !consistent_with(pool@[i as int]@, fouls@),
            decreases fouls@.len() - j,
        {
            if pool[i].is_legal(&fouls[j]) {
                assert(legal(pool@[i as int]@, fouls@[j as int]));
                fits = false;
            }
            j += 1;
        }
        if fits {
            out.push(i);
            assert(out@.map_values(wide) =~= before_.map_values(wide).push(i as int));
        }
        i += 1;
    }
    assert(all.take(i as int) =~= all);
    out
}

/// Which of two pools of sampled positions are used after fouls.
#[derive(Clone, Copy, Debug, PartialEq, Eq)]
pub struct Pools {
    /// Whether the legality of the candidates is taken from the tainted pool.
    pub use_taint: bool,
    /// Whether the hypotheses of the check are weighed by the tainted pool.
    pub votes_from_taint: bool,
}

/// Chooses between the strict and the tainted pool: the tainted one stands in where no strict
/// position is left, for the candidates only if that is wanted.
pub fn pools_after(strict_left: usize, taint_left: usize, fallback: bool) -> (res: Pools)
    ensures
        res.use_taint == (strict_left == 0 && taint_left > 0 && fallback),
        res.votes_from_taint == (strict_left == 0),
{
    Pools {
        use_taint: strict_left == 0 && taint_left > 0 && fallback,
        votes_from_taint: strict_left == 0,
    }
}

/// How things stand after a move, by the truth.
#[derive(Clone, Copy, Debug, PartialEq, Eq)]
pub struct TruthAfter {
    /// Whether the opponent has a mate in one.
    pub mated_in_1: bool,
    /// Whether the opponent can give check.
    pub next_check: bool,
    /// Whether the move was accepted at all.
    pub accepted: bool,
}

/// Whether a move mates.
pub open spec fn mates(pos: PositionModel, mv: ShogiMove) -> bool {
    legal(pos, mv) && outcome_of(after_move(pos, mv)) matches Some(Outcome::Checkmate { winner })
}

/// Whether the side to move has a mate in one.
pub open spec fn has_mate(pos: PositionModel) -> bool {
    exists|mv: ShogiMove| #[trigger] mates(pos, mv)
}

/// Whether a move leaves a side in check.
pub open spec fn checks_side(pos: PositionModel, bot: Color, mv: ShogiMove) -> bool {
    legal(pos, mv) && checked(after_move(pos, mv), bot)
}

/// Whether the side to move can give check.
pub open spec fn can_check(pos: PositionModel, bot: Color) -> bool {
    exists|mv: ShogiMove| #[trigger] checks_side(pos, bot, mv)
}

fn played(pos: &Position, mv: &ShogiMove) -> (res: Position)
    requires
        legal(pos@, *mv),
    ensures
        res@ == after_move(pos@, *mv),
{
    proof {
        lemma_legal_is_playable(pos@, *mv);
    }
    let mut next = *pos;
    let _taken = next.play_unchecked(mv);
    next
}

/// The moves that mate at once.
pub fn mate_moves_in_1(pos: &Position) -> (res: Vec<ShogiMove>)
    ensures
        res@ == legal_list(pos@).filter(|mv: ShogiMove| mates(pos@, mv)),
{
    let moves = pos.legal_moves();
    let ghost good = |mv: ShogiMove| mates(pos@, mv);
    let mut out: Vec<ShogiMove> = Vec::new();
    let mut i: usize = 0;
    assert(moves@.take(0).filter(good) =~= Seq::<ShogiMove>::empty()) by {
        reveal(Seq::filter);
    }
    while i < moves.len()
        invariant
            i <= moves@.len(),
            moves@ == legal_list(pos@),
            good == (|mv: ShogiMove| mates(pos@, mv)),
            out@ == moves@.take(i as int).filter(good),
        decreases moves@.len() - i,
    {
        let mv = moves[i];
        proof {
            law_legal_moves(pos@, mv);
            assert(legal_list(pos@).contains(mv));
            assert(moves@.take(i + 1) =~= moves@.take(i as int).push(mv));
            moves@.take(i as int).lemma_filter_push(mv, good);
        }
        let next = played(pos, &mv);
        if let Some(Outcome::Checkmate { winner: _ }) = next.outcome() {
            out.push(mv);
        }
        i += 1;
    }
    assert(moves@.take(i as int) =~= moves@);
    out
}

fn gives_check(pos: &Position, bot: Color) -> (res: bool)
    ensures
        res == can_check(pos@, bot),
{
    let moves = pos.legal_moves();
    let mut i: usize = 0;
    while i < moves.len()
        invariant
            i <= moves@.len(),
            moves@ == legal_list(pos@),
            forall|k: int| 0 <= k < i ==> !checks_side(pos@, bot, #[trigger] moves@[k]),
        decreases moves@.len() - i,
    {
        let mv = moves[i];
        proof {
            law_legal_moves(pos@, mv);
            assert(legal_list(pos@).contains(mv));
        }
        if played(pos, &mv).in_check(bot) {
            assert(checks_side(pos@, bot, mv));
            return true;
        }
        i += 1;
    }
    assert forall|mv: ShogiMove| !checks_side(pos@, bot, mv) by {
        if checks_side(pos@, bot, mv) {
            law_legal_moves(pos@, mv);
            let k = choose|k: int| 0 <= k < moves@.len() && moves@[k] == mv;
            assert(!checks_side(pos@, bot, moves@[k]));
        }
    }
    false
}

/// How things stand after a text was played as a move: nothing is known of one that is not accepted.
pub open spec fn standing(truth: PositionModel, bot: Color, usi: Option<Seq<char>>) -> TruthAfter {
    let mv = match usi {
        Some(t) => move_of_text(t),
        None => None,
    };
    if mv is Some && legal(truth, mv->0) {
        let next = after_move(truth, mv->0);
        TruthAfter { mated_in_1: has_mate(next), next_check: can_check(next, bot), accepted: true }
    } else {
        TruthAfter { mated_in_1: false, next_check: false, accepted: false }
    }
}

/// Looks at how things stand after a text was played as a move.
pub fn truth_after(truth: &Position, bot: Color, usi: &Option<String>) -> (res: TruthAfter)
    ensures
        res == standing(truth@, bot, text_of(*usi)),
{
    let none = TruthAfter { mated_in_1: false, next_check: false, accepted: false };
    let mv = match usi {
        Some(t) => match parse_usi(t.as_str()) {
            Some(mv) => mv,
            None => return none,
        },
        None => return none,
    };
    if !truth.is_legal(&mv) {
        return none;
    }
    let next = played(truth, &mv);
    let mating = mate_moves_in_1(&next);
    proof {
        let good = |m: ShogiMove| mates(next@, m);
        let all = legal_list(next@);
        if mating@.len() > 0 {
            all.lemma_filter_pred(good, 0);
            assert(mates(next@, mating@[0]));
        }
        if has_mate(next@) {
            let m = choose|m: ShogiMove| #[trigger] mates(next@, m);
            law_legal_moves(next@, m);
            crate::lists::lemma_filter_contains_iff(all, good, m);
            assert(all.filter(good).contains(m));
        }
    }
    TruthAfter { mated_in_1: mating.len() > 0, next_check: gives_check(&next, bot), accepted: true }
}

/// How many pieces of a role a side has, on the board and in hand.
pub open spec fn holdings(pos: PositionModel, color: Color, role: Role) -> nat {
    piece_list(pos).filter(|x: (Coord, Piece)| x.1 == (Piece { color, role })).len() + (match slot_of(
        role,
    ) {
        Some(i) => pos.hand(color)[i] as nat,
        None => 0nat,
    })
}

fn count_holdings(pos: &Position, color: Color, role: Role) -> (res: i64)
    ensures
        res == holdings(pos@, color, role),
        0 <= res <= 400,
{
    let pieces = pos.pieces();
    let ghost same = |x: (Coord, Piece)| x.1 == (Piece { color, role });
    let is_same = |x: &(Coord, Piece)| -> (b: bool)
        ensures
            b == (x.1 == (Piece { color, role })),
    { x.1.color == color && x.1.role == role };
    let n: usize = count_if(&pieces, is_same, Ghost(same));
    proof {
        crate::board::all_squares().lemma_filter_len(|c: Coord| pos@.at(c) is Some);
    }
    let held: u8 = match hand_slot(role) {
        Some(_) => pos.hand_count(color, role),
        None => 0,
    };
    n as i64 + held as i64
}

/// How many more pieces of a role a side has than the other.
pub open spec fn balance(pos: PositionModel, me: Color, role: Role) -> int {
    holdings(pos, me, role) - holdings(pos, other_color(me), role)
}

/// How many more pieces of a role a side has than the other, on the board and in hand. Weighing the
/// roles makes the material difference of it.
pub fn material_diff(pos: &Position, me: Color, role: Role) -> (res: i64)
    ensures
        res == balance(pos@, me, role),
{
    count_holdings(pos, me, role) - count_holdings(pos, me.other(), role)
}

/// What one side has more, the other has less.
pub proof fn law_material_is_symmetric(pos: PositionModel, me: Color, role: Role)
    ensures
        balance(pos, me, role) == -balance(pos, other_color(me), role),
{
}

/// The candidates of a kind and how many of them are really legal.
#[derive(Clone, Copy, Debug, PartialEq, Eq)]
pub struct KindCount {
    pub legal: usize,
    pub total: usize,
}

/// Counts the candidates of a kind. All candidates count, not only those that were chosen.
pub fn count_kind(moves: &Vec<PolicyMove>, kind: CheckMoveKind) -> (res: KindCount)
    ensures
        res.total == moves@.filter(|m: PolicyMove| m.kind == kind).len(),
        res.legal == moves@.filter(|m: PolicyMove| m.kind == kind && m.truth_legal).len(),
{
    let ghost all_p = |m: PolicyMove| m.kind == kind;
    let ghost legal_p = |m: PolicyMove| m.kind == kind && m.truth_legal;
    let is_kind = |m: &PolicyMove| -> (b: bool)
        ensures
            b == (m.kind == kind),
    { m.kind == kind };
    let is_legal = |m: &PolicyMove| -> (b: bool)
        ensures
            b == (m.kind == kind && m.truth_legal),
    { m.kind == kind && m.truth_legal };
    let total: usize = count_if(moves, is_kind, Ghost(all_p));
    let legal: usize = count_if(moves, is_legal, Ghost(legal_p));
    KindCount { legal, total }
}

/// What a turn in check is decided by. The numbers are numerals in plain form: what a number does to
/// the scores is not the library's business.
#[derive(Debug)]
pub enum Policy {
    /// The present scores.
    Current,
    /// The price of a foul times `k`.
    Alpha { k: String },
    /// The price of a foul times `k`, less what the foul would teach, times `lambda`.
    Beta { k: String, lambda: String },
    /// The present scores, but the moves that are not the king's ordered by what a foul would teach.
    BetaOrder { lambda: String },
    /// The chance to get out of check alone.
    SolverGreedy,
}

/// The mathematical content of a `Policy`.
pub enum PolicyModel {
    Current,
    Alpha { k: Seq<char> },
    Beta { k: Seq<char>, lambda: Seq<char> },
    BetaOrder { lambda: Seq<char> },
    SolverGreedy,
}

impl View for Policy {
    type V = PolicyModel;

    open spec fn view(&self) -> PolicyModel {
        match self {
            Policy::Current => PolicyModel::Current,
            Policy::Alpha { k } => PolicyModel::Alpha { k: k@ },
            Policy::Beta { k, lambda } => PolicyModel::Beta { k: k@, lambda: lambda@ },
            Policy::BetaOrder { lambda } => PolicyModel::BetaOrder { lambda: lambda@ },
            Policy::SolverGreedy => PolicyModel::SolverGreedy,
        }
    }
}

impl PolicyModel {
    /// Whether the numbers are numerals of finite numbers.
    pub open spec fn wf(self) -> bool {
        match self {
            PolicyModel::Alpha { k } => is_finite(k),
            PolicyModel::Beta { k, lambda } => is_finite(k) && is_finite(lambda),
            PolicyModel::BetaOrder { lambda } => is_finite(lambda),
            _ => true,
        }
    }

    /// The policy with its numbers as they stand in its name.
    pub open spec fn as_named(self) -> PolicyModel {
        match self {
            PolicyModel::Alpha { k } => PolicyModel::Alpha { k: kept(named(k)) },
            PolicyModel::Beta { k, lambda } => PolicyModel::Beta {
                k: kept(named(k)),
                lambda: kept(named(lambda)),
            },
            PolicyModel::BetaOrder { lambda } => PolicyModel::BetaOrder {
                lambda: kept(named(lambda)),
            },
            _ => self,
        }
    }
}

/// The name of a policy.
pub open spec fn policy_tag(p: PolicyModel) -> Seq<char> {
    match p {
        PolicyModel::Current => "current"@,
        PolicyModel::Alpha { k } => "alpha@k"@ + named(k),
        PolicyModel::Beta { k, lambda } => "beta@k"@ + named(k) + "l"@ + named(lambda),
        PolicyModel::BetaOrder { lambda } => "beta_order@l"@ + named(lambda),
        PolicyModel::SolverGreedy => "solver_greedy"@,
    }
}

/// The policy that a name stands for.
pub open spec fn policy_of(tag: Seq<char>) -> Option<PolicyModel> {
    if tag == "current"@ {
        Some(PolicyModel::Current)
    } else if tag == "solver_greedy"@ {
        Some(PolicyModel::SolverGreedy)
    } else if begins(tag, "alpha@k"@) {
        let k = tag.skip("alpha@k"@.len() as int);
        if is_finite(k) {
            Some(PolicyModel::Alpha { k: kept(k) })
        } else {
            None
        }
    } else if begins(tag, "beta_order@l"@) {
        let lambda = tag.skip("beta_order@l"@.len() as int);
        if is_finite(lambda) {
            Some(PolicyModel::BetaOrder { lambda: kept(lambda) })
        } else {
            None
        }
    } else if begins(tag, "beta@k"@) {
        let rest = tag.skip("beta@k"@.len() as int);
        match place_of_char(rest, 'l', 0) {
            Some(i) => if is_finite(rest.take(i)) && is_finite(rest.skip(i + 1)) {
                Some(PolicyModel::Beta { k: kept(rest.take(i)), lambda: kept(rest.skip(i + 1)) })
            } else {
                None
            },
            None => None,
        }
    } else {
        None
    }
}

/// A number as it stands in a name: as a whole number where it is one up to a billionth, else with its
/// digits.
pub fn fmt_num(v: &str) -> (res: String)
    requires
        is_finite(v@),
    ensures
        res@ == named(v@),
{
    name_of(v)
}

impl Policy {
    /// The name of the policy.
    pub fn tag(&self) -> (res: String)
        requires
            self@.wf(),
        ensures
            res@ == policy_tag(self@),
    {
        match self {
            Policy::Current => "current".to_owned(),
            Policy::Alpha { k } => {
                let mut out = "alpha@k".to_owned();
                out.append(fmt_num(k.as_str()).as_str());
                out
            },
            Policy::Beta { k, lambda } => {
                let mut out = "beta@k".to_owned();
                out.append(fmt_num(k.as_str()).as_str());
                out.append("l");
                out.append(fmt_num(lambda.as_str()).as_str());
                out
            },
            Policy::BetaOrder { lambda } => {
                let mut out = "beta_order@l".to_owned();
                out.append(fmt_num(lambda.as_str()).as_str());
                out
            },
            Policy::SolverGreedy => "solver_greedy".to_owned(),
        }
    }

    /// Whether the policy asks what a foul would teach.
    pub fn needs_delta_v(&self) -> (res: bool)
        ensures
            res == (self@ is Beta || self@ is BetaOrder),
    {
        match self {
            Policy::Beta { k: _, lambda: _ } | Policy::BetaOrder { lambda: _ } => true,
            _ => false,
        }
    }

    /// How the policy uses the scores.
    pub fn rule(&self) -> (res: PickRule)
        ensures
            res == (if self@ is BetaOrder {
                PickRule::ReorderProbes
            } else {
                PickRule::Best
            }),
    {
        match self {
            Policy::BetaOrder { lambda: _ } => PickRule::ReorderProbes,
            _ => PickRule::Best,
        }
    }

    /// The policy that a name stands for. Numbers that are not finite are refused; the others are kept
    /// in plain form.
    pub fn parse(tag: &str) -> (res: Option<Policy>)
        ensures
            match res {
                Some(p) => policy_of(tag@) == Some(p@),
                None => policy_of(tag@) is None,
            },
    {
        if same_text(tag, "current") {
            return Some(Policy::Current);
        }
        if same_text(tag, "solver_greedy") {
            return Some(Policy::SolverGreedy);
        }
        if let Some(k) = behind(tag, "alpha@k") {
            return match keep(k) {
                Some(k) => Some(Policy::Alpha { k }),
                None => None,
            };
        }
        if let Some(lambda) = behind(tag, "beta_order@l") {
            return match keep(lambda) {
                Some(lambda) => Some(Policy::BetaOrder { lambda }),
                None => None,
            };
        }
        if let Some(rest) = behind(tag, "beta@k") {
            let i: usize = match find_char(rest, 'l') {
                Some(i) => i,
                None => return None,
            };
            let n: usize = rest.unicode_len();
            let k = rest.substring_char(0, i);
            let lambda = rest.substring_char(i + 1, n);
            assert(k@ =~= rest@.take(i as int));
            assert(lambda@ =~= rest@.skip(i + 1));
            return match (keep(k), keep(lambda)) {
                (Some(k), Some(lambda)) => Some(Policy::Beta { k, lambda }),
                _ => None,
            };
        }
        None
    }
}

/// A policy is read back from its name, with its numbers as they are read from there: it has that name
/// again, and where the numbers are those that the name tells, it is the same policy.
pub proof fn law_policy_name_round_trip(p: PolicyModel)
    requires
        p.wf(),
    ensures
        policy_of(policy_tag(p)) == Some(p.as_named()),
        policy_tag(p.as_named()) == policy_tag(p),
        p.as_named().wf(),
{
    match p {
        PolicyModel::Alpha { k } => {
            lemma_alpha_back(k);
        },
        PolicyModel::Beta { k, lambda } => {
            lemma_beta_back(k, lambda);
        },
        PolicyModel::BetaOrder { lambda } => {
            lemma_beta_order_back(lambda);
        },
        _ => {
            reveal_strlit("current");
            reveal_strlit("solver_greedy");
            assert("current"@[0] == 'c');
            assert("solver_greedy"@[0] == 's');
        },
    }
}

proof fn lemma_alpha_back(k: Seq<char>)
    requires
        is_finite(k),
    ensures
        policy_of("alpha@k"@ + named(k)) == Some(PolicyModel::Alpha { k: kept(named(k)) }),
        named(kept(named(k))) == named(k),
        is_finite(kept(named(k))),
{
    law_named_numeral_stays(k);
    lemma_alpha_name(named(k));
}

proof fn lemma_beta_back(k: Seq<char>, lambda: Seq<char>)
    requires
        is_finite(k),
        is_finite(lambda),
    ensures
        policy_of("beta@k"@ + named(k) + "l"@ + named(lambda)) == Some(
            PolicyModel::Beta { k: kept(named(k)), lambda: kept(named(lambda)) },
        ),
        named(kept(named(k))) == named(k),
        named(kept(named(lambda))) == named(lambda),
        is_finite(kept(named(k))),
        is_finite(kept(named(lambda))),
{
    law_named_numeral_stays(k);
    law_named_numeral_stays(lambda);
    let a = named(k);
    assert forall|j: int| 0 <= j < a.len() implies #[trigger] a[j] != 'l' by {
        lemma_numeral_chars(a, j);
    }
    lemma_beta_name(a, named(lambda));
}

proof fn lemma_beta_order_back(lambda: Seq<char>)
    requires
        is_finite(lambda),
    ensures
        policy_of("beta_order@l"@ + named(lambda)) == Some(
            PolicyModel::BetaOrder { lambda: kept(named(lambda)) },
        ),
        named(kept(named(lambda))) == named(lambda),
        is_finite(kept(named(lambda))),
{
    law_named_numeral_stays(lambda);
    lemma_beta_order_name(named(lambda));
}

/// The texts that a name is taken apart into.
proof fn lemma_alpha_name(k: Seq<char>)
    ensures
        ({
            let t = "alpha@k"@ + k;
            &&& t != "current"@ && t != "solver_greedy"@
            &&& begins(t, "alpha@k"@)
            &&& t.skip("alpha@k"@.len() as int) == k
        }),
{
    reveal_strlit("current");
    reveal_strlit("solver_greedy");
    reveal_strlit("alpha@k");
    let t = "alpha@k"@ + k;
    assert(t[0] == 'a');
    assert(t.take(7) =~= "alpha@k"@);
    assert(t.skip(7) =~= k);
}

proof fn lemma_beta_order_name(lambda: Seq<char>)
    ensures
        ({
            let t = "beta_order@l"@ + lambda;
            &&& t != "current"@ && t != "solver_greedy"@
            &&& !begins(t, "alpha@k"@)
            &&& begins(t, "beta_order@l"@)
            &&& t.skip("beta_order@l"@.len() as int) == lambda
        }),
{
    reveal_strlit("current");
    reveal_strlit("solver_greedy");
    reveal_strlit("alpha@k");
    reveal_strlit("beta_order@l");
    let t = "beta_order@l"@ + lambda;
    assert(t[0] == 'b');
    if begins(t, "alpha@k"@) {
        assert(t.take(7)[0] == t[0]);
    }
    assert(t.take(12) =~= "beta_order@l"@);
    assert(t.skip(12) =~= lambda);
}

proof fn lemma_beta_name(k: Seq<char>, lambda: Seq<char>)
    requires
        forall|j: int| 0 <= j < k.len() ==> #[trigger] k[j] != 'l',
    ensures
        ({
            let t = "beta@k"@ + k + "l"@ + lambda;
            let rest = t.skip("beta@k"@.len() as int);
            &&& t != "current"@ && t != "solver_greedy"@
            &&& !begins(t, "alpha@k"@)
            &&& !begins(t, "beta_order@l"@)
            &&& begins(t, "beta@k"@)
            &&& place_of_char(rest, 'l', 0) == Some(k.len() as int)
            &&& rest.take(k.len() as int) == k
            &&& rest.skip(k.len() as int + 1) == lambda
        }),
{
    reveal_strlit("current");
    reveal_strlit("solver_greedy");
    reveal_strlit("alpha@k");
    reveal_strlit("beta_order@l");
    reveal_strlit("beta@k");
    reveal_strlit("l");
    let t = "beta@k"@ + k + "l"@ + lambda;
    assert(t[0] == 'b' && t[4] == '@');
    assert("beta_order@l"@[4] == '_');
    if begins(t, "beta_order@l"@) {
        assert(t.take(12)[4] == t[4]);
    }
    if begins(t, "alpha@k"@) {
        assert(t.take(7)[0] == t[0]);
    }
    assert(t.take(6) =~= "beta@k"@);
    let rest = t.skip(6);
    assert(rest =~= k + "l"@ + lambda);
    assert forall|j: int| 0 <= j < k.len() implies rest[j] != 'l' by {
        assert(rest[j] == k[j]);
    }
    assert(rest[k.len() as int] == 'l');
    lemma_place_of_char(rest, 'l', 0, k.len() as int);
    assert(rest.take(k.len() as int) =~= k);
    assert(rest.skip(k.len() as int + 1) =~= lambda);
}

/// What is read from a name can be named, and the numbers are already in plain form.
pub proof fn law_read_policy_can_be_named(tag: Seq<char>)
    requires
        policy_of(tag) is Some,
    ensures
        policy_of(tag)->0.wf(),
        match policy_of(tag)->0 {
            PolicyModel::Alpha { k } => kept(k) == k,
            PolicyModel::Beta { k, lambda } => kept(k) == k && kept(lambda) == lambda,
            PolicyModel::BetaOrder { lambda } => kept(lambda) == lambda,
            _ => true,
        },
{
    if begins(tag, "alpha@k"@) {
        let k = tag.skip("alpha@k"@.len() as int);
        if is_finite(k) {
            law_kept_numeral_stays(k);
        }
    }
    if begins(tag, "beta_order@l"@) {
        let lambda = tag.skip("beta_order@l"@.len() as int);
        if is_finite(lambda) {
            law_kept_numeral_stays(lambda);
        }
    }
    if begins(tag, "beta@k"@) {
        let rest = tag.skip("beta@k"@.len() as int);
        match place_of_char(rest, 'l', 0) {
            Some(i) => {
                if is_finite(rest.take(i)) && is_finite(rest.skip(i + 1)) {
                    law_kept_numeral_stays(rest.take(i));
                    law_kept_numeral_stays(rest.skip(i + 1));
                }
            },
            None => {},
        }
    }
}

} // verus!
