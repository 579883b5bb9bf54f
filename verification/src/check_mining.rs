//! Turns in check of finished games that are worth a second look: those with many fouls, and those
//! in which the king fled though another piece could have taken the checker.

use crate::board::Coord;
use crate::check_economy::{checker_list, is_true_checker, lemma_checker_list, true_checkers};
use crate::check_policy::copy_texts;
use crate::config::texts_of;
use crate::protocol::{other_color, slot_of, unpromoted, Color, FoulRecord, GameEndPayload, Role};
use crate::replay::{
    decision_list, game_run, lemma_legal_is_playable, replay_game, Decision, DecisionModel,
};
use crate::shogi::{
    after_move, attacked_by, checked, king_of, law_legal_moves, legal, legal_list, move_of_text,
    parse_usi, text_of_move, Position, PositionModel, ShogiMove,
};
use crate::text::{append_decimal, decimal};
use vstd::prelude::*;
use vstd::string::*;

verus! {

/// Why a turn is worth a look.
#[derive(Clone, Copy, Debug, PartialEq, Eq, Structural)]
pub enum HitKind {
    /// It held many fouls.
    Foul,
    /// The king fled though another piece could have taken the checker.
    Flee,
}

impl HitKind {
    /// The name of the reason.
    pub fn label(self) -> (res: &'static str)
        ensures
            res@ == (match self {
                HitKind::Foul => "foul"@,
                HitKind::Flee => "flee"@,
            }),
    {
        match self {
            HitKind::Foul => "foul",
            HitKind::Flee => "flee",
        }
    }
}

/// The capture that was passed over.
#[derive(Clone, Copy, Debug, PartialEq, Eq, Structural)]
pub struct Missed {
    /// The checker.
    pub checker: Role,
    /// The piece that could have taken it.
    pub capturer: Role,
    /// Whether it could have been taken back.
    pub recaptured: bool,
}

/// A turn that is worth a look.
#[derive(Debug)]
pub struct Hit {
    pub kind: HitKind,
    /// How many moves had been made.
    pub ply: u32,
    pub side: Color,
    pub checkers: Vec<(Coord, Role)>,
    pub fouls: Vec<String>,
    /// The move that was accepted.
    pub actual: String,
    /// The move that is asked for.
    pub target: String,
    /// How many moves were legal.
    pub k: usize,
    pub missed: Option<Missed>,
}

/// The mathematical content of a `Hit`.
pub struct HitModel {
    pub kind: HitKind,
    pub ply: u32,
    pub side: Color,
    pub checkers: Seq<(Coord, Role)>,
    pub fouls: Seq<Seq<char>>,
    pub actual: Seq<char>,
    pub target: Seq<char>,
    pub k: int,
    pub missed: Option<Missed>,
}

impl View for Hit {
    type V = HitModel;

    open spec fn view(&self) -> HitModel {
        HitModel {
            kind: self.kind,
            ply: self.ply,
            side: self.side,
            checkers: self.checkers@,
            fouls: texts_of(self.fouls@),
            actual: self.actual@,
            target: self.target@,
            k: self.k as int,
            missed: self.missed,
        }
    }
}

/// The contents of a list of hits.
pub open spec fn hit_list(hits: Seq<Hit>) -> Seq<HitModel> {
    hits.map_values(|h: Hit| h@)
}

/// The fouls of a side at a move, as they stand in the record.
pub open spec fn fouls_at(records: Seq<FoulRecord>, side: Color, number: u32) -> Seq<Seq<char>> {
    records.filter(|f: FoulRecord| f.by_color == side && f.move_number == number).map_values(
        |f: FoulRecord| f.usi@,
    )
}

/// What a piece is worth, by a table of the roles that can be held, with the king's worth last.
pub open spec fn worth_of(worth: Seq<i64>, role: Role) -> i64 {
    match slot_of(unpromoted(role)) {
        Some(i) => worth[i],
        None => worth[7],
    }
}

/// Whether a move takes on a square, and not from the king's.
pub open spec fn takes_on(mv: ShogiMove, to: Coord, king: Coord) -> bool {
    mv matches ShogiMove::Board { from, to: target, promote } && target == to && from != king
}

/// The role of the piece that a move moves.
pub open spec fn mover(pos: PositionModel, mv: ShogiMove) -> Role {
    match mv {
        ShogiMove::Board { from, to, promote } => pos.at(from)->0.role,
        ShogiMove::Drop { role, to } => role,
    }
}

/// The capture on a square with the cheapest piece among the first `n` moves; of equal ones the
/// first.
pub open spec fn cheapest(
    pos: PositionModel,
    moves: Seq<ShogiMove>,
    worth: Seq<i64>,
    to: Coord,
    king: Coord,
    n: int,
) -> Option<ShogiMove>
    decreases n,
{
    if n <= 0 {
        None
    } else {
        let best = cheapest(pos, moves, worth, to, king, n - 1);
        let mv = moves[n - 1];
        if !takes_on(mv, to, king) {
            best
        } else {
            match best {
                Some(b) => if worth_of(worth, mover(pos, mv)) < worth_of(worth, mover(pos, b)) {
                    Some(mv)
                } else {
                    best
                },
                None => Some(mv),
            }
        }
    }
}

/// The capture that was passed over where the king fled from a single checker.
pub open spec fn passed_over(
    pos: PositionModel,
    side: Color,
    actual: Seq<char>,
    worth: Seq<i64>,
) -> Option<
    ShogiMove,
> {
    let checkers = checker_list(pos, side);
    match (king_of(pos, side), move_of_text(actual)) {
        (Some(king), Some(ShogiMove::Board { from, to, promote })) => {
            if from == king && !is_true_checker(pos, side, to) && checkers.len() == 1 {
                let all = legal_list(pos);
                cheapest(pos, all, worth, checkers[0].0, king, all.len() as int)
            } else {
                None
            }
        },
        _ => None,
    }
}

/// What is said of a turn in check.
pub open spec fn hits_at(
    end: GameEndPayload,
    bot: Color,
    min_fouls: u32,
    worth: Seq<i64>,
    d: DecisionModel,
) -> Seq<HitModel> {
    if d.side != bot || !checked(d.pos, d.side) || d.plies >= end.moves@.len() {
        Seq::empty()
    } else {
        let actual = end.moves@[d.plies as int].usi@;
        let fouls = fouls_at(end.foul_attempts@, d.side, d.pos.move_number);
        let foul = HitModel {
            kind: HitKind::Foul,
            ply: d.plies,
            side: d.side,
            checkers: checker_list(d.pos, d.side),
            fouls,
            actual,
            target: actual,
            k: legal_list(d.pos).len() as int,
            missed: None,
        };
        let first = if fouls.len() >= min_fouls {
            seq![foul]
        } else {
            Seq::empty()
        };
        match passed_over(d.pos, d.side, actual, worth) {
            Some(mv) => first.push(
                HitModel {
                    kind: HitKind::Flee,
                    target: text_of_move(mv),
                    missed: Some(
                        Missed {
                            checker: checker_list(d.pos, d.side)[0].1,
                            capturer: mover(d.pos, mv),
                            recaptured: attacked_by(
                                after_move(d.pos, mv),
                                checker_list(d.pos, d.side)[0].0,
                                other_color(d.side),
                            ),
                        },
                    ),
                    ..foul
                },
            ),
            None => first,
        }
    }
}

/// Whether a decision is a turn of the bot in check.
pub open spec fn is_check_decision(d: DecisionModel, bot: Color) -> bool {
    d.side == bot && checked(d.pos, d.side)
}

/// What a game holds.
#[derive(Debug)]
pub struct GameHits {
    pub hits: Vec<Hit>,
    /// The turns of the bot in check.
    pub check_decisions: usize,
    /// Whether the record held together.
    pub ok: bool,
}

fn worth_in(worth: &[i64; 8], role: Role) -> (res: i64)
    ensures
        res == worth_of(worth@, role),
{
    match crate::protocol::hand_slot(crate::shogi::unpromote_role(role)) {
        Some(i) => worth[i],
        None => worth[7],
    }
}

fn mover_of(pos: &Position, mv: &ShogiMove) -> (res: Role)
    requires
        legal(pos@, *mv),
    ensures
        res == mover(pos@, *mv),
{
    proof {
        lemma_legal_is_playable(pos@, *mv);
    }
    match *mv {
        ShogiMove::Board { from, to: _, promote: _ } => match pos.piece_at(from) {
            Some(p) => p.role,
            None => Role::King,
        },
        ShogiMove::Drop { role, to: _ } => role,
    }
}

fn cheapest_capture(
    pos: &Position,
    moves: &Vec<ShogiMove>,
    worth: &[i64; 8],
    to: Coord,
    king: Coord,
) -> (res: Option<ShogiMove>)
    requires
        moves@ == legal_list(pos@),
    ensures
        res == cheapest(pos@, moves@, worth@, to, king, moves@.len() as int),
        res matches Some(mv) ==> legal(pos@, mv),
{
    let mut best: Option<ShogiMove> = None;
    let mut i: usize = 0;
    while i < moves.len()
        invariant
            i <= moves@.len(),
            moves@ == legal_list(pos@),
            best == cheapest(pos@, moves@, worth@, to, king, i as int),
            best matches Some(mv) ==> legal(pos@, mv),
        decreases moves@.len() - i,
    {
        let mv = moves[i];
        proof {
            law_legal_moves(pos@, mv);
            assert(legal_list(pos@).contains(mv));
        }
        if let ShogiMove::Board { from, to: target, promote: _ } = mv {
            if target == to && from != king {
                best = match best {
                    Some(b) => if worth_in(worth, mover_of(pos, &mv)) < worth_in(
                        worth,
                        mover_of(pos, &b),
                    ) {
                        Some(mv)
                    } else {
                        Some(b)
                    },
                    None => Some(mv),
                };
            }
        }
        i += 1;
    }
    best
}

fn list_fouls(records: &Vec<FoulRecord>, side: Color, number: u32) -> (res: Vec<String>)
    ensures
        texts_of(res@) == fouls_at(records@, side, number),
{
    let ghost good = |f: FoulRecord| f.by_color == side && f.move_number == number;
    let ghost text = |f: FoulRecord| f.usi@;
    let mut out: Vec<String> = Vec::new();
    let mut i: usize = 0;
    assert(records@.take(0).filter(good) =~= Seq::<FoulRecord>::empty()) by {
        reveal(Seq::filter);
    }
    assert(texts_of(out@) =~= records@.take(0).filter(good).map_values(text));
    while i < records.len()
        invariant
            i <= records@.len(),
            good == (|f: FoulRecord| f.by_color == side && f.move_number == number),
            text == (|f: FoulRecord| f.usi@),
            texts_of(out@) == records@.take(i as int).filter(good).map_values(text),
        decreases records@.len() - i,
    {
        let f = &records[i];
        let ghost before_ = out@;
        let ghost kept = records@.take(i as int).filter(good);
        proof {
            assert(records@.take(i + 1) =~= records@.take(i as int).push(*f));
            records@.take(i as int).lemma_filter_push(*f, good);
        }
        if f.by_color == side && f.move_number == number {
            out.push(f.usi.clone());
            assert(texts_of(out@) =~= texts_of(before_).push(f.usi@));
            assert(kept.push(*f).map_values(text) =~= kept.map_values(text).push(f.usi@));
        }
        i += 1;
    }
    assert(records@.take(i as int) =~= records@);
    out
}

fn missed_capture(
    pos: &Position,
    side: Color,
    actual: &str,
    worth: &[i64; 8],
    checkers: &Vec<(Coord, Role)>,
    legal_moves: &Vec<ShogiMove>,
) -> (res: Option<(ShogiMove, Missed)>)
    requires
        checkers@ == checker_list(pos@, side),
        legal_moves@ == legal_list(pos@),
    ensures
        match res {
            Some(p) => {
                &&& passed_over(pos@, side, actual@, worth@) == Some(p.0)
                &&& legal(pos@, p.0)
                &&& p.1 == (Missed {
                    checker: checkers@[0].1,
                    capturer: mover(pos@, p.0),
                    recaptured: attacked_by(
                        after_move(pos@, p.0),
                        checkers@[0].0,
                        other_color(side),
                    ),
                })
            },
            None => passed_over(pos@, side, actual@, worth@) is None,
        },
{
    let king = match pos.king_square(side) {
        Some(king) => king,
        None => return None,
    };
    let (from, to) = match parse_usi(actual) {
        Some(ShogiMove::Board { from, to, promote: _ }) => (from, to),
        _ => return None,
    };
    if from != king || checkers.len() != 1 {
        return None;
    }
    let (csq, crole) = checkers[0];
    proof {
        lemma_checker_list(pos@, side, to);
        assert(checkers@[0].0 == to <==> is_true_checker(pos@, side, to));
    }
    if csq == to {
        return None;
    }
    let mv = match cheapest_capture(pos, legal_moves, worth, csq, king) {
        Some(mv) => mv,
        None => return None,
    };
    proof {
        lemma_legal_is_playable(pos@, mv);
    }
    let mut after = *pos;
    let _taken = after.play_unchecked(&mv);
    let recaptured = after.is_attacked(csq, side.other());
    Some((mv, Missed { checker: crole, capturer: mover_of(pos, &mv), recaptured }))
}

fn push_hits(
    out: &mut Vec<Hit>,
    end: &GameEndPayload,
    bot: Color,
    min_fouls: u32,
    worth: &[i64; 8],
    d: &Decision,
)
    requires
        is_check_decision(d@, bot),
    ensures
        hit_list(final(out)@) == hit_list(old(out)@) + hits_at(*end, bot, min_fouls, worth@, d@),
{
    let ghost start = out@;
    assert(hit_list(out@) =~= hit_list(start) + Seq::<HitModel>::empty());
    if d.plies as u64 >= end.moves.len() as u64 {
        return;
    }
    let i: usize = d.plies as usize;
    let actual = &end.moves[i].usi;
    let fouls = list_fouls(&end.foul_attempts, d.side, d.pos.move_number());
    let checkers = true_checkers(&d.pos, d.side);
    let legal_moves = d.pos.legal_moves();
    let k: usize = legal_moves.len();
    let missed = missed_capture(&d.pos, d.side, actual.as_str(), worth, &checkers, &legal_moves);
    if fouls.len() as u64 >= min_fouls as u64 {
        let h = Hit {
            kind: HitKind::Foul,
            ply: d.plies,
            side: d.side,
            checkers: true_checkers(&d.pos, d.side),
            fouls: copy_texts(&fouls),
            actual: actual.clone(),
            target: actual.clone(),
            k,
            missed: None,
        };
        out.push(h);
        assert(hit_list(out@) =~= hit_list(start) + seq![h@]);
    }
    let ghost middle = out@;
    if let Some((mv, note)) = missed {
        proof {
            lemma_legal_is_playable(d.pos@, mv);
        }
        let h = Hit {
            kind: HitKind::Flee,
            ply: d.plies,
            side: d.side,
            checkers,
            fouls,
            actual: actual.clone(),
            target: mv.to_usi(),
            k,
            missed: Some(note),
        };
        out.push(h);
        assert(hit_list(out@) =~= hit_list(middle).push(h@));
    }
    assert(hit_list(out@) =~= hit_list(start) + hits_at(*end, bot, min_fouls, worth@, d@));
}

/// Looks through a finished game. Of a record that does not hold together the part before the fault
/// counts. The table tells what the roles that can be held are worth, and the king.
pub fn mine_checks(end: &GameEndPayload, bot: Color, min_fouls: u32, worth: &[i64; 8]) -> (res: GameHits)
    requires
        end.moves@.len() <= u32::MAX,
        end.foul_attempts@.len() <= u32::MAX,
    ensures
        res.ok == game_run(*end).ok,
        res.check_decisions == game_run(*end).decisions.filter(
            |d: DecisionModel| is_check_decision(d, bot),
        ).len(),
        hit_list(res.hits@) == game_run(*end).decisions.flat_map(
            |d: DecisionModel| hits_at(*end, bot, min_fouls, worth@, d),
        ),
{
    let replay = replay_game(end);
    let decisions = replay.decisions;
    let ghost ds = decision_list(decisions@);
    let ghost pick = |d: DecisionModel| hits_at(*end, bot, min_fouls, worth@, d);
    let ghost danger = |d: DecisionModel| is_check_decision(d, bot);
    let mut hits: Vec<Hit> = Vec::new();
    let mut check_decisions: usize = 0;
    let mut i: usize = 0;
    assert(hit_list(hits@) =~= ds.take(0).flat_map(pick));
    proof {
        ds.take(0).lemma_filter_len(danger);
    }
    while i < decisions.len()
        invariant
            i <= decisions@.len(),
            ds == decision_list(decisions@),
            pick == (|d: DecisionModel| hits_at(*end, bot, min_fouls, worth@, d)),
            danger == (|d: DecisionModel| is_check_decision(d, bot)),
            hit_list(hits@) == ds.take(i as int).flat_map(pick),
            check_decisions <= i,
            check_decisions == ds.take(i as int).filter(danger).len(),
        decreases decisions@.len() - i,
    {
        let d = &decisions[i];
        proof {
            assert(ds[i as int] == d@);
            ds.lemma_flat_map_take_append(pick, i as int);
            assert(ds.take(i + 1) =~= ds.take(i as int).push(d@));
            ds.take(i as int).lemma_filter_push(d@, danger);
        }
        let ghost before_ = hits@;
        if d.side == bot && d.pos.in_check(d.side) {
            check_decisions += 1;
            push_hits(&mut hits, end, bot, min_fouls, worth, d);
        } else {
            assert(hit_list(hits@) =~= hit_list(before_) + pick(d@));
        }
        i += 1;
    }
    assert(ds.take(i as int) =~= ds);
    GameHits { hits, check_decisions, ok: replay.ok }
}

/// A move that was passed over was legal and would have taken the only checker, and not with the king.
pub proof fn law_missed_capture(pos: PositionModel, side: Color, actual: Seq<char>, worth: Seq<i64>)
    requires
        passed_over(pos, side, actual, worth) is Some,
    ensures
        ({
            let mv = passed_over(pos, side, actual, worth)->0;
            &&& legal(pos, mv)
            &&& king_of(pos, side) matches Some(king)
            &&& takes_on(mv, checker_list(pos, side)[0].0, king)
            &&& is_true_checker(pos, side, checker_list(pos, side)[0].0)
        }),
{
    let king = king_of(pos, side)->0;
    let c = checker_list(pos, side)[0].0;
    let all = legal_list(pos);
    lemma_cheapest(pos, all, worth, c, king, all.len() as int);
    let mv = passed_over(pos, side, actual, worth)->0;
    law_legal_moves(pos, mv);
    lemma_checker_list(pos, side, c);
    assert(checker_list(pos, side)[0].0 == c);
}

/// The cheapest capture is one of the moves, and none is made with a cheaper piece.
proof fn lemma_cheapest(
    pos: PositionModel,
    moves: Seq<ShogiMove>,
    worth: Seq<i64>,
    to: Coord,
    king: Coord,
    n: int,
)
    requires
        0 <= n <= moves.len(),
    ensures
        cheapest(pos, moves, worth, to, king, n) matches Some(mv) ==> {
            &&& moves.contains(mv)
            &&& takes_on(mv, to, king)
        },
    decreases n,
{
    if n > 0 {
        lemma_cheapest(pos, moves, worth, to, king, n - 1);
        assert(moves.contains(moves[n - 1]));
    }
}

/// A number of at least two digits.
pub open spec fn two_digits(n: nat) -> Seq<char> {
    if n < 10 {
        "0"@ + decimal(n)
    } else {
        decimal(n)
    }
}

/// The name under which the `n`-th hit of a kind is written out.
pub fn hit_name(prefix: &str, kind: HitKind, n: u64) -> (res: String)
    ensures
        res@ == prefix@ + "-"@ + (match kind {
            HitKind::Foul => "foul"@,
            HitKind::Flee => "flee"@,
        }) + two_digits(n as nat),
{
    let mut out = prefix.to_owned();
    out.append("-");
    out.append(kind.label());
    if n < 10 {
        out.append("0");
    }
    append_decimal(&mut out, n);
    assert(out@ =~= prefix@ + "-"@ + (match kind {
        HitKind::Foul => "foul"@,
        HitKind::Flee => "flee"@,
    }) + two_digits(n as nat));
    out
}

/// Whether a score has to say that the game ended by fouls: one was tried after the last move.
pub fn ended_by_fouls(end: &GameEndPayload) -> (res: bool)
    ensures
        res == exists|i: int|
            0 <= i < end.foul_attempts@.len() && (#[trigger] end.foul_attempts@[i]).move_number
                > end.moves@.len(),
{
    let mut i: usize = 0;
    while i < end.foul_attempts.len()
        invariant
            i <= end.foul_attempts@.len(),
            forall|k: int|
                0 <= k < i ==> (#[trigger] end.foul_attempts@[k]).move_number <= end.moves@.len(),
        decreases end.foul_attempts@.len() - i,
    {
        if end.foul_attempts[i].move_number as u64 > end.moves.len() as u64 {
            assert(end.foul_attempts@[i as int].move_number > end.moves@.len());
            return true;
        }
        i += 1;
    }
    false
}

} // verus!
