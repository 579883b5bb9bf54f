//! What is found in finished games and in the samples of a diagnosis: turns with many fouls, captures
//! passed over, and how far the samples agree with the truth.

use crate::board::{is_on_board, Coord};
use crate::check_economy::{checker_list, is_true_checker};
use crate::check_mining::{
    cheapest, fouls_at, hits_at, mover, passed_over, takes_on, worth_of, HitKind,
};
use crate::diagnosis::{
    attacker_list, attacks_it, cluster_is, columns_of, counts, finding_is, is_copy, is_first, penalty_of, places,
    taint_finding_is, wide, Cluster, Finding, Particle, TaintFinding, TAINT_VOTE_MAX,
};
use crate::lists::{lemma_filter_contains_iff, lemma_filter_push};
use crate::protocol::{promoted, Color, FoulRecord, GameEndPayload, Role};
use crate::replay::DecisionModel;
use crate::scenario::attack_count;
use crate::shogi::{
    attacks_from, checked, king_of, legal_list, move_of_text, piece_list, text_of_move, Piece,
    PositionModel, ShogiMove,
};
use vstd::prelude::*;

verus! {

/// The fouls of a side in a turn are the texts of its records under the number of the turn, in order.
pub proof fn law_fouls_in_order(records: Seq<FoulRecord>, f: FoulRecord, side: Color, number: u32)
    ensures
        fouls_at(records.push(f), side, number) == (if f.by_color == side && f.move_number == number {
            fouls_at(records, side, number).push(f.usi@)
        } else {
            fouls_at(records, side, number)
        }),
        fouls_at(Seq::empty(), side, number).len() == 0,
{
    let of = |f: FoulRecord| f.by_color == side && f.move_number == number;
    lemma_filter_push(records, f, of);
    reveal(Seq::filter);
    assert(fouls_at(records.push(f), side, number) =~= (if f.by_color == side && f.move_number == number {
        fouls_at(records, side, number).push(f.usi@)
    } else {
        fouls_at(records, side, number)
    }));
}

/// A promoted piece is worth what it is worth unpromoted; the king has a worth of its own.
pub proof fn law_worths(worth: Seq<i64>, role: Role, up: Role)
    requires
        worth.len() == 8,
    ensures
        promoted(role) == Some(up) ==> worth_of(worth, up) == worth_of(worth, role),
        worth_of(worth, Role::King) == worth[7],
        crate::protocol::slot_of(role) matches Some(i) ==> worth_of(worth, role) == worth[i],
{
}

/// The cheapest capture on a square: it is one of the moves, not with the king; no other capture there is
/// made with a cheaper piece; and there is one where there is a capture at all.
pub proof fn law_cheapest(
    pos: PositionModel,
    moves: Seq<ShogiMove>,
    worth: Seq<i64>,
    to: Coord,
    king: Coord,
    n: int,
    k: int,
)
    requires
        0 <= k < n <= moves.len(),
    ensures
        cheapest(pos, moves, worth, to, king, n) matches Some(b) ==> moves.contains(b) && (b matches
            ShogiMove::Board { from, to: t, promote } && t == to && from != king),
        (moves[k] matches ShogiMove::Board { from, to: t, promote } && t == to && from != king) ==> (cheapest(
            pos,
            moves,
            worth,
            to,
            king,
            n,
        ) matches Some(b) && worth_of(worth, mover(pos, b)) <= worth_of(worth, mover(pos, moves[k]))),
    decreases n,
{
    reveal_with_fuel(cheapest, 2);
    assert(moves.contains(moves[n - 1]));
    if n > 1 {
        if k < n - 1 {
            law_cheapest(pos, moves, worth, to, king, n - 1, k);
        } else {
            law_cheapest(pos, moves, worth, to, king, n - 1, 0);
        }
    }
}

/// The role that a move moves is that of the piece on the square it leaves, or of the piece dropped.
pub proof fn law_movers(pos: PositionModel, from: Coord, to: Coord, promote: bool, role: Role, p: Piece)
    ensures
        pos.at(from) == Some(p) ==> mover(pos, ShogiMove::Board { from, to, promote }) == p.role,
        mover(pos, ShogiMove::Drop { role, to }) == role,
{
}

/// A capture is passed over where a single piece gives check, the king moves away without taking it, and
/// another piece could legally have taken it.
pub proof fn law_passed_over(
    pos: PositionModel,
    side: Color,
    actual: Seq<char>,
    worth: Seq<i64>,
    king: Coord,
    from: Coord,
    to: Coord,
    promote: bool,
    mv: ShogiMove,
)
    requires
        pos.wf(),
        pos.turn == side,
        king_of(pos, side) == Some(king),
        move_of_text(actual) == Some(ShogiMove::Board { from, to, promote }),
    ensures
        from != king || is_true_checker(pos, side, to) || checker_list(pos, side).len() != 1
            ==> passed_over(pos, side, actual, worth) is None,
        from == king && !is_true_checker(pos, side, to) && checker_list(pos, side).len() == 1
            && legal_list(pos).contains(mv) && takes_on(mv, checker_list(pos, side)[0].0, king)
            ==> (passed_over(pos, side, actual, worth) matches Some(b) && worth_of(worth, mover(pos, b))
            <= worth_of(worth, mover(pos, mv))),
        passed_over(pos, side, actual, worth) matches Some(b) ==> legal_list(pos).contains(b) && takes_on(
            b,
            checker_list(pos, side)[0].0,
            king,
        ),
{
    let all = legal_list(pos);
    if from == king && !is_true_checker(pos, side, to) && checker_list(pos, side).len() == 1 {
        let c = checker_list(pos, side)[0].0;
        if all.len() > 0 {
            law_cheapest(pos, all, worth, c, king, all.len() as int, 0);
        }
        if all.contains(mv) && takes_on(mv, c, king) {
            let k = choose|k: int| 0 <= k < all.len() && all[k] == mv;
            law_cheapest(pos, all, worth, c, king, all.len() as int, k);
        }
    }
}

/// What is said of a decision: nothing where it is not a turn of the bot in check that a move answers.
/// Else it is a hit for its fouls where there are enough, and one more where a capture was passed over.
pub proof fn law_hits(end: GameEndPayload, bot: Color, min_fouls: u32, worth: Seq<i64>, d: DecisionModel)
    ensures
        ({
            let hits = hits_at(end, bot, min_fouls, worth, d);
            let actual = end.moves@[d.plies as int].usi@;
            let tried = fouls_at(end.foul_attempts@, bot, d.pos.move_number);
            let turn = d.side == bot && checked(d.pos, bot) && d.plies < end.moves@.len();
            let missed = passed_over(d.pos, bot, actual, worth);
            &&& (exists|i: int| 0 <= i < hits.len() && (#[trigger] hits[i]).kind == HitKind::Foul) <==> turn
                && tried.len() >= min_fouls
            &&& (exists|i: int| 0 <= i < hits.len() && (#[trigger] hits[i]).kind == HitKind::Flee) <==> turn
                && missed is Some
            &&& forall|i: int|
                0 <= i < hits.len() ==> {
                    let h = #[trigger] hits[i];
                    &&& h.ply == d.plies && h.side == bot && h.actual == actual && h.fouls == tried
                    &&& h.checkers == checker_list(d.pos, bot)
                    &&& h.k == legal_list(d.pos).len()
                    &&& h.kind == HitKind::Foul ==> h.target == actual && h.missed is None
                    &&& h.kind == HitKind::Flee ==> h.target == text_of_move(missed->0) && (h.missed matches
                        Some(m) && m.capturer == mover(d.pos, missed->0) && m.checker == checker_list(
                        d.pos,
                        bot,
                    )[0].1)
                }
        }),
{
    let hits = hits_at(end, bot, min_fouls, worth, d);
    let actual = end.moves@[d.plies as int].usi@;
    let tried = fouls_at(end.foul_attempts@, bot, d.pos.move_number);
    if d.side == bot && checked(d.pos, bot) && d.plies < end.moves@.len() {
        if tried.len() >= min_fouls {
            assert(hits[0].kind == HitKind::Foul);
        }
        if passed_over(d.pos, bot, actual, worth) is Some {
            assert(hits[hits.len() - 1].kind == HitKind::Flee);
        }
    }
}

/// A sample explains everything only where it misses nothing and is not tainted; the more it misses the
/// further it is from that.
pub proof fn law_penalties(p: Particle)
    ensures
        penalty_of(p) == 0 <==> p.miss == 0 && p.taint == 0,
        p.miss > 0 ==> penalty_of(p) == p.miss,
        penalty_of(p) <= p.miss + 1,
{
}

/// Every sample counts where all do; of the tainted ones those up to the limit.
pub proof fn law_samples_that_count(p: Particle)
    ensures
        counts(p, false),
        p.taint == 0 ==> !counts(p, true),
        0 < p.taint <= TAINT_VOTE_MAX ==> counts(p, true),
        p.taint > TAINT_VOTE_MAX ==> !counts(p, true),
{
}

/// Of the samples with one fingerprint exactly one is the first.
pub proof fn law_firsts(ps: Seq<Particle>, tainted: bool, i: int, j: int)
    requires
        0 <= i < ps.len(),
        0 <= j < ps.len(),
        ps[i].print == ps[j].print,
    ensures
        is_first(ps, tainted, i) && is_first(ps, tainted, j) ==> i == j,
        is_first(ps, tainted, i) && counts(ps[j], tainted) ==> i <= j,
{
}

/// The pieces that attack a square are listed with their roles, those of the opponent and no others.
pub proof fn law_attackers(m: PositionModel, opp: Color, c: Coord, from: Coord, role: Role)
    requires
        m.wf(),
    ensures
        attacker_list(m, opp, c).contains((from, role)) <==> is_on_board(from) && attacks_from(m, from, c)
            && m.at(from) == Some(Piece { color: opp, role }),
{
    let all = piece_list(m);
    let hit = |x: (Coord, Piece)| attacks_it(m, opp, c, x);
    let kept = all.filter(hit);
    let list = attacker_list(m, opp, c);
    if list.contains((from, role)) {
        let k = choose|k: int| 0 <= k < list.len() && list[k] == (from, role);
        let x = kept[k];
        assert(kept.contains(x));
        lemma_filter_contains_iff(all, hit, x);
        let n = choose|n: int| 0 <= n < all.len() && all[n] == x;
        crate::check_economy::lemma_piece_list(m, n);
    }
    if is_on_board(from) && attacks_from(m, from, c) && m.at(from) == Some(Piece { color: opp, role }) {
        let n = crate::check_economy::lemma_piece_listed(m, from);
        let x = (from, Piece { color: opp, role });
        assert(all[n] == x);
        assert(all.contains(x));
        lemma_filter_contains_iff(all, hit, x);
        let k = choose|k: int| 0 <= k < kept.len() && kept[k] == x;
        assert(list[k] == (from, role));
    }
}

/// A square falls in the column of the number of attacks on it, the last one being for three and more.
pub proof fn law_columns(m: PositionModel, opp: Color, squares: Seq<Coord>, with_king: bool, i: int)
    requires
        0 <= i < squares.len(),
    ensures
        columns_of(m, opp, squares, with_king).len() == squares.len(),
        columns_of(m, opp, squares, with_king)[i] <= 3,
        attack_count(m, opp, squares[i], with_king) <= 3 ==> columns_of(m, opp, squares, with_king)[i]
            == attack_count(m, opp, squares[i], with_king),
        attack_count(m, opp, squares[i], with_king) > 3 ==> columns_of(m, opp, squares, with_king)[i] == 3,
{
}

/// A cluster are all samples with the fingerprint of its first one that count, and it is as far from the
/// truth as the best of them.
pub proof fn law_clusters(c: Cluster, ps: Seq<Particle>, tainted: bool, i: int)
    requires
        cluster_is(c, ps, tainted),
        0 <= i < ps.len(),
    ensures
        (exists|k: int| 0 <= k < c.members@.len() && #[trigger] c.members@[k] == i) <==> counts(ps[i], tainted)
            && ps[i].print == ps[c.first as int].print,
        counts(ps[i], tainted) && ps[i].print == ps[c.first as int].print ==> c.first <= i && c.penalty
            <= penalty_of(ps[i]),
        exists|k: int| 0 <= k < ps.len() && c.penalty == penalty_of(#[trigger] ps[k]),
{
    let all = places(ps.len());
    let of = |i: int| is_copy(ps, tainted, ps[c.first as int].print, i);
    let list = wide(c.members@);
    lemma_filter_contains_iff(all, of, i);
    assert(all[i] == i);
    assert(all.contains(i));
    if list.contains(i) {
        let k = choose|k: int| 0 <= k < list.len() && list[k] == i;
        assert(c.members@[k] == i);
        assert(c.penalty <= penalty_of(ps[c.members@[k] as int]));
    }
    if exists|k: int| 0 <= k < c.members@.len() && #[trigger] c.members@[k] == i {
        let k = choose|k: int| 0 <= k < c.members@.len() && #[trigger] c.members@[k] == i;
        assert(list[k] == i);
    }
    let best = choose|k: int|
        0 <= k < c.members@.len() && c.penalty == penalty_of(ps[#[trigger] c.members@[k] as int]);
    let b = c.members@[best] as int;
    assert(list[best] == b);
    assert(all.filter(of).contains(b));
    lemma_filter_contains_iff(all, of, b);
    let n = choose|n: int| 0 <= n < all.len() && all[n] == b;
    assert(0 <= b < ps.len());
    assert(c.penalty == penalty_of(ps[b]));
}

/// What is found out of a cluster is told by its first sample: where the opponent's king stands; in check,
/// which pieces attack the own king; and where it explains everything, by how many pieces other than
/// kings each square is attacked.
pub proof fn law_findings(f: Finding, ps: Seq<Particle>, truth: PositionModel, squares: Seq<Coord>, i: int)
    requires
        finding_is(f, ps, truth, squares),
        0 <= i < squares.len(),
    ensures
        ({
            let opp = crate::protocol::other_color(truth.turn);
            let m = ps[f.cluster.first as int].pos@;
            &&& f.opp_king == king_of(m, opp)
            &&& f.checkers is Some <==> checked(truth, truth.turn)
            &&& f.checkers matches Some(list) ==> list@ == attacker_list(
                m,
                opp,
                king_of(truth, truth.turn)->0,
            )
            &&& f.columns is Some <==> f.cluster.penalty == 0
            &&& f.columns matches Some(list) ==> list@.len() == squares.len() && list@[i] == (if attack_count(
                m,
                opp,
                squares[i],
                false,
            ) >= 3 {
                3int
            } else {
                attack_count(m, opp, squares[i], false) as int
            })
        }),
{
    let opp = crate::protocol::other_color(truth.turn);
    let m = ps[f.cluster.first as int].pos@;
    if let Some(list) = f.columns {
        assert(wide(list@).len() == list@.len());
        assert(wide(list@)[i] == list@[i] as int);
        assert(columns_of(m, opp, squares, false)[i] == wide(list@)[i]);
    }
}

/// What is found out of a tainted cluster are the attacks on each square, those of the king among them.
pub proof fn law_taint_findings(
    f: TaintFinding,
    ps: Seq<Particle>,
    truth: PositionModel,
    squares: Seq<Coord>,
    i: int,
)
    requires
        taint_finding_is(f, ps, truth, squares),
        0 <= i < squares.len(),
    ensures
        ({
            let opp = crate::protocol::other_color(truth.turn);
            let m = ps[f.cluster.first as int].pos@;
            f.columns@.len() == squares.len() && f.columns@[i] == (if attack_count(m, opp, squares[i], true)
                >= 3 {
                3int
            } else {
                attack_count(m, opp, squares[i], true) as int
            })
        }),
        0 < ps[f.cluster.first as int].taint <= TAINT_VOTE_MAX,
{
    let opp = crate::protocol::other_color(truth.turn);
    let m = ps[f.cluster.first as int].pos@;
    assert(wide(f.columns@).len() == f.columns@.len());
    assert(wide(f.columns@)[i] == f.columns@[i] as int);
    assert(columns_of(m, opp, squares, true)[i] == wide(f.columns@)[i]);
}

} // verus!
