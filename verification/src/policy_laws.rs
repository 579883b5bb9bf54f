//! What the play-through of a turn in check amounts to: which attempts are made, what each one shows,
//! and what the samples and the supposed checkers say.

use crate::board::{is_on_board, Coord};
use crate::check::Hypothesis;
use crate::check_belief::{
    attrition_of, first_with, foul_texts, in_danger, last_taken, point_of, single_checker, takes_phantom,
    takes_truth,
};
use crate::check_economy::checker_list;
use crate::check_policy::{
    best_of, can_check, captures_in, consistent_with, fouls_left, has_mate, law_pick_is_best,
    left_of_twenty, mates, picked, policy_move_at, sim_from, sim_fouled, standing, PickRule,
    PolicyMoveModel, SimModel,
};
use crate::check_prep::SnapshotModel;
use crate::check_price::{
    is_true_hypothesis, moves_king, priced_at, priced_before, priced_order, PricedModel,
};
use crate::check_votes::{answer_of, is_majority, votes_for, weight_of, weight_where, Answer, Sample};
use crate::economy_laws::law_true_checkers;
use crate::lists::{lemma_filter_push, lemma_sorted_by_len, lemma_sorted_by_orders, sorted_by};
use crate::observation::Event;
use crate::protocol::{Color, MoveRecord, Role, MAX_FOULS};
use crate::rules::law_game_ends;
use crate::shogi::{
    after_move, attacks_from, checked, king_of, legal, move_of_text, Piece, PositionModel,
    ShogiMove,
};
use crate::text::{comes_before, lemma_not_before_chain, lemma_one_comes_first};
use vstd::prelude::*;

verus! {

/// A candidate for a policy is a text that is a move: of the king where it leaves the king's square,
/// legal where it is legal in truth, with the place in the ranking it was found at.
pub proof fn law_candidates_are_labelled(
    ranking: Seq<Seq<char>>,
    i: int,
    own: Seq<(Seq<char>, Role)>,
    truth: PositionModel,
    solver: Option<crate::check::CheckSolver>,
    king: Option<Coord>,
)
    requires
        0 <= i < ranking.len(),
    ensures
        policy_move_at(ranking, i, own, truth, solver, king) is Some <==> move_of_text(ranking[i])
            is Some,
        policy_move_at(ranking, i, own, truth, solver, king) matches Some(m) ==> {
            &&& m.rank == i && m.usi == ranking[i] && Some(m.mv) == move_of_text(m.usi)
            &&& m.truth_legal == legal(truth, m.mv)
            &&& m.is_king <==> king is Some && (m.mv matches ShogiMove::Board { from, to, promote }
                && from == king->0)
        },
{
}

/// Reordering the probes never turns a move of the king into a probe or the other way: where the king
/// would move at the present price it moves, as it would; else the probe of the highest score is taken.
pub proof fn law_probes_are_reordered(
    moves: Seq<PolicyMoveModel>,
    keys: Seq<i64>,
    present: Seq<i64>,
    excluded: Set<Seq<char>>,
    j: int,
)
    requires
        keys.len() == moves.len(),
        present.len() == moves.len(),
        0 <= j < moves.len(),
        !excluded.contains(moves[j].usi),
    ensures
        ({
            let now = picked(PickRule::Best, moves, present, present, excluded);
            let p = picked(PickRule::ReorderProbes, moves, keys, present, excluded);
            &&& now is Some && p is Some
            &&& 0 <= p->0 < moves.len() && !excluded.contains(moves[p->0].usi)
            &&& moves[p->0].is_king == moves[now->0].is_king
            &&& moves[now->0].is_king ==> p == now
            &&& !moves[p->0].is_king && !moves[j].is_king ==> keys[j] <= keys[p->0]
            &&& present[j] <= present[now->0]
        }),
{
    let n = moves.len() as int;
    law_pick_is_best(moves, present, excluded, false, n);
    law_pick_is_best(moves, keys, excluded, true, n);
    let now = best_of(moves, present, excluded, false, n);
    assert(now is Some);
}

/// A turn that is played through goes from foul to foul. Each attempt before the last is an illegal
/// candidate and counts as a foul; the last one is accepted, or there is none and either the fouls are
/// used up or every candidate has been tried.
pub proof fn law_turn_is_played_through(
    rule: PickRule,
    moves: Seq<PolicyMoveModel>,
    rows: Seq<Seq<i64>>,
    present: Seq<Seq<i64>>,
    s: SimModel,
    j: int,
)
    requires
        s.fouls_before + s.fouls <= MAX_FOULS,
        0 <= s.fouls,
        s.fouls == s.sequence.len(),
        rows.len() >= MAX_FOULS,
        present.len() >= MAX_FOULS,
        forall|f: int| 0 <= f < rows.len() ==> (#[trigger] rows[f]).len() == moves.len(),
        forall|f: int| 0 <= f < present.len() ==> (#[trigger] present[f]).len() == moves.len(),
        s.excluded == s.sequence.to_set(),
        0 <= j < moves.len(),
    ensures
        ({
            let o = sim_from(rule, moves, rows, present, s);
            &&& s.sequence.is_prefix_of(o.sequence)
            &&& o.fouls + (if o.accepted is Some {
                1int
            } else {
                0
            }) == o.sequence.len()
            &&& forall|k: int|
                s.fouls <= k < o.fouls ==> exists|i: int|
                    #![trigger moves[i]]
                    0 <= i < moves.len() && moves[i].usi == (#[trigger] o.sequence[k])
                        && !moves[i].truth_legal
            &&& o.accepted matches Some(usi) ==> o.sequence.last() == usi && (exists|i: int|
                #![trigger moves[i]]
                0 <= i < moves.len() && moves[i].usi == usi && moves[i].truth_legal && o.accepted_kind
                    == Some(moves[i].kind))
            &&& o.accepted is None ==> o.accepted_kind is None && (s.fouls_before + o.fouls == MAX_FOULS
                || o.sequence.contains(moves[j].usi))
            &&& o.foul_limit <==> o.accepted is None && s.fouls_before + o.fouls == MAX_FOULS
            &&& o.updates == s.updates + (if s.updating {
                o.fouls - s.fouls
            } else {
                0
            })
        }),
    decreases MAX_FOULS - s.fouls_before - s.fouls,
{
    broadcast use vstd::seq_lib::group_seq_properties;

    let o = sim_from(rule, moves, rows, present, s);
    if s.fouls_before + s.fouls >= MAX_FOULS {
    } else {
        let n = moves.len() as int;
        law_pick_is_best(moves, rows[s.fouls], s.excluded, false, n);
        law_pick_is_best(moves, present[s.fouls], s.excluded, false, n);
        law_pick_is_best(moves, rows[s.fouls], s.excluded, true, n);
        let p = picked(rule, moves, rows[s.fouls], present[s.fouls], s.excluded);
        if let Some(i) = p {
            assert(0 <= i < n);
            if moves[i].truth_legal {
                assert(o.sequence.last() == moves[i].usi);
            } else {
                let t = sim_fouled(s, moves[i]);
                assert(t.excluded =~= t.sequence.to_set()) by {
                    assert forall|x: Seq<char>| t.sequence.to_set().contains(x)
                        <==> t.excluded.contains(x) by {
                        assert(t.sequence.contains(x) <==> s.sequence.contains(x) || x
                            == moves[i].usi) by {
                            if x == moves[i].usi {
                                assert(t.sequence[s.sequence.len() as int] == x);
                            }
                            if s.sequence.contains(x) {
                                let k = choose|k: int| 0 <= k < s.sequence.len() && s.sequence[k] == x;
                                assert(t.sequence[k] == x);
                            }
                        }
                    }
                }
                law_turn_is_played_through(rule, moves, rows, present, t, j);
                assert(s.sequence.is_prefix_of(t.sequence));
                assert forall|k: int| s.fouls <= k < o.fouls implies exists|i: int|
                    #![trigger moves[i]]
                    0 <= i < moves.len() && moves[i].usi == (#[trigger] o.sequence[k])
                        && !moves[i].truth_legal by {
                    if k == s.fouls {
                        assert(o.sequence[k] == t.sequence[k]);
                        assert(moves[i].usi == o.sequence[k]);
                    }
                }
            }
        } else {
            assert(s.excluded.contains(moves[j].usi));
        }
    }
}

/// A mate in one is a legal move behind which the other side is in check and has no legal move.
pub proof fn law_mate_in_one(pos: PositionModel, mv: ShogiMove, reply: ShogiMove)
    ensures
        mates(pos, mv) ==> legal(pos, mv) && checked(after_move(pos, mv), after_move(pos, mv).turn)
            && !legal(after_move(pos, mv), reply),
        legal(pos, mv) && checked(after_move(pos, mv), after_move(pos, mv).turn) && (forall|r: ShogiMove|
            !#[trigger] legal(after_move(pos, mv), r)) ==> mates(pos, mv),
{
    law_game_ends(after_move(pos, mv));
}

/// What a text that is played shows: it is accepted where it is a legal move. It is followed by a mate or
/// a check where the reply that gives it exists; nothing is known behind a refused one.
pub proof fn law_standing_after(truth: PositionModel, bot: Color, usi: Seq<char>, mv: ShogiMove)
    requires
        move_of_text(usi) == Some(mv),
    ensures
        standing(truth, bot, Some(usi)).accepted == legal(truth, mv),
        standing(truth, bot, Some(usi)).mated_in_1 <==> legal(truth, mv) && exists|r: ShogiMove|
            #[trigger] legal(after_move(truth, mv), r) && mates(after_move(truth, mv), r),
        standing(truth, bot, Some(usi)).next_check <==> legal(truth, mv) && exists|r: ShogiMove|
            #[trigger] legal(after_move(truth, mv), r) && checked(
                after_move(after_move(truth, mv), r),
                bot,
            ),
        !standing(truth, bot, None).accepted && !standing(truth, bot, None).mated_in_1 && !standing(
            truth,
            bot,
            None,
        ).next_check,
{
    let next = after_move(truth, mv);
    if has_mate(next) {
        let r = choose|r: ShogiMove| #[trigger] mates(next, r);
        assert(legal(next, r));
    }
    if can_check(next, bot) {
        let r = choose|r: ShogiMove| #[trigger] crate::check_policy::checks_side(next, bot, r);
        assert(legal(next, r));
    }
    if exists|r: ShogiMove| #[trigger] legal(next, r) && mates(next, r) {
        let r = choose|r: ShogiMove| #[trigger] legal(next, r) && mates(next, r);
        assert(mates(next, r));
    }
    if exists|r: ShogiMove| #[trigger] legal(next, r) && checked(after_move(next, r), bot) {
        let r = choose|r: ShogiMove| #[trigger] legal(next, r) && checked(after_move(next, r), bot);
        assert(crate::check_policy::checks_side(next, bot, r));
    }
}

/// A position stays possible behind a foul where the refused move is illegal in it.
pub proof fn law_fouls_rule_out(pos: PositionModel, fouls: Seq<ShogiMove>, mv: ShogiMove)
    ensures
        consistent_with(pos, fouls.push(mv)) <==> consistent_with(pos, fouls) && !legal(pos, mv),
        consistent_with(pos, Seq::empty()),
{
    if consistent_with(pos, fouls.push(mv)) {
        assert(fouls.push(mv).last() == mv);
        assert forall|i: int| 0 <= i < fouls.len() implies !legal(pos, #[trigger] fouls[i]) by {
            assert(fouls.push(mv)[i] == fouls[i]);
        }
    }
}

/// The captures in a log grow by the own moves that took something, and by nothing else.
pub proof fn law_captures_are_counted(events: Seq<Event>, e: Event)
    ensures
        captures_in(events.push(e)) == captures_in(events) + (match e {
            Event::MyMove { move_number, usi, captured } => if captured is Some {
                1int
            } else {
                0
            },
            _ => 0int,
        }),
        captures_in(Seq::empty()) == 0,
{
    let hit = |e: Event| e matches Event::MyMove { move_number, usi, captured } && captured is Some;
    lemma_filter_push(events, e, hit);
    reveal(Seq::filter);
}

/// The weight with a property and the weight without it are the whole weight, and one sample more adds
/// its weight to one of them.
pub proof fn law_weights(samples: Seq<Sample>, s: Sample, p: spec_fn(PositionModel) -> bool)
    ensures
        weight_of(samples.push(s), p) == weight_of(samples, p) + (if p(s.pos@) {
            s.weight as int
        } else {
            0
        }),
        weight_of(Seq::empty(), p) == 0,
        weight_of(samples, p) + weight_of(samples, |m: PositionModel| !p(m)) == weight_of(
            samples,
            |m: PositionModel| true,
        ),
{
    lemma_weight_prefix(samples.push(s), samples, p, samples.len() as int);
    lemma_weight_parts(samples, p, samples.len() as int);
}

proof fn lemma_weight_prefix(a: Seq<Sample>, b: Seq<Sample>, p: spec_fn(PositionModel) -> bool, n: int)
    requires
        0 <= n <= a.len(),
        n <= b.len(),
        forall|i: int| 0 <= i < n ==> #[trigger] a[i] == b[i],
    ensures
        weight_where(a, p, n) == weight_where(b, p, n),
    decreases n,
{
    if n > 0 {
        lemma_weight_prefix(a, b, p, n - 1);
        assert(a[n - 1] == b[n - 1]);
    }
}

proof fn lemma_weight_parts(samples: Seq<Sample>, p: spec_fn(PositionModel) -> bool, n: int)
    requires
        0 <= n <= samples.len(),
    ensures
        weight_where(samples, p, n) + weight_where(samples, |m: PositionModel| !p(m), n)
            == weight_where(samples, |m: PositionModel| true, n),
    decreases n,
{
    if n > 0 {
        lemma_weight_parts(samples, p, n - 1);
    }
}

/// A role has the majority on a square where the samples that show it there weigh more than those that
/// do not.
pub proof fn law_majority(samples: Seq<Sample>, opp: Color, c: Coord, role: Role)
    ensures
        is_majority(samples, opp, c, role) <==> weight_of(
            samples,
            |m: PositionModel| m.at(c) == Some(Piece { color: opp, role }),
        ) > weight_of(samples, |m: PositionModel| m.at(c) != Some(Piece { color: opp, role })),
{
    let p = |m: PositionModel| crate::check_votes::stands(m, c, Piece { color: opp, role });
    lemma_weight_parts(samples, p, samples.len() as int);
    assert(p =~= (|m: PositionModel| m.at(c) == Some(Piece { color: opp, role })));
    assert((|m: PositionModel| !p(m)) =~= (|m: PositionModel| m.at(c) != Some(
        Piece { color: opp, role },
    )));
}

/// A sample votes for a supposed checker where the own king is in check in it and the opponent has such
/// a piece on the square.
pub proof fn law_votes(m: PositionModel, me: Color, h: Hypothesis)
    ensures
        votes_for(m, me, h) <==> checked(m, me) && (m.at(h.square) matches Some(p) && p.color != me
            && p.role == h.role),
{
}

/// The first place with a property: there is one where an item has it, and none before it does.
pub proof fn law_first_place(
    moves: Seq<PolicyMoveModel>,
    p: spec_fn(PolicyMoveModel) -> bool,
    n: int,
    k: int,
)
    requires
        0 <= k < n <= moves.len(),
    ensures
        p(moves[k]) ==> (first_with(moves, p, n) matches Some(i) && i <= k),
        first_with(moves, p, n) matches Some(i) ==> 0 <= i < n && p(moves[i]),
    decreases n,
{
    reveal_with_fuel(first_with, 2);
    if n > 1 {
        if k < n - 1 {
            law_first_place(moves, p, n - 1, k);
        } else {
            law_first_place(moves, p, n - 1, 0);
        }
    }
}

/// A probe at the checker takes an enemy piece that really attacks the king; one at a phantom goes to a
/// square where a checker is supposed and none is. Neither is a move of the king or a drop.
pub proof fn law_probes_at_checkers(
    m: PolicyMoveModel,
    truth: PositionModel,
    bot: Color,
    king: Coord,
    supposed: Seq<Coord>,
    from: Coord,
    to: Coord,
    promote: bool,
    role: Role,
)
    requires
        truth.wf(),
        is_on_board(to),
        king_of(truth, bot) == Some(king),
    ensures
        m.mv == (ShogiMove::Board { from, to, promote }) ==> {
            let gives = attacks_from(truth, to, king) && (truth.at(to) matches Some(p) && p.color
                != bot);
            &&& takes_truth(m, truth, bot) <==> !m.is_king && gives
            &&& takes_phantom(m, truth, bot, supposed) <==> !m.is_king && !gives && supposed.contains(
                to,
            )
        },
        m.mv == (ShogiMove::Drop { role, to }) ==> !takes_truth(m, truth, bot) && !takes_phantom(
            m,
            truth,
            bot,
            supposed,
        ),
{
}

/// A supposed checker is the true one where a piece of that role stands on the square and attacks the
/// king.
pub proof fn law_true_hypotheses(truth: PositionModel, bot: Color, king: Coord, h: Hypothesis)
    requires
        truth.wf(),
        king_of(truth, bot) == Some(king),
        is_on_board(h.square),
    ensures
        is_true_hypothesis(h, checker_list(truth, bot)) <==> attacks_from(truth, h.square, king) && (
        truth.at(h.square) matches Some(p) && p.color != bot && p.role == h.role),
{
    law_true_checkers(truth, bot, king, h.square, h.role);
}

/// The single checker is given where exactly one piece gives check, else nothing.
pub proof fn law_single_checker(truth: PositionModel, bot: Color)
    ensures
        single_checker(truth, bot).len() == (if checker_list(truth, bot).len() == 1 {
            1int
        } else {
            0
        }),
        forall|x: (Coord, Role)|
            single_checker(truth, bot).contains(x) ==> #[trigger] checker_list(truth, bot).contains(x),
{
}

/// What a move would do under a supposition: refused where it would be illegal; else it takes the
/// checker where it goes to its square, with the king or with another piece.
pub proof fn law_answers(m: crate::check::SolverModel, i: int, from: Coord, to: Coord, promote: bool)
    requires
        0 <= i < m.hypotheses.len(),
    ensures
        ({
            let mv = ShogiMove::Board { from, to, promote };
            let a = answer_of(m, i, mv);
            &&& a == Answer::Refused <==> !m.legal_if(i, mv)
            &&& a == Answer::Stays <==> m.legal_if(i, mv) && to != m.hypotheses[i].square
            &&& (a == Answer::KingTakes || a == Answer::Takes) <==> m.legal_if(i, mv) && to
                == m.hypotheses[i].square
            &&& a == Answer::KingTakes ==> m.moves_king(mv)
            &&& a == Answer::Takes ==> !m.moves_king(mv)
        }),
{
}

/// A text is a move of the king where it is a board move from the king's square.
pub proof fn law_king_moves(usi: Seq<char>, king: Coord, from: Coord, to: Coord, promote: bool, role: Role)
    ensures
        move_of_text(usi) == Some(ShogiMove::Board { from, to, promote }) ==> (moves_king(
            usi,
            Some(king),
        ) <==> from == king),
        move_of_text(usi) == Some(ShogiMove::Drop { role, to }) ==> !moves_king(usi, Some(king)),
        move_of_text(usi) is None ==> !moves_king(usi, Some(king)),
        !moves_king(usi, None),
{
}

/// Where the opponent's last move took a piece is what its last news said; other events do not change it.
pub proof fn law_last_taken(events: Seq<Event>, e: Event)
    ensures
        last_taken(events.push(e)) == (match e {
            Event::OpponentMoved { move_number, captured_at } => captured_at,
            _ => last_taken(events),
        }),
        last_taken(Seq::empty()) is None,
{
    assert(events.push(e).drop_last() =~= events);
}

/// The texts of the fouls of a turn are those of the last events, in order.
pub proof fn law_foul_texts(events: Seq<Event>, n: int, move_number: u32, usi: Seq<char>)
    requires
        0 <= n <= events.len(),
    ensures
        foul_texts(events.push(Event::MyFoul { move_number, usi }), n + 1) == foul_texts(
            events,
            n,
        ).push(usi),
        foul_texts(events, 0).len() == 0,
{
    assert(foul_texts(events.push(Event::MyFoul { move_number, usi }), n + 1) =~= foul_texts(
        events,
        n,
    ).push(usi));
}

/// A point is a turn of the bot in check, with what was played in it and before it: the move with the
/// number of the decision, unless the game ended there, and the one before.
pub proof fn law_points(moves: Seq<MoveRecord>, bot: Color, s: SnapshotModel)
    requires
        s.decision_id <= moves.len(),
    ensures
        point_of(moves, bot, s) is Some ==> s.side == bot && checked(s.pos, bot),
        point_of(moves, bot, s) matches Some(p) ==> {
            &&& p.truth == s.pos && p.bot == bot && p.terminal == s.terminal
            &&& p.move_number == s.pos.move_number
            &&& p.record_fouls.len() == s.fouls_this_turn
            &&& s.terminal ==> p.record_accepted is None
            &&& !s.terminal && s.decision_id < moves.len() ==> p.record_accepted == Some(
                moves[s.decision_id as int].usi@,
            )
            &&& s.decision_id > 0 ==> p.opp_last_usi == Some(moves[s.decision_id - 1].usi@)
            &&& s.decision_id == 0 ==> p.opp_last_usi is None
            &&& p.opp_captured_at == last_taken(s.logs.of(bot))
        },
{
}

/// The turns in check are counted one by one, and of them those with which the game ends.
pub proof fn law_attrition(list: Seq<SnapshotModel>, s: SnapshotModel, bot: Color)
    ensures
        ({
            let a = attrition_of(list, bot);
            let b = attrition_of(list.push(s), bot);
            let hit = s.side == bot && checked(s.pos, bot);
            &&& b.0 == a.0 + (if hit {
                1int
            } else {
                0
            })
            &&& b.1 == a.1 + (if hit && s.terminal {
                1int
            } else {
                0
            })
            &&& a.2 <= b.2 <= a.2 + 1
            &&& !hit ==> b.2 == a.2
        }),
{
    lemma_filter_push(list, s, |s: SnapshotModel| in_danger(s, bot));
    lemma_filter_push(list, s, |s: SnapshotModel| in_danger(s, bot) && s.terminal);
    lemma_filter_push(
        list,
        s,
        |s: SnapshotModel|
            in_danger(s, bot) && crate::check_economy::turn_entry(
                crate::check_belief::post_of(s),
                bot,
                s.fouls_this_turn,
            ) is None,
    );
}

/// The fouls made and the fouls left are together those that lose the game, as long as it is not lost; one
/// foul more leaves one less.
pub proof fn law_fouls_left(you: u32)
    requires
        you < MAX_FOULS,
    ensures
        fouls_left(you) + you == MAX_FOULS,
        fouls_left((you + 1) as u32) == fouls_left(you) - 1,
        fouls_left(MAX_FOULS) == 0,
{
}

/// Before any capture the opponent is taken to have all twenty pieces on the board; each capture takes one
/// away, until one is left.
pub proof fn law_opponent_on_the_board(captures: nat)
    ensures
        left_of_twenty(0) == 20,
        left_of_twenty(captures + 1) == (if left_of_twenty(captures) > 1 {
            left_of_twenty(captures) - 1
        } else {
            1
        }),
{
}

/// Candidates are listed by falling score, those with one score in the order of their texts.
pub proof fn law_priced_in_order(ranking: Seq<(String, i64)>, king: Option<Coord>, i: int, j: int)
    requires
        0 <= i < j < ranking.len(),
    ensures
        ({
            let a = priced_order(ranking, king)[i];
            let b = priced_order(ranking, king)[j];
            a.key >= b.key && (a.key == b.key ==> !comes_before(b.usi, a.usi))
        }),
{
    let le = |a: PricedModel, b: PricedModel| priced_before(a, b);
    let all = Seq::new(ranking.len(), |i: int| priced_at(ranking, king, i));
    assert forall|a: PricedModel, b: PricedModel| #[trigger] le(a, b) || le(b, a) by {
        lemma_one_comes_first(a.usi, b.usi);
    }
    assert forall|a: PricedModel, b: PricedModel, c: PricedModel| #[trigger] le(a, b) && #[trigger] le(
        b,
        c,
    ) implies le(a, c) by {
        if a.key == b.key && b.key == c.key {
            lemma_not_before_chain(a.usi, b.usi, c.usi);
        }
    }
    lemma_sorted_by_orders(all, le);
    lemma_sorted_by_len(all, le);
    assert(le(sorted_by(all, le)[i], sorted_by(all, le)[j]));
}

/// A candidate of a ranking keeps its text, its place and its score.
pub proof fn law_priced(ranking: Seq<(String, i64)>, king: Option<Coord>, i: int)
    requires
        0 <= i < ranking.len(),
    ensures
        ({
            let p = priced_at(ranking, king, i);
            p.usi == ranking[i].0@ && p.key == ranking[i].1 && p.place == i && p.is_king == moves_king(
                ranking[i].0@,
                king,
            )
        }),
{
}

} // verus!
