//! What is measured in finished games: pawns and what is known of them, chances to take back, and the
//! turns that are played on.

use crate::board::{is_on_board, Coord};
use crate::geometry::ahead;
use crate::lists::{
    lemma_filter_contains_iff, lemma_sorted_by_keeps, lemma_sorted_by_len, lemma_sorted_by_orders, sorted_by,
};
use crate::mate_points::{
    covered, dangers_before, is_candidate, is_kept, keeps_game, order_head, spaced_out, state_of, text_order,
    tried_in, units_of,
    without_repeats, ORDER_LEN,
};
use crate::continuation::{tried_at_end, Arm};
use crate::observation::Event;
use crate::pawn_push::{
    event_of, first_behind, front, in_group, known_after, next_push, push_of, ExposureModel, PawnEvent,
    PushGroup,
};
use crate::protocol::{other_color, Color, MoveRecord, Role};
use crate::recapture::{
    added, best_profit, chance_at, first_ranked, goes_to, is_missed, is_profitable, measured, prize, profit_of,
    role_place, static_best, static_rank, summed, sums_fit, taken_at, has_room, Measure, RankedModel, Summary,
    WORTH_IT,
};
use crate::replay::DecisionModel;
use crate::shogi::{
    after_move, attacked_by, initial_model, legal_list, move_of_text, text_of_move, Piece, PositionModel,
    ShogiMove,
};
use crate::text::{comes_before, lemma_not_before_chain, lemma_one_comes_first};
use vstd::prelude::*;

verus! {

/// The square in front of another is the next one ahead on its file.
pub proof fn law_front(c: Coord, a: Coord, s: Color)
    requires
        is_on_board(c),
    ensures
        front(c, s) == Some(a) <==> is_on_board(a) && a.file == c.file && ahead(c, a, s) == 1,
{
}

/// The square `k` ranks behind another.
pub open spec fn rear(c: Coord, s: Color, k: int) -> Coord {
    Coord {
        file: c.file,
        rank: (match s {
            Color::Sente => c.rank + k,
            Color::Gote => c.rank - k,
        }) as i8,
    }
}

/// What stands behind a square is the first piece there, whatever it is: all squares between are empty.
pub proof fn law_first_behind(pos: PositionModel, c: Coord, s: Color, n: int)
    requires
        is_on_board(c),
        1 <= n <= 9,
        forall|k: int| 1 <= k < n ==> is_on_board(#[trigger] rear(c, s, k)) && pos.at(rear(c, s, k)) is None,
    ensures
        is_on_board(rear(c, s, n)) && pos.at(rear(c, s, n)) is Some ==> first_behind(pos, c, s) == pos.at(
            rear(c, s, n),
        ),
        !is_on_board(rear(c, s, n)) ==> first_behind(pos, c, s) is None,
    decreases n,
{
    let b = rear(c, s, 1);
    if n > 1 {
        assert(is_on_board(b) && pos.at(b) is None);
        assert forall|k: int| 1 <= k < n - 1 implies is_on_board(#[trigger] rear(b, s, k)) && pos.at(
            rear(b, s, k),
        ) is None by {
            assert(rear(b, s, k) == rear(c, s, k + 1));
        }
        assert(rear(b, s, n - 1) == rear(c, s, n));
        law_first_behind(pos, b, s, n - 1);
        assert(front(c, other_color(s)) == Some(b));
    } else {
        if is_on_board(b) {
            assert(front(c, other_color(s)) == Some(b));
        } else {
            assert(front(c, other_color(s)) is None);
        }
    }
}

/// What is known of where a side's pieces stand: a piece gives itself away where it takes, and is lost
/// sight of where it moves on without taking, is dropped anew or is taken.
pub proof fn law_given_away(
    e: ExposureModel,
    pos: PositionModel,
    s: Color,
    from: Coord,
    to: Coord,
    promote: bool,
    role: Role,
    c: Coord,
)
    requires
        e.revealed.len() == 2,
        e.touched.len() == 2,
        from != to,
    ensures
        ({
            let i: int = if s == Color::Sente {
                0
            } else {
                1
            };
            let b = known_after(e, pos, s, ShogiMove::Board { from, to, promote });
            let d = known_after(e, pos, s, ShogiMove::Drop { role, to });
            &&& b.revealed[i].contains(c) <==> (c == to && pos.at(to) is Some) || (c != to && c != from
                && e.revealed[i].contains(c))
            &&& b.revealed[1 - i].contains(c) <==> c != to && e.revealed[1 - i].contains(c)
            &&& b.touched[i].contains(c) <==> c == to || c == from || e.touched[i].contains(c)
            &&& b.touched[1 - i] == e.touched[1 - i]
            &&& d.revealed[i].contains(c) <==> c != to && e.revealed[i].contains(c)
            &&& d.revealed[1 - i] == e.revealed[1 - i]
            &&& d.touched[i].contains(c) <==> c == to || e.touched[i].contains(c)
            &&& d.touched[1 - i] == e.touched[1 - i]
        }),
{
}

/// A pawn is pushed where the move of the turn takes it from its square.
pub proof fn law_pushes(moves: Seq<MoveRecord>, d: DecisionModel, from: Coord, to: Coord, promote: bool)
    requires
        d.plies < moves.len(),
        move_of_text(moves[d.plies as int].usi@) == Some(ShogiMove::Board { from, to, promote }),
    ensures
        push_of(moves, d) == (if d.pos.at(from) == Some(Piece { color: d.side, role: Role::Pawn }) {
            Some((from, promote))
        } else {
            None
        }),
{
}

/// The next push of a pawn is found at the first turn of its side that makes it; each turn of the side
/// before it counts one, those of the other side count nothing.
pub proof fn law_next_push(
    ds: Seq<DecisionModel>,
    moves: Seq<MoveRecord>,
    s: Color,
    sq: Coord,
    i: int,
    n: int,
)
    requires
        0 <= i < ds.len(),
    ensures
        ds[i].side != s ==> next_push(ds, moves, s, sq, i, n) == next_push(ds, moves, s, sq, i + 1, n),
        ds[i].side == s && (push_of(moves, ds[i]) matches Some(p) && p.0 == sq) ==> next_push(
            ds,
            moves,
            s,
            sq,
            i,
            n,
        ) == Some((n, (push_of(moves, ds[i])->0).1)),
        ds[i].side == s && !(push_of(moves, ds[i]) matches Some(p) && p.0 == sq) ==> next_push(
            ds,
            moves,
            s,
            sq,
            i,
            n,
        ) == next_push(ds, moves, s, sq, i + 1, n + 1),
        next_push(ds, moves, s, sq, ds.len() as int, n) is None,
{
}

/// What is noted of a pawn of the side to move that no own piece stands before.
pub proof fn law_pawn_events(
    ds: Seq<DecisionModel>,
    moves: Seq<MoveRecord>,
    k: usize,
    bot: Option<Color>,
    i: int,
    sq: Coord,
    p: Piece,
    a: Coord,
)
    requires
        0 <= i < ds.len() <= usize::MAX,
        is_on_board(sq),
        is_on_board(a),
        a.file == sq.file,
        ahead(sq, a, ds[i].side) == 1,
    ensures
        ({
            let d = ds[i];
            let s = d.side;
            let push = next_push(ds, moves, s, sq, i, 0);
            let back = first_behind(d.pos, sq, s);
            &&& event_of(ds, moves, k, bot, i, (sq, p)) is Some <==> p.role == Role::Pawn && p.color == s
                && (d.pos.at(a) is None || d.pos.at(a)->0.color != s)
            &&& event_of(ds, moves, k, bot, i, (sq, p)) matches Some(e) ==> {
                &&& e.decision == i && e.square == sq
                &&& e.now <==> push_of(moves, d) is Some && (push_of(moves, d)->0).0 == sq
                &&& e.within is Some <==> push is Some && (push->0).0 <= k
                &&& e.within is Some && (push->0).0 >= 0 ==> e.within->0 == (push->0).0
                &&& e.promoted <==> e.within is Some && (push->0).1
                &&& e.advanced <==> initial_model().at(sq) != Some(Piece { color: s, role: Role::Pawn })
                &&& e.backed_lance <==> back == Some(Piece { color: s, role: Role::Lance })
                &&& e.backed_rook <==> back is Some && back->0.color == s && (back->0.role == Role::Rook
                    || back->0.role == Role::Dragon)
                &&& e.ahead_empty <==> d.pos.at(a) is None
                &&& e.ahead_attacked <==> attacked_by(d.pos, a, other_color(s))
                &&& e.zone_next <==> (s == Color::Sente && a.rank <= 3) || (s == Color::Gote && a.rank
                    >= 7)
                &&& e.human <==> bot == Some(other_color(s))
            }
        }),
{
    law_front(sq, a, ds[i].side);
    crate::board::lemma_square_index(sq, 0);
}

/// The groups of pawns: by whether the pawn is known, whether it has moved, and what stands behind it.
pub proof fn law_pawn_groups(e: PawnEvent)
    ensures
        in_group(e, PushGroup::All),
        in_group(e, PushGroup::Home) <==> !e.revealed && !e.advanced,
        in_group(e, PushGroup::Revealed) <==> e.revealed,
        in_group(e, PushGroup::Advanced) <==> in_group(e, PushGroup::AdvancedLance) || in_group(
            e,
            PushGroup::AdvancedRook,
        ) || in_group(e, PushGroup::AdvancedUnbacked),
        in_group(e, PushGroup::AdvancedLance) ==> e.backed_lance,
        in_group(e, PushGroup::AdvancedRook) ==> e.backed_rook && !e.backed_lance,
        in_group(e, PushGroup::AdvancedUnbacked) ==> !e.backed_rook && !e.backed_lance,
        in_group(e, PushGroup::AdvancedAttacked) <==> in_group(e, PushGroup::Advanced) && e.ahead_attacked,
        in_group(e, PushGroup::RevealedAdvanced) <==> e.revealed && e.advanced,
        in_group(e, PushGroup::RevealedOpen) <==> in_group(e, PushGroup::RevealedOpenAttacked)
            || in_group(e, PushGroup::RevealedOpenSafe),
        in_group(e, PushGroup::RevealedOpen) <==> e.revealed && e.ahead_empty,
        in_group(e, PushGroup::RevealedOpenAttacked) ==> e.ahead_attacked,
        in_group(e, PushGroup::RevealedOpenSafe) ==> !e.ahead_attacked,
        in_group(e, PushGroup::RevealedLance) ==> e.backed_lance,
        in_group(e, PushGroup::RevealedRook) ==> e.backed_rook && !e.backed_lance,
        in_group(e, PushGroup::RevealedUnbacked) ==> !e.backed_rook && !e.backed_lance,
        in_group(e, PushGroup::RevealedZone) <==> e.revealed && e.zone_next,
        in_group(e, PushGroup::RevealedHuman) ==> e.human,
        in_group(e, PushGroup::RevealedBot) ==> !e.human,
{
}

/// A text takes back on a square where it is a move of a piece on the board there.
pub proof fn law_taking_back(usi: Seq<char>, from: Coord, to: Coord, promote: bool, role: Role, c: Coord)
    ensures
        move_of_text(usi) == Some(ShogiMove::Board { from, to, promote }) ==> (goes_to(usi, c) <==> to == c),
        move_of_text(usi) == Some(ShogiMove::Drop { role, to }) ==> !goes_to(usi, c),
        move_of_text(usi) is None ==> !goes_to(usi, c),
{
}

/// There is a chance to take back where the opponent's move just before took a piece, on that square.
pub proof fn law_chances(
    ds: Seq<DecisionModel>,
    moves: Seq<MoveRecord>,
    bot: Color,
    i: int,
    from: Coord,
    to: Coord,
    promote: bool,
)
    requires
        0 < i < ds.len(),
        ds[i - 1].plies < moves.len(),
        move_of_text(moves[ds[i - 1].plies as int].usi@) == Some(ShogiMove::Board { from, to, promote }),
    ensures
        chance_at(ds, moves, bot, i) == (if ds[i].side == bot && ds[i - 1].side == other_color(bot) && ds[i
            - 1].pos.at(to) is Some {
            Some((i, to))
        } else {
            None
        }),
        chance_at(ds, moves, bot, 0) is None,
        taken_at(moves, ds[i - 1]) is Some <==> ds[i - 1].pos.at(to) is Some,
{
}

/// The roles have different places in a table.
pub proof fn law_role_places(a: Role, b: Role)
    ensures
        role_place(a) == role_place(b) <==> a == b,
        0 <= role_place(a) < 14,
{
}

/// Taking back wins what stands on the square, and where the opponent can take there again it costs the
/// piece that took.
pub proof fn law_profits(
    pos: PositionModel,
    bot: Color,
    to: Coord,
    worth: Seq<u32>,
    from: Coord,
    promote: bool,
    won: Piece,
    own: Piece,
)
    requires
        pos.at(to) == Some(won),
        pos.at(from) == Some(own),
        won.color != bot,
        worth.len() == 14,
    ensures
        ({
            let mv = ShogiMove::Board { from, to, promote };
            let p = profit_of(pos, bot, to, worth, mv);
            &&& p is Some
            &&& attacked_by(after_move(pos, mv), to, other_color(bot)) ==> p->0 + worth[role_place(own.role)]
                == worth[role_place(won.role)]
            &&& !attacked_by(after_move(pos, mv), to, other_color(bot)) ==> p->0
                == worth[role_place(won.role)]
            &&& prize(pos, bot, from, worth) == (if own.color == bot {
                0
            } else {
                worth[role_place(own.role)] as int
            })
        }),
{
}

/// The best profit is that of one of the moves, and no move has a higher one.
pub proof fn law_best_profit(
    pos: PositionModel,
    bot: Color,
    target: Coord,
    worth: Seq<u32>,
    moves: Seq<ShogiMove>,
    n: int,
    k: int,
)
    requires
        0 <= k < n <= moves.len(),
    ensures
        profit_of(pos, bot, target, worth, moves[k]) matches Some(p) ==> (best_profit(
            pos,
            bot,
            target,
            worth,
            moves,
            n,
        ) matches Some(b) && p <= b),
        best_profit(pos, bot, target, worth, moves, n) matches Some(b) ==> exists|j: int|
            0 <= j < n && #[trigger] profit_of(pos, bot, target, worth, moves[j]) == Some(b),
    decreases n,
{
    reveal_with_fuel(best_profit, 2);
    assert(profit_of(pos, bot, target, worth, moves[n - 1]) == profit_of(
        pos,
        bot,
        target,
        worth,
        moves[n - 1],
    ));
    if n > 1 {
        if k < n - 1 {
            law_best_profit(pos, bot, target, worth, moves, n - 1, k);
        } else {
            law_best_profit(pos, bot, target, worth, moves, n - 1, 0);
        }
    }
}

/// Taking back is worth it where some legal move onto the square wins more than half a pawn.
pub proof fn law_profitable(pos: PositionModel, bot: Color, target: Coord, worth: Seq<u32>)
    ensures
        is_profitable(pos, bot, target, worth) <==> exists|j: int|
            0 <= j < legal_list(pos).len() && (#[trigger] profit_of(
                pos,
                bot,
                target,
                worth,
                legal_list(pos)[j],
            ) matches Some(p) && p > 500),
        WORTH_IT == 500,
{
    let all = legal_list(pos);
    if all.len() > 0 {
        law_best_profit(pos, bot, target, worth, all, all.len() as int, 0);
    }
    if exists|j: int|
        0 <= j < all.len() && (#[trigger] profit_of(pos, bot, target, worth, all[j]) matches Some(p) && p
            > 500) {
        let j = choose|j: int|
            0 <= j < all.len() && (#[trigger] profit_of(pos, bot, target, worth, all[j]) matches Some(p)
                && p > 500);
        law_best_profit(pos, bot, target, worth, all, all.len() as int, j);
    }
}

proof fn lemma_first_ranked(ranking: Seq<RankedModel>, p: spec_fn(RankedModel) -> bool, n: int, k: int)
    requires
        0 <= n <= k < ranking.len(),
    ensures
        p(ranking[k]) ==> (first_ranked(ranking, p, n) matches Some(i) && i <= k),
        first_ranked(ranking, p, n) matches Some(i) ==> n <= i < ranking.len() && p(ranking[i]),
    decreases ranking.len() - n,
{
    if !p(ranking[n]) {
        if n < k {
            lemma_first_ranked(ranking, p, n + 1, k);
        } else if n + 1 < ranking.len() {
            lemma_first_ranked(ranking, p, n + 1, n + 1);
        }
    }
}

proof fn lemma_static_best_leads(ranking: Seq<RankedModel>, target: Coord, n: int, k: int)
    requires
        0 <= k < n <= ranking.len(),
    ensures
        static_best(ranking, target, n) matches Some(b) ==> 0 <= b < n && goes_to(ranking[b].usi, target),
        goes_to(ranking[k].usi, target) ==> (static_best(ranking, target, n) matches Some(b)
            && ranking[k].static_key <= ranking[b].static_key),
    decreases n,
{
    reveal_with_fuel(static_best, 2);
    if n > 1 {
        if k < n - 1 {
            lemma_static_best_leads(ranking, target, n - 1, k);
        } else {
            lemma_static_best_leads(ranking, target, n - 1, 0);
        }
    }
}

/// A ranking is measured where the choice and a move that takes back are among its candidates. The place
/// of taking back is that of the first such move; by static score it is that of the highest one; whether
/// it was chosen goes by where the choice leads.
pub proof fn law_measures(ranking: Seq<RankedModel>, chosen: Seq<char>, target: Coord, k: int, c: int)
    requires
        0 <= k < ranking.len(),
        0 <= c < ranking.len(),
        goes_to(ranking[k].usi, target),
        ranking[c].usi == chosen,
    ensures
        measured(ranking, chosen, target) matches Some(m) && {
            let b = static_best(ranking, target, ranking.len() as int);
            &&& 0 <= m.0 <= k && goes_to(ranking[m.0].usi, target) && m.4 == ranking[m.0].depth2
            &&& 0 <= m.2 <= c && ranking[m.2].usi == chosen
            &&& m.3 == goes_to(chosen, target)
            &&& b is Some && ranking[k].static_key <= ranking[b->0].static_key && goes_to(
                ranking[b->0].usi,
                target,
            )
            &&& m.1 == static_rank(ranking, b->0, ranking.len() as int)
        },
{
    lemma_first_ranked(ranking, |r: RankedModel| goes_to(r.usi, target), 0, k);
    lemma_first_ranked(ranking, |r: RankedModel| r.usi == chosen, 0, c);
    lemma_static_best_leads(ranking, target, ranking.len() as int, k);
}

/// The place by static score counts the candidates with a higher score, and of those with the same score
/// the ones listed earlier.
pub proof fn law_static_places(ranking: Seq<RankedModel>, b: int, n: int)
    requires
        0 <= b < ranking.len(),
        0 < n <= ranking.len(),
    ensures
        static_rank(ranking, b, n) == static_rank(ranking, b, n - 1) + (if ranking[n - 1].static_key
            > ranking[b].static_key || (ranking[n - 1].static_key == ranking[b].static_key && n - 1 < b) {
            1int
        } else {
            0
        }),
        static_rank(ranking, b, 0) == 0,
{
}

/// Two summaries taken together are those of all their chances: counting one more before or after adding
/// comes to the same.
pub proof fn law_summaries_add_up(s: Summary, o: Summary, worth_it: bool, m: Option<Measure>)
    requires
        has_room(s, worth_it, m),
        sums_fit(s, o),
        sums_fit(summed(s, worth_it, m), o),
        has_room(added(s, o), worth_it, m),
    ensures
        added(summed(s, worth_it, m), o) == summed(added(s, o), worth_it, m),
        added(s, o) == added(o, s),
{
}

/// What one more chance adds: one case; where it could be taken, the places of the candidate counted from
/// one; and whether it was chosen, looked at deeper, and worth it.
pub proof fn law_chances_are_summed(s: Summary, worth_it: bool, x: Measure)
    requires
        has_room(s, worth_it, Some(x)),
        has_room(s, worth_it, None),
    ensures
        ({
            let t = summed(s, worth_it, Some(x));
            let u = summed(s, worth_it, None);
            let one = |b: bool| -> int {
                if b {
                    1int
                } else {
                    0
                }
            };
            &&& t.cases == s.cases + 1 && u.cases == s.cases + 1
            &&& t.with_candidate == s.with_candidate + 1 && u.with_candidate == s.with_candidate
            &&& t.chosen_recapture == s.chosen_recapture + one(x.took) && u.chosen_recapture
                == s.chosen_recapture
            &&& t.final_rank_sum == s.final_rank_sum + x.final_rank + 1 && u.final_rank_sum
                == s.final_rank_sum
            &&& t.static_rank_sum == s.static_rank_sum + x.static_rank + 1 && u.static_rank_sum
                == s.static_rank_sum
            &&& t.depth2_in == s.depth2_in + one(x.depth2) && u.depth2_in == s.depth2_in
            &&& t.truth_profitable == s.truth_profitable + one(worth_it) && u.truth_profitable
                == t.truth_profitable
            &&& t.truth_profitable_taken == s.truth_profitable_taken + one(worth_it && x.took)
                && u.truth_profitable_taken == s.truth_profitable_taken
        }),
        is_missed(worth_it, Some(x)) <==> worth_it && !x.took,
        !is_missed(worth_it, None),
{
}

/// The safe moves a player can think of are the safe moves with the text of a candidate, in the order of
/// their texts.
pub proof fn law_covered(safe: Seq<ShogiMove>, candidates: Seq<ShogiMove>, t: Seq<char>, i: int, j: int)
    ensures
        covered(safe, candidates).contains(t) <==> is_candidate(candidates, t) && exists|k: int|
            0 <= k < safe.len() && text_of_move(#[trigger] safe[k]) == t,
        0 <= i < j < covered(safe, candidates).len() ==> !comes_before(
            covered(safe, candidates)[j],
            covered(safe, candidates)[i],
        ),
{
    let good = |mv: ShogiMove| is_candidate(candidates, text_of_move(mv));
    let le = |a: Seq<char>, b: Seq<char>| text_order(a, b);
    let kept = safe.filter(good);
    let texts = kept.map_values(|mv: ShogiMove| text_of_move(mv));
    let out = covered(safe, candidates);
    lemma_sorted_by_keeps(texts, le);
    lemma_sorted_by_len(texts, le);
    assert forall|a: Seq<char>, b: Seq<char>| #[trigger] le(a, b) || le(b, a) by {
        lemma_one_comes_first(a, b);
    }
    assert forall|a: Seq<char>, b: Seq<char>, c: Seq<char>| #[trigger] le(a, b) && #[trigger] le(
        b,
        c,
    ) implies le(a, c) by {
        lemma_not_before_chain(a, b, c);
    }
    lemma_sorted_by_orders(texts, le);
    texts.to_multiset_ensures();
    out.to_multiset_ensures();
    assert(out.contains(t) <==> texts.contains(t)) by {
        assert(out.to_multiset().count(t) == texts.to_multiset().count(t));
    }
    if texts.contains(t) {
        let k = choose|k: int| 0 <= k < texts.len() && texts[k] == t;
        assert(kept.contains(kept[k]));
        lemma_filter_contains_iff(safe, good, kept[k]);
        let n = choose|n: int| 0 <= n < safe.len() && safe[n] == kept[k];
        assert(text_of_move(safe[n]) == t);
    }
    if is_candidate(candidates, t) && exists|k: int|
        0 <= k < safe.len() && text_of_move(#[trigger] safe[k]) == t {
        let k = choose|k: int| 0 <= k < safe.len() && text_of_move(#[trigger] safe[k]) == t;
        assert(safe.contains(safe[k]));
        lemma_filter_contains_iff(safe, good, safe[k]);
        let n = choose|n: int| 0 <= n < kept.len() && kept[n] == safe[k];
        assert(texts[n] == t);
    }
    if 0 <= i < j < out.len() {
        assert(le(sorted_by(texts, le)[i], sorted_by(texts, le)[j]));
    }
}

/// A list without repeats has the same texts, and no text stands right behind its like.
pub proof fn law_without_repeats(list: Seq<Seq<char>>, t: Seq<char>, i: int)
    ensures
        without_repeats(list).contains(t) <==> list.contains(t),
        0 < i < without_repeats(list).len() ==> without_repeats(list)[i - 1] != without_repeats(list)[i],
        list.len() > 0 ==> without_repeats(list).len() > 0 && without_repeats(list).last() == list.last(),
    decreases list.len(),
{
    if list.len() > 0 {
        let head = list.drop_last();
        let front = without_repeats(head);
        let out = without_repeats(list);
        law_without_repeats(head, t, i);
        assert(list.contains(t) <==> head.contains(t) || t == list.last()) by {
            if head.contains(t) {
                let k = choose|k: int| 0 <= k < head.len() && head[k] == t;
                assert(list[k] == t);
            }
            if t == list.last() {
                assert(list[list.len() - 1] == t);
            }
            if list.contains(t) {
                let k = choose|k: int| 0 <= k < list.len() && list[k] == t;
                if k < head.len() {
                    assert(head[k] == t);
                }
            }
        }
        if out == front {
            assert(front.last() == list.last());
            assert(front[front.len() - 1] == list.last());
        } else {
            assert(out == front.push(list.last()));
            assert(out.contains(t) <==> front.contains(t) || t == list.last()) by {
                if front.contains(t) {
                    let k = choose|k: int| 0 <= k < front.len() && front[k] == t;
                    assert(out[k] == t);
                }
                if t == list.last() {
                    assert(out[front.len() as int] == t);
                }
                if out.contains(t) {
                    let k = choose|k: int| 0 <= k < out.len() && out[k] == t;
                    if k < front.len() {
                        assert(front[k] == t);
                    }
                }
            }
        }
    }
}

/// A list that is thinned out keeps its first text, takes no text twice, and leaves gaps that differ by
/// one at most: text `k` of `max` stands at the same share of the list, rounded down.
pub proof fn law_spaced_out(list: Seq<Seq<char>>, max: int, k: int, i: int)
    requires
        0 < max <= list.len(),
        0 <= k < max,
        0 <= i < list.len(),
        i * max <= k * list.len() < (i + 1) * max,
    ensures
        spaced_out(list, max).len() == max,
        spaced_out(list, max)[k] == list[i],
        spaced_out(list, max)[0] == list[0],
{
    let n = list.len() as int;
    assert(k * n / max == i) by (nonlinear_arith)
        requires
            max > 0,
            i * max <= k * n < (i + 1) * max,
    ;
    assert(0 * n / max == 0) by (nonlinear_arith)
        requires
            max > 0,
    ;
}

/// Where the points of danger are within the limit everything is kept; else a point is kept where its
/// game has one of the first of them.
pub proof fn law_kept_points(danger: Seq<bool>, games: Seq<String>, limit: int, i: int, j: int)
    requires
        danger.len() == games.len(),
        0 <= i < danger.len(),
        0 <= j < danger.len(),
    ensures
        dangers_before(danger, danger.len() as int) <= limit ==> is_kept(danger, games, limit, i),
        danger[j] && dangers_before(danger, j) < limit && games[j]@ == games[i]@ ==> is_kept(
            danger,
            games,
            limit,
            i,
        ),
        is_kept(danger, games, limit, i) && dangers_before(danger, danger.len() as int) > limit ==> exists|
            m: int,
        |
            #![trigger danger[m]]
            0 <= m < danger.len() && danger[m] && dangers_before(danger, m) < limit && games[m]@
                == games[i]@,
        dangers_before(danger, j + 1) == dangers_before(danger, j) + (if danger[j] {
            1int
        } else {
            0
        }),
        dangers_before(danger, 0) == 0,
{
    if danger[j] && dangers_before(danger, j) < limit && games[j]@ == games[i]@ {
        assert(keeps_game(danger, limit, j));
    }
    if is_kept(danger, games, limit, i) && dangers_before(danger, danger.len() as int) > limit {
        let m = choose|m: int|
            0 <= m < danger.len() && #[trigger] keeps_game(danger, limit, m) && games[m]@ == games[i]@;
        assert(danger[m]);
    }
}

/// The head of an order is its beginning, twelve texts at most.
pub proof fn law_order_heads(order: Seq<String>, i: int)
    ensures
        order_head(order).len() == (if order.len() < 12 {
            order.len() as int
        } else {
            12
        }),
        0 <= i < order_head(order).len() ==> order_head(order)[i] == order[i]@,
        ORDER_LEN == 12,
{
}

/// The continuations of a decision: one with the move of the game, one with each safe move, and one for
/// each policy that has an order.
pub proof fn law_units(
    played: Seq<char>,
    safe: Seq<String>,
    strict: Seq<String>,
    all: Seq<String>,
    plain: Seq<String>,
    i: int,
)
    requires
        0 <= i < safe.len(),
    ensures
        ({
            let u = units_of(played, safe, strict, all, plain);
            let one = |l: Seq<String>| -> int {
                if l.len() > 0 {
                    1int
                } else {
                    0
                }
            };
            let n = 1 + safe.len();
            &&& u.len() == n + one(strict) + one(all) + one(plain)
            &&& u[0] == (Arm::Baseline, seq![played])
            &&& u[1 + i] == (Arm::Oracle, seq![safe[i]@])
            &&& strict.len() > 0 ==> u[n as int] == (Arm::PolicyStrict, order_head(strict))
            &&& all.len() > 0 ==> u[n + one(strict)] == (Arm::PolicyAll, order_head(all))
            &&& plain.len() > 0 ==> u[n + one(strict) + one(all)] == (Arm::PolicyW0, order_head(plain))
        }),
{
}

proof fn lemma_tried(events: Seq<Event>, n: int, found: Set<Seq<char>>, size: int, t: Seq<char>)
    requires
        0 <= size <= n,
        n - size <= events.len(),
        forall|i: int| events.len() - (n - size) <= i < events.len() ==> (#[trigger] events[i]) is MyFoul,
        forall|i: int|
            events.len() - (n - size) <= i < events.len() ==> !found.contains((#[trigger] events[i])->MyFoul_usi),
        forall|i: int, j: int|
            events.len() - (n - size) <= i < j < events.len() ==> (#[trigger] events[i])->MyFoul_usi != (
            #[trigger] events[j])->MyFoul_usi,
    ensures
        tried_at_end(events, n, found, size).contains(t) <==> found.contains(t) || exists|i: int|
            events.len() - (n - size) <= i < events.len() && (#[trigger] events[i])->MyFoul_usi == t,
    decreases events.len(),
{
    if size < n {
        let head = events.drop_last();
        let last = events[events.len() - 1];
        let usi = last->MyFoul_usi;
        let more = found.insert(usi);
        assert(last is MyFoul && !found.contains(usi));
        assert forall|i: int| head.len() - (n - size - 1) <= i < head.len() implies (#[trigger] head[i]) is MyFoul
            && !more.contains(head[i]->MyFoul_usi) by {
            assert(head[i] == events[i]);
            assert(events[i]->MyFoul_usi != events[events.len() - 1]->MyFoul_usi);
        }
        assert forall|i: int, j: int| head.len() - (n - size - 1) <= i < j < head.len() implies (
        #[trigger] head[i])->MyFoul_usi != (#[trigger] head[j])->MyFoul_usi by {
            assert(head[i] == events[i] && head[j] == events[j]);
        }
        lemma_tried(head, n, more, size + 1, t);
        let low = events.len() - (n - size);
        if exists|i: int| low <= i < head.len() && (#[trigger] head[i])->MyFoul_usi == t {
            let i = choose|i: int| low <= i < head.len() && (#[trigger] head[i])->MyFoul_usi == t;
            assert(events[i]->MyFoul_usi == t);
        }
        if exists|i: int| low <= i < events.len() && (#[trigger] events[i])->MyFoul_usi == t {
            let i = choose|i: int| low <= i < events.len() && (#[trigger] events[i])->MyFoul_usi == t;
            if i < head.len() {
                assert(head[i]->MyFoul_usi == t);
            }
        }
    }
}

/// The attempts set aside at a decision are those of the fouls of its turn, which are the last events of
/// the side.
pub proof fn law_tried_in(d: DecisionModel, t: Seq<char>)
    requires
        ({
            let log = d.logs.of(d.side);
            let low = log.len() - d.fouls_this_turn;
            &&& low >= 0
            &&& forall|i: int| low <= i < log.len() ==> (#[trigger] log[i]) is MyFoul
            &&& forall|i: int, j: int|
                low <= i < j < log.len() ==> (#[trigger] log[i])->MyFoul_usi != (#[trigger] log[j])->MyFoul_usi
        }),
    ensures
        tried_in(d).contains(t) <==> exists|i: int|
            d.logs.of(d.side).len() - d.fouls_this_turn <= i < d.logs.of(d.side).len() && (
            #[trigger] d.logs.of(d.side)[i])->MyFoul_usi == t,
        state_of(d).pos == d.pos && state_of(d).logs == d.logs && state_of(d).fouls == d.fouls && state_of(
            d,
        ).plies == d.plies,
{
    lemma_tried(d.logs.of(d.side), d.fouls_this_turn as int, Set::empty(), 0, t);
}

} // verus!
