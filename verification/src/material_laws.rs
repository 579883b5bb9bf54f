//! What the moves of a game do to the material, and what lists made from whole games hold.

use crate::board::{all_squares, lemma_square_index, square_at, square_index, Coord};
use crate::check_belief::{point_of, points_of};
use crate::check_policy::{balance, holdings};
use crate::check_prep::{chase_at, chases, snapshots_of, ChaseEvent, SnapshotModel};
use crate::checkpoint::{pick_order, GameOffer};
use crate::lists::{lemma_filter_push, lemma_sorted_by_orders};
use crate::origin_weights::{halves, is_good, table_of, weights_of};
use crate::pawn_push::{
    answer_of, event_of, events_upto, known_after, known_at, nothing_known, PawnEvent,
};
use crate::protocol::{other_color, promoted, slot_of, unpromoted, Color, GameEndPayload, MoveRecord, Role};
use crate::recapture::{chance_at, chances, nothing_summed};
use crate::replay::{game_run, lemma_legal_is_playable, DecisionModel};
use crate::seeds::text_hash;
use crate::shogi::{after_move, arriving_role, legal, piece_list, Piece, Position, PositionModel, ShogiMove};
use crate::text::{comes_before, lemma_not_before_chain, lemma_one_comes_first};
use crate::tsume::{lemma_filter_map_contains, mined_at, mined_in, MinedModel};
use vstd::prelude::*;

verus! {

/// One for what holds, else nothing.
pub open spec fn unit(b: bool) -> int {
    if b {
        1
    } else {
        0
    }
}

/// How many of the first `n` squares hold a piece.
pub open spec fn tokens(cells: Seq<Option<Piece>>, p: Piece, n: int) -> int
    decreases n,
{
    if n <= 0 {
        0
    } else {
        tokens(cells, p, n - 1) + unit(cells[n - 1] == Some(p))
    }
}

proof fn lemma_tokens_update(cells: Seq<Option<Piece>>, k: int, v: Option<Piece>, p: Piece, n: int)
    requires
        0 <= k < cells.len(),
        n <= cells.len(),
    ensures
        tokens(cells.update(k, v), p, n) == tokens(cells, p, n) + (if k < n {
            unit(v == Some(p)) - unit(cells[k] == Some(p))
        } else {
            0
        }),
    decreases n,
{
    if n > 0 {
        lemma_tokens_update(cells, k, v, p, n - 1);
    }
}

proof fn lemma_tokens(pos: PositionModel, p: Piece, n: int)
    requires
        pos.wf(),
        0 <= n <= 81,
    ensures
        all_squares().take(n).filter(|c: Coord| pos.at(c) is Some).map_values(
            |c: Coord| (c, pos.at(c)->0),
        ).filter(|x: (Coord, Piece)| x.1 == p).len() == tokens(pos.cells, p, n),
    decreases n,
{
    let held = |c: Coord| pos.at(c) is Some;
    let pair = |c: Coord| (c, pos.at(c)->0);
    let is_p = |x: (Coord, Piece)| x.1 == p;
    if n == 0 {
        let none = all_squares().take(0);
        assert(none.filter(held).len() == 0) by {
            reveal(Seq::filter);
        }
        assert(none.filter(held).map_values(pair) =~= Seq::<(Coord, Piece)>::empty());
        reveal(Seq::filter);
    } else {
        lemma_tokens(pos, p, n - 1);
        let head = all_squares().take(n - 1);
        let c = square_at(n - 1);
        lemma_square_index(c, n - 1);
        assert(all_squares().take(n) =~= head.push(c));
        lemma_filter_push(head, c, held);
        let kept = head.filter(held);
        assert(pos.at(c) == pos.cells[n - 1]);
        if pos.at(c) is Some {
            assert(kept.push(c).map_values(pair) =~= kept.map_values(pair).push(pair(c)));
            lemma_filter_push(kept.map_values(pair), pair(c), is_p);
        }
    }
}

/// The material of a side: its pieces of a role on the board, and those of the role in hand.
pub proof fn law_holdings(pos: PositionModel, color: Color, role: Role)
    requires
        pos.wf(),
    ensures
        holdings(pos, color, role) == tokens(pos.cells, Piece { color, role }, 81) + (match slot_of(role) {
            Some(i) => pos.hand(color)[i] as int,
            None => 0,
        }),
{
    lemma_tokens(pos, Piece { color, role }, 81);
    assert(all_squares().take(81) =~= all_squares());
}

/// A legal move changes the material only by what it takes, which goes over to the other side unpromoted,
/// and by promoting. A drop changes none.
pub proof fn law_moves_and_material(pos: PositionModel, mv: ShogiMove, role: Role)
    requires
        pos.wf(),
        legal(pos, mv),
        slot_of(role) matches Some(i) ==> pos.hand(pos.turn)[i] < 255,
    ensures
        ({
            let me = pos.turn;
            let opp = other_color(me);
            let next = after_move(pos, mv);
            match mv {
                ShogiMove::Drop { role: r, to } => holdings(next, me, role) == holdings(pos, me, role)
                    && holdings(next, opp, role) == holdings(pos, opp, role),
                ShogiMove::Board { from, to, promote } => {
                    let mover = pos.at(from)->0.role;
                    let taken = pos.at(to);
                    &&& holdings(next, opp, role) == holdings(pos, opp, role) - unit(
                        taken is Some && taken->0.role == role,
                    )
                    &&& holdings(next, me, role) == holdings(pos, me, role) + unit(
                        taken is Some && unpromoted(taken->0.role) == role && slot_of(role) is Some,
                    ) + unit(promote && promoted(mover) == Some(role)) - unit(promote && mover == role)
                },
            }
        }),
{
    let me = pos.turn;
    let opp = other_color(me);
    let next = after_move(pos, mv);
    lemma_legal_is_playable(pos, mv);
    crate::conservation::lemma_move_keeps_form(pos, mv);
    law_holdings(pos, me, role);
    law_holdings(pos, opp, role);
    law_holdings(next, me, role);
    law_holdings(next, opp, role);
    let mine = Piece { color: me, role };
    let theirs = Piece { color: opp, role };
    match mv {
        ShogiMove::Board { from, to, promote } => {
            lemma_square_index(from, 0);
            lemma_square_index(to, 0);
            let a = square_index(from);
            let b = square_index(to);
            let mover = pos.at(from)->0;
            let landed = Piece { color: mover.color, role: arriving_role(mover.role, promote) };
            let mid = pos.cells.update(a, None);
            lemma_tokens_update(pos.cells, a, None, mine, 81);
            lemma_tokens_update(mid, b, Some(landed), mine, 81);
            lemma_tokens_update(pos.cells, a, None, theirs, 81);
            lemma_tokens_update(mid, b, Some(landed), theirs, 81);
            crate::conservation::lemma_attack_moves(pos, from, to);
            assert(mid[b] == pos.cells[b]);
        },
        ShogiMove::Drop { role: r, to } => {
            lemma_square_index(to, 0);
            let b = square_index(to);
            lemma_tokens_update(pos.cells, b, Some(Piece { color: me, role: r }), mine, 81);
            lemma_tokens_update(pos.cells, b, Some(Piece { color: me, role: r }), theirs, 81);
        },
    }
}

/// The balance of a role is what one side has more of it than the other.
pub proof fn law_balance(pos: PositionModel, me: Color, role: Role)
    ensures
        balance(pos, me, role) > 0 <==> holdings(pos, me, role) > holdings(pos, other_color(me), role),
        balance(pos, me, role) + holdings(pos, other_color(me), role) == holdings(pos, me, role),
{
}

/// The chances of a game are those of its decisions.
pub proof fn law_all_chances(ds: Seq<DecisionModel>, moves: Seq<MoveRecord>, bot: Color, i: int, c: Coord)
    ensures
        chances(ds, moves, bot).contains((i, c)) <==> 0 <= i < ds.len() && chance_at(ds, moves, bot, i)
            == Some((i, c)),
{
    let all = Seq::new(ds.len(), |i: int| i);
    let f = |i: int| chance_at(ds, moves, bot, i);
    lemma_filter_map_contains(all, f, (i, c));
    if exists|k: int| 0 <= k < all.len() && f(#[trigger] all[k]) == Some((i, c)) {
        let k = choose|k: int| 0 <= k < all.len() && f(#[trigger] all[k]) == Some((i, c));
        assert(all[k] == k);
    }
    if 0 <= i < ds.len() && chance_at(ds, moves, bot, i) == Some((i, c)) {
        assert(f(all[i]) == Some((i, c)));
    }
}

/// A summary starts at nought.
pub proof fn law_empty_summary()
    ensures
        ({
            let n = nothing_summed();
            n.cases == 0 && n.with_candidate == 0 && n.chosen_recapture == 0 && n.final_rank_sum == 0
                && n.static_rank_sum == 0 && n.depth2_in == 0 && n.truth_profitable == 0
                && n.truth_profitable_taken == 0
        }),
{
}

/// The chases of a game are those that answer one of its moves.
pub proof fn law_all_chases(
    moves: Seq<MoveRecord>,
    positions: Seq<Position>,
    bot: Color,
    fouls: Map<u32, u32>,
    e: ChaseEvent,
)
    ensures
        chases(moves, positions, bot, fouls).contains(e) <==> exists|k: int|
            0 <= k < moves.len() && #[trigger] chase_at(moves, positions, bot, fouls, k) == Some(e),
{
    let all = Seq::new(moves.len(), |k: int| k);
    let f = |k: int| chase_at(moves, positions, bot, fouls, k);
    lemma_filter_map_contains(all, f, e);
    if exists|k: int| 0 <= k < all.len() && f(#[trigger] all[k]) == Some(e) {
        let k = choose|k: int| 0 <= k < all.len() && f(#[trigger] all[k]) == Some(e);
        assert(chase_at(moves, positions, bot, fouls, k) == Some(e));
    }
    if exists|k: int| 0 <= k < moves.len() && #[trigger] chase_at(moves, positions, bot, fouls, k) == Some(e) {
        let k = choose|k: int|
            0 <= k < moves.len() && #[trigger] chase_at(moves, positions, bot, fouls, k) == Some(e);
        assert(f(all[k]) == Some(e));
    }
}

/// The problems of a game are those of its decisions.
pub proof fn law_all_problems(end: GameEndPayload, name: Seq<char>, skip: u32, m: MinedModel)
    requires
        game_run(end).ok,
    ensures
        mined_in(end, name, skip) matches Some(list) && (list.contains(m) <==> exists|k: int|
            0 <= k < game_run(end).decisions.len() && mined_at(name, skip, #[trigger] game_run(end).decisions[k])
                == Some(m)),
{
    lemma_filter_map_contains(
        game_run(end).decisions,
        |d: DecisionModel| mined_at(name, skip, d),
        m,
    );
}

/// What is known at a decision is what was known at the one before and what its move gave away.
pub proof fn law_known_grows(ds: Seq<DecisionModel>, moves: Seq<MoveRecord>, i: int)
    requires
        0 < i <= ds.len(),
    ensures
        answer_of(moves, ds[i - 1]) matches Some(mv) ==> known_at(ds, moves, i) == known_after(
            known_at(ds, moves, i - 1),
            ds[i - 1].pos,
            ds[i - 1].side,
            mv,
        ),
        answer_of(moves, ds[i - 1]) is None ==> known_at(ds, moves, i) == known_at(ds, moves, i - 1),
        known_at(ds, moves, 0) == nothing_known(),
        forall|c: Coord| !#[trigger] nothing_known().revealed[0].contains(c),
        forall|c: Coord| !#[trigger] nothing_known().revealed[1].contains(c),
{
}

/// What is noted of pawns up to a decision is what was noted before and what is noted of its pieces.
pub proof fn law_pawns_are_noted(
    ds: Seq<DecisionModel>,
    moves: Seq<MoveRecord>,
    k: usize,
    bot: Option<Color>,
    n: int,
    e: PawnEvent,
)
    requires
        0 < n <= ds.len(),
    ensures
        events_upto(ds, moves, k, bot, n).contains(e) <==> events_upto(ds, moves, k, bot, n - 1).contains(e)
            || exists|j: int|
            0 <= j < piece_list(ds[n - 1].pos).len() && event_of(
                ds,
                moves,
                k,
                bot,
                n - 1,
                #[trigger] piece_list(ds[n - 1].pos)[j],
            ) == Some(e),
        events_upto(ds, moves, k, bot, 0).len() == 0,
{
    let f = |x: (Coord, Piece)| event_of(ds, moves, k, bot, n - 1, x);
    let a = events_upto(ds, moves, k, bot, n - 1);
    let b = piece_list(ds[n - 1].pos).filter_map(f);
    lemma_filter_map_contains(piece_list(ds[n - 1].pos), f, e);
    let all = a + b;
    if a.contains(e) {
        let i = choose|i: int| 0 <= i < a.len() && a[i] == e;
        assert(all[i] == e);
    }
    if b.contains(e) {
        let i = choose|i: int| 0 <= i < b.len() && b[i] == e;
        assert(all[a.len() + i] == e);
    }
    if all.contains(e) {
        let i = choose|i: int| 0 <= i < all.len() && all[i] == e;
        if i < a.len() {
            assert(a[i] == e);
        } else {
            assert(b[i - a.len()] == e);
        }
    }
}

/// A text of weights stands for two tables where both its halves do and both tables are good.
pub proof fn law_weights_of_a_text(spec: Seq<char>, a: Seq<char>, b: Seq<char>)
    requires
        halves(spec) == Some((a, b)),
    ensures
        weights_of(spec) is Some <==> (table_of(true, a) matches Some(t) && is_good(t)) && (table_of(
            false,
            b,
        ) matches Some(t) && is_good(t)),
        weights_of(spec) matches Some(w) ==> table_of(true, a) == Some(w.0) && table_of(false, b) == Some(w.1),
{
}

/// The games are gone through by the hash of their ids, those with one hash in the order of the ids.
pub proof fn law_games_in_order(offers: Seq<GameOffer>, seed: u64, i: int, j: int)
    requires
        0 <= i < j < pick_order(offers, seed).len(),
    ensures
        ({
            let a = pick_order(offers, seed)[i].id;
            let b = pick_order(offers, seed)[j].id;
            text_hash(seed, a) < text_hash(seed, b) || (text_hash(seed, a) == text_hash(seed, b)
                && !comes_before(b, a))
        }),
{
    let some = |g: GameOffer| g.candidates.len() > 0;
    let le = |a: GameOffer, b: GameOffer| crate::checkpoint::goes_first(seed, a, b);
    let kept = offers.filter(some);
    assert forall|a: GameOffer, b: GameOffer| #[trigger] le(a, b) || le(b, a) by {
        lemma_one_comes_first(a.id, b.id);
    }
    assert forall|a: GameOffer, b: GameOffer, c: GameOffer| #[trigger] le(a, b) && #[trigger] le(
        b,
        c,
    ) implies le(a, c) by {
        if text_hash(seed, a.id) == text_hash(seed, b.id) && text_hash(seed, b.id) == text_hash(seed, c.id) {
            lemma_not_before_chain(a.id, b.id, c.id);
        }
    }
    lemma_sorted_by_orders(kept, le);
    crate::lists::lemma_sorted_by_len(kept, le);
    assert(le(crate::lists::sorted_by(kept, le)[i], crate::lists::sorted_by(kept, le)[j]));
}

/// The points of a game are those of its decisions, the last one among them.
pub proof fn law_all_points(end: GameEndPayload, bot: Color, i: int)
    requires
        snapshots_of(end) is Some,
        0 <= i < snapshots_of(end)->0.len(),
    ensures
        points_of(end, bot) is Some,
        point_of(end.moves@, bot, snapshots_of(end)->0[i]) matches Some(p) ==> points_of(end, bot)->0.contains(p),
{
    let list = snapshots_of(end)->0;
    let f = |s: SnapshotModel| point_of(end.moves@, bot, s);
    if let Some(p) = point_of(end.moves@, bot, list[i]) {
        lemma_filter_map_contains(list, f, p);
        assert(f(list[i]) == Some(p));
    }
}

} // verus!
