//! What the board in check is made of, and which suppositions a capture rules out.

use crate::board::{
    all_squares, is_on_board, lemma_square_index, shifted, square_index, square_of_text, step_deltas, targets_from,
    Coord, Delta,
};
use crate::check::{
    aligned, between, could_arrive, fresh_enemies, hand_only, hypothesis_list, may_discover, order_of, own_at, pruned,
    solver_base, solver_hypotheses, span, threatened_pieces, threatened_zone, with_enemies, with_pieces,
    Hypothesis, SolverModel,
};
use crate::geometry::{ahead, aside, law_bishop, law_king, law_knight, law_rook, on_the_way, way_is_free};
use crate::lists::lemma_filter_contains_iff;
use crate::observation::Event;
use crate::protocol::{other_color, Color, Role, ViewModel};
use crate::shogi::{attacks_from, checked, king_of, legal, piece_list, Piece, PositionModel, ShogiMove};
use vstd::prelude::*;

verus! {

/// The squares on which a side has pieces.
pub open spec fn squares_of(base: PositionModel, color: Color) -> Set<Coord> {
    Set::new(|c: Coord| own_at(base, color, c))
}

proof fn lemma_between(a: Coord, b: Coord, n: int)
    requires
        is_on_board(a),
        is_on_board(b),
        aligned(a, b),
        0 < n < span(a, b),
    ensures
        between(a, b, n) == on_the_way(a, b, n),
{
}

/// An enemy piece can have come from one square to another where some piece could: one that steps to any
/// neighbour, a knight of the enemy, or one that runs along lines and diagonals past the own pieces.
pub proof fn law_enemy_arrives(base: PositionModel, me: Color, o: Coord, s: Coord)
    requires
        is_on_board(o),
        is_on_board(s),
    ensures
        could_arrive(base, me, o, s) <==> {
            let own = squares_of(base, me).remove(s);
            let opp = other_color(me);
            ||| targets_from(own, o, Role::King, opp).contains(s)
            ||| targets_from(own, o, Role::Knight, opp).contains(s)
            ||| targets_from(own, o, Role::Rook, opp).contains(s)
            ||| targets_from(own, o, Role::Bishop, opp).contains(s)
        },
{
    let own = squares_of(base, me).remove(s);
    let opp = other_color(me);
    law_king(own, o, s, opp);
    law_knight(own, o, s, opp);
    law_rook(own, o, s, opp);
    law_bishop(own, o, s, opp);
    let n = span(o, s);
    if o != s && aligned(o, s) {
        let free = forall|k: int| 0 < k < n ==> !own_at(base, me, #[trigger] between(o, s, k));
        if free {
            assert forall|k: int| 0 < k < n implies !own.contains(#[trigger] on_the_way(o, s, k)) by {
                lemma_between(o, s, k);
                assert(!own_at(base, me, between(o, s, k)));
            }
            assert(way_is_free(own, o, s, n));
        }
        if way_is_free(own, o, s, n) {
            assert forall|k: int| 0 < k < n implies !own_at(base, me, #[trigger] between(o, s, k)) by {
                lemma_between(o, s, k);
                assert(!own.contains(on_the_way(o, s, k)));
                assert(on_the_way(o, s, k) != s);
            }
        }
    }
}

/// A checker elsewhere than on the square of the capture is a discovered one. It stands on a line with the
/// king, two squares off or more, with neither an own piece nor the square of the capture between; and
/// from some square between them a piece could have gone to take.
pub proof fn law_discovered_checks(base: PositionModel, me: Color, king: Coord, s: Coord, q: Coord)
    requires
        is_on_board(king),
        is_on_board(s),
        is_on_board(q),
    ensures
        may_discover(base, me, king, s, s),
        q != s && may_discover(base, me, king, s, q) ==> {
            &&& king.file == q.file || king.rank == q.rank || aside(king, q) == ahead(king, q, me) || aside(
                king,
                q,
            ) == -ahead(king, q, me)
            &&& aside(king, q) >= 2 || ahead(king, q, me) >= 2 || ahead(king, q, me) <= -2
            &&& way_is_free(squares_of(base, me).insert(s), king, q, span(king, q))
            &&& exists|n: int|
                0 < n < span(king, q) && could_arrive(base, me, #[trigger] on_the_way(king, q, n), s)
        },
        q != s && aligned(king, q) && span(king, q) >= 2 && way_is_free(
            squares_of(base, me).insert(s),
            king,
            q,
            span(king, q),
        ) && (exists|n: int|
            0 < n < span(king, q) && could_arrive(base, me, #[trigger] on_the_way(king, q, n), s))
            ==> may_discover(base, me, king, s, q),
{
    let m = span(king, q);
    let blocked = squares_of(base, me).insert(s);
    if q != s && may_discover(base, me, king, s, q) {
        assert forall|n: int| 0 < n < m implies !blocked.contains(#[trigger] on_the_way(king, q, n)) by {
            lemma_between(king, q, n);
            assert(!own_at(base, me, between(king, q, n)) && between(king, q, n) != s);
        }
        let n = choose|n: int| 0 < n < m && could_arrive(base, me, #[trigger] between(king, q, n), s);
        lemma_between(king, q, n);
        assert(could_arrive(base, me, on_the_way(king, q, n), s));
    }
    if q != s && aligned(king, q) && m >= 2 && way_is_free(blocked, king, q, m) && (exists|n: int|
        0 < n < m && could_arrive(base, me, #[trigger] on_the_way(king, q, n), s)) {
        assert forall|n: int| 0 < n < m implies !own_at(base, me, #[trigger] between(king, q, n))
            && between(king, q, n) != s by {
            lemma_between(king, q, n);
            assert(!blocked.contains(on_the_way(king, q, n)));
        }
        let n = choose|n: int| 0 < n < m && could_arrive(base, me, #[trigger] on_the_way(king, q, n), s);
        lemma_between(king, q, n);
        assert(could_arrive(base, me, between(king, q, n), s));
    }
}

/// A supposition is dropped only where it does not fit the capture and another one does.
pub proof fn law_pruning(
    base: PositionModel,
    me: Color,
    king: Coord,
    s: Coord,
    all: Seq<Hypothesis>,
    h: Hypothesis,
    k: int,
)
    requires
        0 <= k < all.len(),
    ensures
        pruned(base, me, king, s, all).contains(h) ==> all.contains(h),
        all.contains(h) && may_discover(base, me, king, s, h.square) ==> pruned(
            base,
            me,
            king,
            s,
            all,
        ).contains(h),
        may_discover(base, me, king, s, all[k].square) && !may_discover(base, me, king, s, h.square)
            ==> !pruned(base, me, king, s, all).contains(h),
        (forall|j: int|
            0 <= j < all.len() ==> !may_discover(base, me, king, s, (#[trigger] all[j]).square)) ==> pruned(
            base,
            me,
            king,
            s,
            all,
        ) == all,
{
    let good = |h: Hypothesis| may_discover(base, me, king, s, h.square);
    let kept = all.filter(good);
    lemma_filter_contains_iff(all, good, h);
    lemma_filter_contains_iff(all, good, all[k]);
    assert(all.contains(all[k]));
    if kept.len() > 0 {
        lemma_filter_contains_iff(all, good, kept[0]);
        assert(kept.contains(kept[0]));
        let j = choose|j: int| 0 <= j < all.len() && all[j] == kept[0];
        assert(may_discover(base, me, king, s, all[j].square));
    }
}

/// Pruning is done where it is asked for and the opponent's last move took something.
pub proof fn law_suppositions(
    base: PositionModel,
    me: Color,
    counts: Seq<i128>,
    king: Coord,
    s: Coord,
    prune: bool,
)
    requires
        king_of(base, me) == Some(king),
    ensures
        solver_hypotheses(base, me, counts, None, prune) == hypothesis_list(base, me, counts),
        solver_hypotheses(base, me, counts, Some(s), false) == hypothesis_list(base, me, counts),
        solver_hypotheses(base, me, counts, Some(s), true) == pruned(
            base,
            me,
            king,
            s,
            hypothesis_list(base, me, counts),
        ),
{
}

/// The own pieces stand on the board as they are shown, and nothing else does.
pub proof fn law_shown_board(color: Color, hand: Seq<u32>, pieces: Seq<(Seq<char>, Role)>, c: Coord, role: Role)
    requires
        is_on_board(c),
        hand.len() == 7,
        forall|i: int| 0 <= i < pieces.len() ==> square_of_text((#[trigger] pieces[i]).0) is Some,
        forall|i: int, j: int|
            0 <= i < j < pieces.len() ==> square_of_text((#[trigger] pieces[i]).0) != square_of_text(
                (#[trigger] pieces[j]).0,
            ),
        forall|i: int|
            0 <= i < pieces.len() ==> is_on_board(square_of_text((#[trigger] pieces[i]).0)->0),
    ensures
        with_pieces(hand_only(color, hand), pieces, color) matches Some(b) && b.cells.len() == 81 && (b.at(c)
            == Some(Piece { color, role }) <==> exists|i: int|
            0 <= i < pieces.len() && square_of_text((#[trigger] pieces[i]).0) == Some(c) && pieces[i].1
                == role) && (b.at(c) matches Some(p) ==> p.color == color),
    decreases pieces.len(),
{
    lemma_square_index(c, 0);
    if pieces.len() > 0 {
        let head = pieces.drop_last();
        let last = pieces.last();
        assert forall|i: int| 0 <= i < head.len() implies square_of_text((#[trigger] head[i]).0) is Some by {
            assert(head[i] == pieces[i]);
        }
        assert forall|i: int, j: int| 0 <= i < j < head.len() implies square_of_text((#[trigger] head[i]).0)
            != square_of_text((#[trigger] head[j]).0) by {
            assert(head[i] == pieces[i] && head[j] == pieces[j]);
        }
        assert forall|i: int| 0 <= i < head.len() implies is_on_board(
            square_of_text((#[trigger] head[i]).0)->0,
        ) by {
            assert(head[i] == pieces[i]);
        }
        law_shown_board(color, hand, head, c, role);
        let n = pieces.len() - 1;
        let d = square_of_text(pieces[n].0)->0;
        lemma_square_index(d, 0);
        if d == c {
            if pieces[n].1 == role {
                assert(square_of_text(pieces[n].0) == Some(c) && pieces[n].1 == role);
            }
            assert forall|i: int| 0 <= i < pieces.len() && square_of_text((#[trigger] pieces[i]).0) == Some(
                c,
            ) implies i == n by {
                if i < n {
                    assert(square_of_text(pieces[i].0) != square_of_text(pieces[n].0));
                }
            }
        } else {
            assert(square_index(d) != square_index(c)) by {
                lemma_square_index(c, square_index(c));
                lemma_square_index(d, square_index(d));
            }
            if exists|i: int|
                0 <= i < pieces.len() && square_of_text((#[trigger] pieces[i]).0) == Some(c) && pieces[i].1
                    == role {
                let i = choose|i: int|
                    0 <= i < pieces.len() && square_of_text((#[trigger] pieces[i]).0) == Some(c)
                        && pieces[i].1 == role;
                assert(head[i] == pieces[i]);
            }
            if exists|i: int|
                0 <= i < head.len() && square_of_text((#[trigger] head[i]).0) == Some(c) && head[i].1 == role {
                let i = choose|i: int|
                    0 <= i < head.len() && square_of_text((#[trigger] head[i]).0) == Some(c) && head[i].1
                        == role;
                assert(pieces[i] == head[i]);
            }
        }
    }
}

/// A known enemy piece is put on the board where the square is empty and the piece, of the role that is
/// guessed or else a promoted pawn, would not itself give check.
pub proof fn law_enemies_on_the_board(
    board: PositionModel,
    me: Color,
    squares: Seq<Coord>,
    guesses: Seq<Option<Role>>,
    c: Coord,
)
    ensures
        ({
            let b = with_enemies(board, me, squares, guesses);
            let role = match guesses[square_index(c)] {
                Some(r) => r,
                None => Role::Tokin,
            };
            let filled = b.with_cell(c, Some(Piece { color: other_color(me), role }));
            with_enemies(board, me, squares.push(c), guesses) == (if b.at(c) is None && !checked(
                filled,
                me,
            ) {
                filled
            } else {
                b
            })
        }),
        with_enemies(board, me, Seq::empty(), guesses) == board,
{
    assert(squares.push(c).drop_last() =~= squares);
}

/// The known enemies that count are those that came with one of the last eight moves or later.
pub proof fn law_fresh_enemies(events: Seq<Event>, number: u32, c: Coord)
    ensures
        fresh_enemies(events, number).contains(c) <==> is_on_board(c) && (crate::check::last_seen(
            events,
            c,
        ) matches Some(n) && n + 8 >= number),
{
    let good = |c: Coord| crate::check::known_since(events, crate::check::fresh_from(number), c);
    lemma_filter_contains_iff(all_squares(), good, c);
    crate::check_laws::law_known_enemies_age(events, number, c);
    if all_squares().contains(c) {
        let j = choose|j: int| 0 <= j < all_squares().len() && all_squares()[j] == c;
        lemma_square_index(c, j);
    }
    if is_on_board(c) {
        lemma_square_index(c, 0);
        assert(all_squares()[square_index(c)] == c);
    }
}

/// The board from which a check is reckoned: the pieces shown with the known enemies, where the king is
/// among those shown.
pub proof fn law_reckoning_starts(view: ViewModel, events: Seq<Event>, guesses: Seq<Option<Role>>)
    ensures
        solver_base(view, events, guesses) is Some <==> (with_pieces(
            hand_only(view.color, view.hand),
            view.pieces,
            view.color,
        ) matches Some(own) && king_of(own, view.color) is Some),
        solver_base(view, events, guesses) matches Some(b) ==> b == with_enemies(
            with_pieces(hand_only(view.color, view.hand), view.pieces, view.color)->0,
            view.color,
            fresh_enemies(events, view.move_number),
            guesses,
        ),
{
}

/// The pieces threatened from a square are the own ones it attacks, but for the king.
pub proof fn law_threatened(m: PositionModel, me: Color, from: Coord, c: Coord, role: Role)
    requires
        m.wf(),
    ensures
        threatened_pieces(m, me, from).contains((c, role)) <==> is_on_board(c) && m.at(c) == Some(
            Piece { color: me, role },
        ) && role != Role::King && attacks_from(m, from, c),
{
    let all = piece_list(m);
    let hit = |x: (Coord, Piece)| crate::check::is_threatened(m, me, from, x);
    let kept = all.filter(hit);
    let list = threatened_pieces(m, me, from);
    if list.contains((c, role)) {
        let k = choose|k: int| 0 <= k < list.len() && list[k] == (c, role);
        let x = kept[k];
        assert(kept.contains(x));
        lemma_filter_contains_iff(all, hit, x);
        let n = choose|n: int| 0 <= n < all.len() && all[n] == x;
        crate::check_economy::lemma_piece_list(m, n);
    }
    if is_on_board(c) && m.at(c) == Some(Piece { color: me, role }) && role != Role::King && attacks_from(
        m,
        from,
        c,
    ) {
        let n = crate::check_economy::lemma_piece_listed(m, c);
        let x = (c, Piece { color: me, role });
        assert(all[n] == x);
        assert(all.contains(x));
        lemma_filter_contains_iff(all, hit, x);
        let k = choose|k: int| 0 <= k < kept.len() && kept[k] == x;
        assert(list[k] == (c, role));
    }
}

/// The threatened squares around the king are among its eight neighbours; there is one where one of them
/// is attacked.
pub proof fn law_threatened_zone(m: PositionModel, me: Color, from: Coord, king: Coord, d: Delta)
    requires
        king_of(m, me) == Some(king),
    ensures
        threatened_zone(m, me, from) <= 8,
        -1 <= d.0 <= 1 && -1 <= d.1 <= 1 && d != (0i8, 0i8) && attacks_from(m, from, shifted(king, d))
            ==> threatened_zone(m, me, from) > 0,
        (forall|e: Delta| #[trigger]
            step_deltas(Role::King).contains(e) ==> !attacks_from(m, from, shifted(king, e)))
            ==> threatened_zone(m, me, from) == 0,
{
    let all = step_deltas(Role::King);
    let hit = |d: Delta| attacks_from(m, from, shifted(king, d));
    let kept = all.filter(hit);
    all.lemma_filter_len(hit);
    lemma_filter_contains_iff(all, hit, d);
    assert(all.len() == 8);
    assert(all[0] == (0i8, -1i8) && all[1] == (1i8, -1i8) && all[2] == (-1i8, -1i8) && all[3] == (1i8, 0i8));
    assert(all[4] == (-1i8, 0i8));
    if -1 <= d.0 <= 1 && -1 <= d.1 <= 1 && d != (0i8, 0i8) {
        assert(all.contains(d)) by {
            assert(all[5].0 <= 1 && all[6].0 <= 1 && all[7].0 <= 1);
            assert(d == all[0] || d == all[1] || d == all[2] || d == all[3] || d == all[4] || d == all[5] || d
                == all[6] || d == all[7]);
        }
    }
    if kept.len() > 0 {
        lemma_filter_contains_iff(all, hit, kept[0]);
        assert(kept.contains(kept[0]));
    }
}

/// The roles are told apart by their places.
pub proof fn law_role_order(a: Role, b: Role)
    ensures
        order_of(a) == order_of(b) <==> a == b,
{
}

/// A move goes at the checker where it is made with another piece than the king, to the square of some
/// supposed checker, and would be legal if that one gave check.
pub proof fn law_goes_at_the_checker(m: SolverModel, king: Coord, from: Coord, to: Coord, promote: bool, role: Role)
    requires
        m.wf(),
        king_of(m.base, m.my_color) == Some(king),
    ensures
        m.takes_checker(ShogiMove::Board { from, to, promote }) <==> from != king && exists|i: int|
            0 <= i < m.hypotheses.len() && (#[trigger] m.hypotheses[i]).square == to && legal(
                m.base.with_cell(
                    to,
                    Some(Piece { color: other_color(m.my_color), role: m.hypotheses[i].role }),
                ),
                ShogiMove::Board { from, to, promote },
            ),
        !m.takes_checker(ShogiMove::Drop { role, to }),
{
    let mv = ShogiMove::Board { from, to, promote };
    if m.takes_checker(mv) {
        let i = choose|i: int|
            0 <= i < m.hypotheses.len() && m.hypotheses[i].square == to && #[trigger] m.legal_if(i, mv);
        assert(m.hypotheses[i].square == to);
    }
    if from != king && exists|i: int|
        0 <= i < m.hypotheses.len() && (#[trigger] m.hypotheses[i]).square == to && legal(
            m.base.with_cell(
                to,
                Some(Piece { color: other_color(m.my_color), role: m.hypotheses[i].role }),
            ),
            mv,
        ) {
        let i = choose|i: int|
            0 <= i < m.hypotheses.len() && (#[trigger] m.hypotheses[i]).square == to && legal(
                m.base.with_cell(
                    to,
                    Some(Piece { color: other_color(m.my_color), role: m.hypotheses[i].role }),
                ),
                mv,
            );
        assert(m.legal_if(i, mv));
    }
}

} // verus!
