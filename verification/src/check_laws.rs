//! What the reckoning in check comes to: which pieces can be giving the check, which known enemy
//! pieces count, and what a foul says of each.

use crate::board::{is_on_board, law_square_round_trip, square_text, Coord};
use crate::check::{
    fresh_from, hypothesis_list, known_since, last_capture, last_seen, law_hypotheses_exact,
    opponent_count, role_counts, solver_at, EvidenceTally, Hypothesis, SolverModel,
};
use crate::model::side_after;
use crate::observation::Event;
use crate::protocol::{other_color, Color, Role, ViewModel};
use crate::shogi::{
    checked, king_of, law_usi_round_trip, legal, text_of_move, Piece, PositionModel, ShogiMove,
};
use vstd::prelude::*;

verus! {

/// A piece is thought to be giving check exactly where the own side does not hold the square, the
/// opponent is counted as having a piece of that base role, and the own king would be in check from
/// it. The opponent's king is never thought so.
pub proof fn law_possible_checkers(
    base: PositionModel,
    my_color: Color,
    counts: Seq<i128>,
    c: Coord,
    role: Role,
)
    ensures
        hypothesis_list(base, my_color, counts).contains(Hypothesis { square: c, role }) <==> {
            &&& is_on_board(c)
            &&& !(base.at(c) matches Some(p) && p.color == my_color)
            &&& match role {
                Role::Pawn | Role::Tokin => counts[0] > 0,
                Role::Lance | Role::Promotedlance => counts[1] > 0,
                Role::Knight | Role::Promotedknight => counts[2] > 0,
                Role::Silver | Role::Promotedsilver => counts[3] > 0,
                Role::Gold => counts[4] > 0,
                Role::Bishop | Role::Horse => counts[5] > 0,
                Role::Rook | Role::Dragon => counts[6] > 0,
                Role::King => false,
            }
            &&& checked(
                base.with_cell(c, Some(Piece { color: other_color(my_color), role })),
                my_color,
            )
        },
{
    law_hypotheses_exact(base, my_color, counts, Hypothesis { square: c, role });
}

/// A square is known to hold an enemy piece from when the own side lost a piece there until it took one
/// there; nothing else changes what is known.
pub proof fn law_known_enemies(
    events: Seq<Event>,
    c: Coord,
    d: Coord,
    n: u32,
    from: Coord,
    promote: bool,
    role: Role,
)
    requires
        is_on_board(c),
        is_on_board(d),
        is_on_board(from),
    ensures
        last_seen(
            events.push(Event::OpponentMoved { move_number: n, captured_at: Some(square_text(d)) }),
            c,
        ) == (if c == d {
            Some(n)
        } else {
            last_seen(events, c)
        }),
        last_seen(
            events.push(
                Event::MyMove {
                    move_number: n,
                    usi: text_of_move(ShogiMove::Board { from, to: d, promote }),
                    captured: Some(role),
                },
            ),
            c,
        ) == (if c == d {
            None
        } else {
            last_seen(events, c)
        }),
        last_seen(
            events.push(
                Event::MyMove {
                    move_number: n,
                    usi: text_of_move(ShogiMove::Board { from, to: d, promote }),
                    captured: None,
                },
            ),
            c,
        ) == last_seen(events, c),
        last_seen(events.push(Event::OpponentMoved { move_number: n, captured_at: None }), c)
            == last_seen(events, c),
        last_seen(Seq::empty(), c) is None,
{
    law_square_round_trip(d);
    let mv = ShogiMove::Board { from, to: d, promote };
    law_usi_round_trip(mv);
    assert(events.push(
        Event::OpponentMoved { move_number: n, captured_at: Some(square_text(d)) },
    ).drop_last() =~= events);
    assert(events.push(
        Event::MyMove { move_number: n, usi: text_of_move(mv), captured: Some(role) },
    ).drop_last() =~= events);
    assert(events.push(
        Event::MyMove { move_number: n, usi: text_of_move(mv), captured: None },
    ).drop_last() =~= events);
    assert(events.push(Event::OpponentMoved { move_number: n, captured_at: None }).drop_last()
        =~= events);
}

/// What is known of a square counts for eight moves.
pub proof fn law_known_enemies_age(events: Seq<Event>, move_number: u32, c: Coord)
    ensures
        known_since(events, fresh_from(move_number), c) <==> (last_seen(events, c) matches Some(n) && n
            + 8 >= move_number),
{
}

/// The square of the last capture is that of the opponent's last move, where that took something.
pub proof fn law_last_capture(events: Seq<Event>, c: Coord, n: u32, usi: Seq<char>, side: Color)
    requires
        is_on_board(c),
    ensures
        last_capture(
            events.push(Event::OpponentMoved { move_number: n, captured_at: Some(square_text(c)) }),
        ) == Some(c),
        last_capture(events.push(Event::OpponentMoved { move_number: n, captured_at: None })) is None,
        last_capture(events.push(Event::MyFoul { move_number: n, usi })) == last_capture(events),
        last_capture(events.push(Event::Check { in_check: side })) == last_capture(events),
{
    law_square_round_trip(c);
    assert(events.push(Event::MyFoul { move_number: n, usi }).drop_last() =~= events);
    assert(events.push(Event::Check { in_check: side }).drop_last() =~= events);
}

/// A foul counts against a hypothesis exactly where the attempt would have been legal under it, as one
/// of four kinds: the king taking the checker, the king going elsewhere, another piece taking
/// something, or anything else. The hypotheses stay the same, and the fouls of the king are counted.
pub proof fn law_fouls_are_weighed(m: SolverModel, foul: ShogiMove, i: int)
    requires
        0 <= i < m.hypotheses.len(),
        m.evidence.len() == m.hypotheses.len(),
        m.evidence[i].king_capture < u32::MAX,
        m.evidence[i].king_escape < u32::MAX,
        m.evidence[i].other_capture < u32::MAX,
        m.evidence[i].quiet < u32::MAX,
        m.king_fouls < u32::MAX,
    ensures
        ({
            let a = m.evidence[i];
            let b = m.fouled(foul).evidence[i];
            let h = m.hypotheses[i];
            let board = m.base.with_cell(
                h.square,
                Some(Piece { color: other_color(m.my_color), role: h.role }),
            );
            let king = foul matches ShogiMove::Board { from, to, promote } && king_of(
                m.base,
                m.my_color,
            ) == Some(from);
            let lands = foul matches ShogiMove::Board { from, to, promote } && to == h.square;
            let takes = foul matches ShogiMove::Board { from, to, promote } && (to == h.square
                || m.base.at(to) is Some);
            let counts = legal(board, foul);
            &&& b.king_capture == a.king_capture + (if counts && king && lands {
                1int
            } else {
                0int
            })
            &&& b.king_escape == a.king_escape + (if counts && king && !lands {
                1int
            } else {
                0int
            })
            &&& b.other_capture == a.other_capture + (if counts && !king && takes {
                1int
            } else {
                0int
            })
            &&& b.quiet == a.quiet + (if counts && !king && !takes {
                1int
            } else {
                0int
            })
            &&& m.fouled(foul).hypotheses == m.hypotheses
            &&& m.fouled(foul).base == m.base
            &&& m.fouled(foul).king_fouls == m.king_fouls + (if king {
                1int
            } else {
                0int
            })
        }),
{
}

/// A solver starts without evidence, for the side whose view it is, from the counts of what the
/// opponent can have.
pub proof fn law_solver_starts_clean(
    view: ViewModel,
    events: Seq<Event>,
    guesses: Seq<Option<Role>>,
    prune: bool,
    i: int,
    slot: int,
)
    requires
        solver_at(view, events, guesses, prune) is Some,
        0 <= i < solver_at(view, events, guesses, prune)->0.hypotheses.len(),
        0 <= slot < 7,
        view.hand.len() == 7,
        side_after(view.color, events).lost.len() <= u64::MAX,
    ensures
        ({
            let m = solver_at(view, events, guesses, prune)->0;
            &&& m.hypotheses.len() > 0
            &&& m.evidence.len() == m.hypotheses.len()
            &&& m.evidence[i] == (EvidenceTally {
                king_capture: 0,
                king_escape: 0,
                other_capture: 0,
                quiet: 0,
            })
            &&& m.king_fouls == 0
            &&& m.my_color == view.color
            &&& m.capture == last_capture(events)
            &&& king_of(m.base, m.my_color) == king_of(m.base, view.color)
            &&& role_counts(view, events)[slot] == opponent_count(
                side_after(view.color, events).lost,
                view.hand,
                slot,
            )
        }),
{
    crate::check::lemma_lost_count(side_after(view.color, events).lost, slot);
}

} // verus!
