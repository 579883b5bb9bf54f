//! No piece is lost in a game: what one side has no longer, the other has, and what a player reckons
//! from its own observations comes out as it really is.

use crate::board::{is_on_board, lemma_square_index, square_at, square_index, square_text};
use crate::check::{opponent_count, starting_count};
use crate::model::{fresh_side, own_move, side_after};
use crate::observation::Event;
use crate::protocol::{other_color, slot_of, unpromoted, Color, FoulRecord, MoveRecord, Role};
use crate::replay::{
    foul_taken, hand_role, lemma_legal_is_playable, move_taken, only_side, truth_run, turn_fouls,
    TruthState,
};
use crate::shogi::{
    after_move, arriving_role, hand_counts, initial_model, law_usi_round_trip, legal, move_of_text,
    taken_by, text_of_move, Piece, PositionModel, ShogiMove,
};
use vstd::prelude::*;

verus! {

/// Whether a square holds a piece of a side that is of a base role, promoted or not.
pub open spec fn is_of(p: Option<Piece>, color: Color, slot: int) -> bool {
    p matches Some(x) && x.color == color && slot_of(unpromoted(x.role)) == Some(slot)
}

/// How many of the first `n` squares hold such a piece.
pub open spec fn standing(cells: Seq<Option<Piece>>, color: Color, slot: int, n: int) -> int
    decreases n,
{
    if n <= 0 {
        0
    } else {
        standing(cells, color, slot, n - 1) + (if is_of(cells[n - 1], color, slot) {
            1int
        } else {
            0int
        })
    }
}

/// How many pieces of a base role a side has, on the board and in hand.
pub open spec fn owned(pos: PositionModel, color: Color, slot: int) -> int {
    standing(pos.cells, color, slot, 81) + pos.hand(color)[slot]
}

/// How often a player has dropped a piece of a role.
pub open spec fn dropped(events: Seq<Event>, slot: int) -> int
    decreases events.len(),
{
    if events.len() == 0 {
        0
    } else {
        dropped(events.drop_last(), slot) + (match events.last() {
            Event::MyMove { move_number, usi, captured } => match move_of_text(usi) {
                Some(ShogiMove::Drop { role, to }) => if slot_of(role) == Some(slot) {
                    1int
                } else {
                    0int
                },
                _ => 0int,
            },
            _ => 0int,
        })
    }
}

proof fn lemma_standing_update(
    cells: Seq<Option<Piece>>,
    k: int,
    v: Option<Piece>,
    color: Color,
    slot: int,
    n: int,
)
    requires
        0 <= k < cells.len(),
        n <= cells.len(),
    ensures
        standing(cells.update(k, v), color, slot, n) == standing(cells, color, slot, n) + (if k < n {
            (if is_of(v, color, slot) {
                1int
            } else {
                0int
            }) - (if is_of(cells[k], color, slot) {
                1int
            } else {
                0int
            })
        } else {
            0int
        }),
    decreases n,
{
    if n > 0 {
        lemma_standing_update(cells, k, v, color, slot, n - 1);
    }
}

proof fn lemma_standing_bounds(cells: Seq<Option<Piece>>, color: Color, slot: int, n: int)
    ensures
        standing(cells, color, slot, n) >= 0,
        n >= 0 ==> standing(cells, color, slot, n) <= n,
        forall|k: int|
            0 <= k < n && is_of(#[trigger] cells[k], color, slot) ==> standing(
                cells,
                color,
                slot,
                n,
            ) >= 1,
    decreases n,
{
    if n > 0 {
        lemma_standing_bounds(cells, color, slot, n - 1);
    }
}

spec fn one(b: bool) -> int {
    if b {
        1
    } else {
        0
    }
}

proof fn lemma_file(color: Color, slot: int, f: int)
    requires
        0 <= slot < 7,
        0 <= f < 9,
    ensures
        ({
            let cells = initial_model().cells;
            standing(cells, color, slot, 9 * f + 9) == standing(cells, color, slot, 9 * f) + one(
                slot == 0,
            ) + one(slot == 1 && (f == 0 || f == 8)) + one(slot == 2 && (f == 1 || f == 7)) + one(
                slot == 3 && (f == 2 || f == 6),
            ) + one(slot == 4 && (f == 3 || f == 5)) + one(
                slot == 5 && ((f == 1 && color == Color::Gote) || (f == 7 && color
                    == Color::Sente)),
            ) + one(
                slot == 6 && ((f == 7 && color == Color::Gote) || (f == 1 && color
                    == Color::Sente)),
            )
        }),
{
    let cells = initial_model().cells;
    assert forall|r: int| 0 <= r < 9 implies #[trigger] square_at(9 * f + r) == (crate::board::Coord {
        file: (f + 1) as i8,
        rank: (r + 1) as i8,
    }) by {
        assert((9 * f + r) / 9 == f && (9 * f + r) % 9 == r);
    }
    assert(cells[9 * f] == crate::shogi::initial_piece(square_at(9 * f + 0)));
    assert(cells[9 * f + 1] == crate::shogi::initial_piece(square_at(9 * f + 1)));
    assert(cells[9 * f + 2] == crate::shogi::initial_piece(square_at(9 * f + 2)));
    assert(cells[9 * f + 3] == crate::shogi::initial_piece(square_at(9 * f + 3)));
    assert(cells[9 * f + 4] == crate::shogi::initial_piece(square_at(9 * f + 4)));
    assert(cells[9 * f + 5] == crate::shogi::initial_piece(square_at(9 * f + 5)));
    assert(cells[9 * f + 6] == crate::shogi::initial_piece(square_at(9 * f + 6)));
    assert(cells[9 * f + 7] == crate::shogi::initial_piece(square_at(9 * f + 7)));
    assert(cells[9 * f + 8] == crate::shogi::initial_piece(square_at(9 * f + 8)));
    reveal_with_fuel(standing, 10);
}

/// Each side starts with nine pawns, two lances, knights, silvers and golds, a bishop and a rook.
pub proof fn law_armies(color: Color)
    ensures
        owned(initial_model(), color, 0) == 9,
        owned(initial_model(), color, 1) == 2,
        owned(initial_model(), color, 2) == 2,
        owned(initial_model(), color, 3) == 2,
        owned(initial_model(), color, 4) == 2,
        owned(initial_model(), color, 5) == 1,
        owned(initial_model(), color, 6) == 1,
{
    lemma_army(color, 0);
    lemma_army(color, 1);
    lemma_army(color, 2);
    lemma_army(color, 3);
    lemma_army(color, 4);
    lemma_army(color, 5);
    lemma_army(color, 6);
}

proof fn lemma_army(color: Color, slot: int)
    requires
        0 <= slot < 7,
    ensures
        owned(initial_model(), color, slot) == starting_count(slot),
{
    lemma_file(color, slot, 0);
    lemma_file(color, slot, 1);
    lemma_file(color, slot, 2);
    lemma_file(color, slot, 3);
    lemma_file(color, slot, 4);
    lemma_file(color, slot, 5);
    lemma_file(color, slot, 6);
    lemma_file(color, slot, 7);
    lemma_file(color, slot, 8);
}

/// A legal move leaves the board and the hands in their form.
pub proof fn lemma_move_keeps_form(pos: PositionModel, mv: ShogiMove)
    requires
        pos.wf(),
        legal(pos, mv),
    ensures
        after_move(pos, mv).wf(),
{
    lemma_legal_is_playable(pos, mv);
}

/// A legal move leaves both sides with what they have, but that what it takes goes over to the side
/// that moves.
pub proof fn law_moves_conserve_pieces(pos: PositionModel, mv: ShogiMove, slot: int)
    requires
        pos.wf(),
        legal(pos, mv),
        0 <= slot < 7,
        pos.hand(pos.turn)[slot] < 255,
    ensures
        ({
            let next = after_move(pos, mv);
            let gain = match taken_by(pos, mv) {
                Some(role) => if slot_of(unpromoted(role)) == Some(slot) {
                    1int
                } else {
                    0int
                },
                None => 0int,
            };
            &&& next.wf()
            &&& owned(next, pos.turn, slot) == owned(pos, pos.turn, slot) + gain
            &&& owned(next, other_color(pos.turn), slot) == owned(pos, other_color(pos.turn), slot)
                - gain
            &&& next.hand(pos.turn)[slot] == pos.hand(pos.turn)[slot] + gain - (match mv {
                ShogiMove::Drop { role, to } => if slot_of(role) == Some(slot) {
                    1int
                } else {
                    0int
                },
                _ => 0int,
            })
            &&& next.hand(other_color(pos.turn)) == pos.hand(other_color(pos.turn))
        }),
{
    lemma_legal_is_playable(pos, mv);
    let me = pos.turn;
    let opp = other_color(me);
    match mv {
        ShogiMove::Board { from, to, promote } => {
            lemma_square_index(from, 0);
            lemma_square_index(to, 0);
            let a = square_index(from);
            let b = square_index(to);
            let mover = pos.at(from)->0;
            let landed = Piece { color: mover.color, role: arriving_role(mover.role, promote) };
            let mid = pos.cells.update(a, None);
            lemma_standing_update(pos.cells, a, None, me, slot, 81);
            lemma_standing_update(mid, b, Some(landed), me, slot, 81);
            lemma_standing_update(pos.cells, a, None, opp, slot, 81);
            lemma_standing_update(mid, b, Some(landed), opp, slot, 81);
            lemma_attack_moves(pos, from, to);
            assert(mid[b] == pos.cells[b]);
        },
        ShogiMove::Drop { role, to } => {
            lemma_square_index(to, 0);
            let b = square_index(to);
            lemma_standing_update(pos.cells, b, Some(Piece { color: me, role }), me, slot, 81);
            lemma_standing_update(pos.cells, b, Some(Piece { color: me, role }), opp, slot, 81);
        },
    }
}

/// An attack goes to another square.
pub proof fn lemma_attack_moves(pos: PositionModel, from: crate::board::Coord, to: crate::board::Coord)
    requires
        crate::shogi::attacks_from(pos, from, to),
    ensures
        square_index(from) != square_index(to),
{
    let p = pos.at(from)->0;
    let own = Set::new(|c: crate::board::Coord| pos.at(c) is Some && c != to);
    crate::geometry::law_attacks_are_moves(pos, from, to);
    crate::geometry::lemma_goes_elsewhere(own, from, to, p.role, p.color);
    lemma_square_index(from, 0);
    lemma_square_index(to, 0);
}

/// What a player reckons is right: the own pieces, and what the opponent has.
spec fn reckons(pos: PositionModel, events: Seq<Event>, me: Color) -> bool {
    let side = side_after(me, events);
    &&& pos.wf()
    &&& side.consistent
    &&& side.own.turn == me
    &&& side.own.wf()
    &&& side.own.cells == only_side(pos, me).cells
    &&& side.own.hand(me) == pos.hand(me)
    &&& forall|slot: int|
        0 <= slot < 7 ==> #[trigger] owned(pos, Color::Sente, slot) + owned(pos, Color::Gote, slot)
            == 2 * starting_count(slot)
    &&& forall|slot: int|
        0 <= slot < 7 ==> opponent_count(side.lost, hand_counts(pos.hand(me)), slot)
            == #[trigger] owned(pos, other_color(me), slot) + dropped(events, slot)
}

proof fn lemma_neutral(pos: PositionModel, events: Seq<Event>, me: Color, e: Event)
    requires
        reckons(pos, events, me),
        (e is MyFoul) || (e is OpponentFoul) || (e is Check),
    ensures
        reckons(pos, events.push(e), me),
{
    assert(events.push(e).drop_last() =~= events);
    let a = side_after(me, events);
    let b = side_after(me, events.push(e));
    assert(b.own == a.own && b.lost == a.lost && b.consistent == a.consistent);
    assert forall|slot: int| 0 <= slot < 7 implies opponent_count(
        b.lost,
        hand_counts(pos.hand(me)),
        slot,
    ) == #[trigger] owned(pos, other_color(me), slot) + dropped(events.push(e), slot) by {
        assert(owned(pos, other_color(me), slot) + dropped(events, slot) == opponent_count(
            a.lost,
            hand_counts(pos.hand(me)),
            slot,
        ));
    }
}

proof fn lemma_hand_small(pos: PositionModel, events: Seq<Event>, me: Color, slot: int)
    requires
        reckons(pos, events, me),
        0 <= slot < 7,
    ensures
        pos.hand(Color::Sente)[slot] < 255,
        pos.hand(Color::Gote)[slot] < 255,
{
    assert(owned(pos, Color::Sente, slot) + owned(pos, Color::Gote, slot) == 2 * starting_count(
        slot,
    ));
    lemma_standing_bounds(pos.cells, Color::Sente, slot, 81);
    lemma_standing_bounds(pos.cells, Color::Gote, slot, 81);
}

/// The own move of a player keeps its reckoning right.
proof fn lemma_own_move(pos: PositionModel, events: Seq<Event>, me: Color, mv: ShogiMove)
    requires
        reckons(pos, events, me),
        legal(pos, mv),
        pos.turn == me,
    ensures
        reckons(
            after_move(pos, mv),
            events.push(
                Event::MyMove {
                    move_number: after_move(pos, mv).move_number,
                    usi: text_of_move(mv),
                    captured: hand_role(taken_by(pos, mv)),
                },
            ),
            me,
        ),
{
    let next = after_move(pos, mv);
    let e = Event::MyMove {
        move_number: next.move_number,
        usi: text_of_move(mv),
        captured: hand_role(taken_by(pos, mv)),
    };
    let a = side_after(me, events);
    let b = side_after(me, events.push(e));
    assert(events.push(e).drop_last() =~= events);
    lemma_legal_is_playable(pos, mv);
    law_usi_round_trip(mv);
    assert forall|slot: int| 0 <= slot < 7 implies #[trigger] owned(next, Color::Sente, slot) + owned(
        next,
        Color::Gote,
        slot,
    ) == 2 * starting_count(slot) && opponent_count(b.lost, hand_counts(next.hand(me)), slot)
        == owned(next, other_color(me), slot) + dropped(events.push(e), slot) by {
        lemma_hand_small(pos, events, me, slot);
        law_moves_conserve_pieces(pos, mv, slot);
        assert(owned(pos, Color::Sente, slot) + owned(pos, Color::Gote, slot) == 2
            * starting_count(slot));
        assert(owned(pos, other_color(me), slot) + dropped(events, slot) == opponent_count(
            a.lost,
            hand_counts(pos.hand(me)),
            slot,
        ));
        assert(b.lost == a.lost);
    }
    assert forall|slot: int| 0 <= slot < 7 implies opponent_count(
        b.lost,
        hand_counts(next.hand(me)),
        slot,
    ) == #[trigger] owned(next, other_color(me), slot) + dropped(events.push(e), slot) by {
        assert(owned(next, Color::Sente, slot) + owned(next, Color::Gote, slot) == 2
            * starting_count(slot));
    }
    match mv {
        ShogiMove::Board { from, to, promote } => {
            lemma_square_index(from, 0);
            lemma_square_index(to, 0);
            assert(pos.at(from)->0.color == me);
            assert(a.own.at(from) == pos.at(from));
            assert(a.own.at(to) is None);
            lemma_hand_small(pos, events, me, 0);
        },
        ShogiMove::Drop { role, to } => {
            lemma_square_index(to, 0);
            assert(a.own.at(to) is None);
        },
    }
    assert(b.own == own_move(a.own, mv, hand_role(taken_by(pos, mv)))->0);
    assert(b.own.cells =~= only_side(next, me).cells);
    assert(b.own.hand(me) =~= next.hand(me));
    lemma_hand_small(pos, events, me, 0);
    law_moves_conserve_pieces(pos, mv, 0);
}

/// A move of the opponent keeps a player's reckoning right.
proof fn lemma_their_move(pos: PositionModel, events: Seq<Event>, me: Color, mv: ShogiMove)
    requires
        reckons(pos, events, me),
        legal(pos, mv),
        pos.turn == other_color(me),
    ensures
        reckons(
            after_move(pos, mv),
            events.push(
                Event::OpponentMoved {
                    move_number: after_move(pos, mv).move_number,
                    captured_at: match (taken_by(pos, mv), mv) {
                        (Some(_), ShogiMove::Board { from, to, promote }) => Some(square_text(to)),
                        _ => None,
                    },
                },
            ),
            me,
        ),
{
    let next = after_move(pos, mv);
    let e = Event::OpponentMoved {
        move_number: next.move_number,
        captured_at: match (taken_by(pos, mv), mv) {
            (Some(_), ShogiMove::Board { from, to, promote }) => Some(square_text(to)),
            _ => None,
        },
    };
    let a = side_after(me, events);
    let b = side_after(me, events.push(e));
    assert(events.push(e).drop_last() =~= events);
    lemma_legal_is_playable(pos, mv);
    match mv {
        ShogiMove::Board { from, to, promote } => {
            lemma_square_index(from, 0);
            lemma_square_index(to, 0);
            crate::board::law_square_round_trip(to);
            assert(pos.at(from)->0.color == other_color(me));
            if pos.at(to) is Some {
                assert(pos.at(to)->0.color == me);
                assert(a.own.at(to) == pos.at(to));
                assert(b.lost == a.lost.push((to, pos.at(to)->0.role)));
                assert(b.lost.drop_last() =~= a.lost);
            }
        },
        ShogiMove::Drop { role, to } => {
            lemma_square_index(to, 0);
        },
    }
    assert forall|slot: int| 0 <= slot < 7 implies #[trigger] owned(next, Color::Sente, slot) + owned(
        next,
        Color::Gote,
        slot,
    ) == 2 * starting_count(slot) && opponent_count(b.lost, hand_counts(next.hand(me)), slot)
        == owned(next, other_color(me), slot) + dropped(events.push(e), slot) by {
        lemma_hand_small(pos, events, me, slot);
        law_moves_conserve_pieces(pos, mv, slot);
        assert(owned(pos, Color::Sente, slot) + owned(pos, Color::Gote, slot) == 2
            * starting_count(slot));
        assert(owned(pos, other_color(me), slot) + dropped(events, slot) == opponent_count(
            a.lost,
            hand_counts(pos.hand(me)),
            slot,
        ));
    }
    assert forall|slot: int| 0 <= slot < 7 implies opponent_count(
        b.lost,
        hand_counts(next.hand(me)),
        slot,
    ) == #[trigger] owned(next, other_color(me), slot) + dropped(events.push(e), slot) by {
        assert(owned(next, Color::Sente, slot) + owned(next, Color::Gote, slot) == 2
            * starting_count(slot));
    }
    assert(b.own.cells =~= only_side(next, me).cells);
    assert(b.own.hand(me) =~= next.hand(me));
    lemma_hand_small(pos, events, me, 0);
    law_moves_conserve_pieces(pos, mv, 0);
}

proof fn lemma_start(me: Color)
    ensures
        reckons(initial_model(), Seq::empty(), me),
{
    let pos = initial_model();
    let none = Seq::<Event>::empty();
    let side = side_after(me, none);
    assert(side == fresh_side(me));
    assert(side.own.cells =~= only_side(pos, me).cells);
    assert(side.own.hand(me) =~= pos.hand(me));
    assert forall|slot: int| 0 <= slot < 7 implies #[trigger] owned(pos, Color::Sente, slot) + owned(
        pos,
        Color::Gote,
        slot,
    ) == 2 * starting_count(slot) by {
        lemma_army(Color::Sente, slot);
        lemma_army(Color::Gote, slot);
    }
    assert forall|slot: int| 0 <= slot < 7 implies opponent_count(
        side.lost,
        hand_counts(pos.hand(me)),
        slot,
    ) == #[trigger] owned(pos, other_color(me), slot) + dropped(none, slot) by {
        lemma_army(other_color(me), slot);
    }
}

proof fn lemma_fouls(s: TruthState, records: Seq<FoulRecord>, me: Color)
    requires
        reckons(s.pos, s.logs.of(me), me),
    ensures
        turn_fouls(s, records).pos == s.pos,
        reckons(s.pos, turn_fouls(s, records).logs.of(me), me),
    decreases records.len() - s.used,
{
    if crate::replay::foul_is_next(s, records) {
        let t = foul_taken(s, records[s.used]);
        if s.pos.turn == me {
            let e = t.logs.of(me).last();
            assert(t.logs.of(me) =~= s.logs.of(me).push(e));
            lemma_neutral(s.pos, s.logs.of(me), me, e);
        } else {
            let e = t.logs.of(me).last();
            assert(t.logs.of(me) =~= s.logs.of(me).push(e));
            lemma_neutral(s.pos, s.logs.of(me), me, e);
        }
        lemma_fouls(t, records, me);
    }
}

proof fn lemma_run(moves: Seq<MoveRecord>, records: Seq<FoulRecord>, k: int, me: Color)
    requires
        0 <= k <= moves.len(),
        truth_run(moves, records, k).ok,
    ensures
        ({
            let s = truth_run(moves, records, k).state;
            reckons(s.pos, s.logs.of(me), me)
        }),
    decreases k,
{
    if k == 0 {
        lemma_start(me);
    } else {
        lemma_run(moves, records, k - 1, me);
        let r = truth_run(moves, records, k - 1).state;
        lemma_fouls(r, records, me);
        let s = turn_fouls(r, records);
        let mv = move_of_text(moves[k - 1].usi@)->0;
        let t = move_taken(s, mv);
        let next = after_move(s.pos, mv);
        let told = if s.pos.turn == me {
            Event::MyMove {
                move_number: next.move_number,
                usi: text_of_move(mv),
                captured: hand_role(taken_by(s.pos, mv)),
            }
        } else {
            Event::OpponentMoved {
                move_number: next.move_number,
                captured_at: match (taken_by(s.pos, mv), mv) {
                    (Some(_), ShogiMove::Board { from, to, promote }) => Some(square_text(to)),
                    _ => None,
                },
            }
        };
        if s.pos.turn == me {
            lemma_own_move(s.pos, s.logs.of(me), me, mv);
        } else {
            lemma_their_move(s.pos, s.logs.of(me), me, mv);
        }
        let base = s.logs.of(me).push(told);
        if crate::shogi::checked(next, next.turn) {
            let e = Event::Check { in_check: next.turn };
            lemma_neutral(next, base, me, e);
            assert(t.logs.of(me) =~= base.push(e));
        } else {
            assert(t.logs.of(me) =~= base);
        }
    }
}

/// What a player reckons that the opponent can have of a role is what the opponent really has of it,
/// on the board and in hand, and as much more as the player has dropped itself: exactly what it has
/// as long as nothing was dropped. This holds in every game of legal moves, with or without fouls.
pub proof fn law_opponent_is_counted(
    moves: Seq<MoveRecord>,
    records: Seq<FoulRecord>,
    k: int,
    me: Color,
    slot: int,
)
    requires
        0 <= k <= moves.len(),
        truth_run(moves, records, k).ok,
        0 <= slot < 7,
    ensures
        ({
            let s = truth_run(moves, records, k).state;
            let events = s.logs.of(me);
            let n = opponent_count(
                side_after(me, events).lost,
                hand_counts(s.pos.hand(me)),
                slot,
            );
            &&& n == owned(s.pos, other_color(me), slot) + dropped(events, slot)
            &&& dropped(events, slot) == 0 ==> n == owned(s.pos, other_color(me), slot)
            &&& n >= owned(s.pos, other_color(me), slot)
        }),
{
    lemma_run(moves, records, k, me);
    let s = truth_run(moves, records, k).state;
    lemma_dropped(s.logs.of(me), slot);
    assert(owned(s.pos, other_color(me), slot) + dropped(s.logs.of(me), slot) == opponent_count(
        side_after(me, s.logs.of(me)).lost,
        hand_counts(s.pos.hand(me)),
        slot,
    ));
}

proof fn lemma_dropped(events: Seq<Event>, slot: int)
    ensures
        dropped(events, slot) >= 0,
    decreases events.len(),
{
    if events.len() > 0 {
        lemma_dropped(events.drop_last(), slot);
    }
}

/// In a game of legal moves no piece ever goes missing: both sides together have what they started
/// with.
pub proof fn law_nothing_goes_missing(
    moves: Seq<MoveRecord>,
    records: Seq<FoulRecord>,
    k: int,
    slot: int,
)
    requires
        0 <= k <= moves.len(),
        truth_run(moves, records, k).ok,
        0 <= slot < 7,
    ensures
        ({
            let pos = truth_run(moves, records, k).state.pos;
            owned(pos, Color::Sente, slot) + owned(pos, Color::Gote, slot) == (if slot == 0 {
                18int
            } else if slot < 5 {
                4int
            } else {
                2int
            })
        }),
{
    lemma_run(moves, records, k, Color::Sente);
    let pos = truth_run(moves, records, k).state.pos;
    assert(owned(pos, Color::Sente, slot) + owned(pos, Color::Gote, slot) == 2 * starting_count(
        slot,
    ));
}

/// What a player restores from its observations is its own side as it really is.
pub proof fn law_own_side_is_known(
    moves: Seq<MoveRecord>,
    records: Seq<FoulRecord>,
    k: int,
    me: Color,
    c: crate::board::Coord,
)
    requires
        0 <= k <= moves.len(),
        truth_run(moves, records, k).ok,
        is_on_board(c),
    ensures
        ({
            let s = truth_run(moves, records, k).state;
            let side = side_after(me, s.logs.of(me));
            &&& side.consistent
            &&& side.own.hand(me) == s.pos.hand(me)
            &&& side.own.at(c) == (match s.pos.at(c) {
                Some(p) => if p.color == me {
                    Some(p)
                } else {
                    None
                },
                None => None,
            })
        }),
{
    lemma_run(moves, records, k, me);
    let s = truth_run(moves, records, k).state;
    lemma_square_index(c, 0);
    assert(only_side(s.pos, me).cells[square_index(c)] == side_after(me, s.logs.of(me)).own.at(c));
}

/// One more piece of a role in the own hand means one less with the opponent; one more lost to it means
/// one more.
pub proof fn law_counts_follow_hand_and_losses(
    lost: Seq<(crate::board::Coord, Role)>,
    hand: Seq<u32>,
    slot: int,
    c: crate::board::Coord,
    role: Role,
)
    requires
        hand.len() == 7,
        0 <= slot < 7,
        hand[slot] < u32::MAX,
    ensures
        opponent_count(lost, hand.update(slot, (hand[slot] + 1) as u32), slot) == opponent_count(
            lost,
            hand,
            slot,
        ) - 1,
        slot_of(unpromoted(role)) == Some(slot) ==> opponent_count(
            lost.push((c, role)),
            hand,
            slot,
        ) == opponent_count(lost, hand, slot) + 1,
        slot_of(unpromoted(role)) != Some(slot) ==> opponent_count(
            lost.push((c, role)),
            hand,
            slot,
        ) == opponent_count(lost, hand, slot),
{
    assert(lost.push((c, role)).drop_last() =~= lost);
}

} // verus!
