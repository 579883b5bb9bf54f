//! The rules of the game, told by what a move does and what it may do.

use crate::board::{
    all_squares, has_pawn_on_file, is_on_board, law_square_round_trip, law_square_text_is_canonical,
    lemma_square_index, may_drop, occupied_by, promotion_rule, square_at, square_index,
    square_of_text, square_text, targets_from, Coord, Promotion,
};
use crate::candidates::{
    candidate_list, drop_candidates, move_choices, piece_candidates, slots, untried,
};
use crate::geometry::law_attacks_are_moves;
use crate::lists::{lemma_filter_contains_iff, lemma_flat_map_contains};
use crate::protocol::{other_color, role_at_slot, slot_of, unpromoted, Color, Role};
use crate::replay::{only_side, pieces_of_side, shown};
use crate::shogi::{
    after_move, attacker_at, attacks_from, checked, find_king, hand_counts, has_board_evasion,
    king_of, law_legal_moves, legal, legal_list, outcome_of, pawn_on_file, pseudo_legal, taken_by,
    text_of_move, Outcome, Piece, PositionModel, ShogiMove,
};
use vstd::prelude::*;

verus! {

/// A board move takes the piece from its square to the other, promoted where it promotes, takes what
/// stands there into hand unpromoted, and changes nothing else on the board.
pub proof fn law_board_move(
    m: PositionModel,
    from: Coord,
    to: Coord,
    promote: bool,
    p: Piece,
    c: Coord,
)
    requires
        m.wf(),
        is_on_board(from),
        is_on_board(to),
        from != to,
        m.at(from) == Some(p),
        is_on_board(c),
    ensures
        ({
            let next = after_move(m, ShogiMove::Board { from, to, promote });
            &&& next.at(from) is None
            &&& next.at(to) matches Some(q) && q.color == p.color && q.role == (if promote {
                match p.role {
                    Role::Pawn => Role::Tokin,
                    Role::Lance => Role::Promotedlance,
                    Role::Knight => Role::Promotedknight,
                    Role::Silver => Role::Promotedsilver,
                    Role::Bishop => Role::Horse,
                    Role::Rook => Role::Dragon,
                    other => other,
                }
            } else {
                p.role
            })
            &&& c != from && c != to ==> next.at(c) == m.at(c)
            &&& next.turn != m.turn
            &&& m.move_number < u32::MAX ==> next.move_number == m.move_number + 1
            &&& next.hand(other_color(m.turn)) == m.hand(other_color(m.turn))
            &&& m.at(to) is None ==> next.hand(m.turn) == m.hand(m.turn)
        }),
{
    lemma_square_index(from, 0);
    lemma_square_index(to, 0);
    lemma_square_index(c, 0);
}

/// What is taken comes into the hand of the side that moves as the role it had before it promoted; all
/// other numbers in the hand stay. A king does not come into a hand.
pub proof fn law_captures_go_to_hand(
    m: PositionModel,
    from: Coord,
    to: Coord,
    promote: bool,
    q: Piece,
    i: int,
)
    requires
        m.wf(),
        is_on_board(from),
        is_on_board(to),
        m.at(from) is Some,
        m.at(to) == Some(q),
        0 <= i < 7,
        m.hand(m.turn)[i] < 255,
    ensures
        ({
            let next = after_move(m, ShogiMove::Board { from, to, promote });
            let slot = match q.role {
                Role::Pawn | Role::Tokin => 0int,
                Role::Lance | Role::Promotedlance => 1,
                Role::Knight | Role::Promotedknight => 2,
                Role::Silver | Role::Promotedsilver => 3,
                Role::Gold => 4,
                Role::Bishop | Role::Horse => 5,
                Role::Rook | Role::Dragon => 6,
                Role::King => 7,
            };
            &&& next.hand(m.turn)[i] == m.hand(m.turn)[i] + (if i == slot {
                1int
            } else {
                0int
            })
            &&& taken_by(m, ShogiMove::Board { from, to, promote }) == Some(q.role)
        }),
{
}

/// A drop puts a piece of the side that moves on the square, unpromoted, and takes it from the hand.
pub proof fn law_drop(m: PositionModel, role: Role, to: Coord, c: Coord, i: int)
    requires
        m.wf(),
        is_on_board(to),
        is_on_board(c),
        0 <= i < 7,
        role == role_at_slot(i),
        m.hand(m.turn)[i] > 0,
    ensures
        ({
            let next = after_move(m, ShogiMove::Drop { role, to });
            &&& next.at(to) == Some(Piece { color: m.turn, role })
            &&& c != to ==> next.at(c) == m.at(c)
            &&& next.hand(m.turn)[i] == m.hand(m.turn)[i] - 1
            &&& forall|j: int|
                0 <= j < 7 && j != i ==> #[trigger] next.hand(m.turn)[j] == m.hand(m.turn)[j]
            &&& next.hand(other_color(m.turn)) == m.hand(other_color(m.turn))
            &&& next.turn != m.turn
            &&& taken_by(m, ShogiMove::Drop { role, to }) is None
        }),
{
    lemma_square_index(to, 0);
    lemma_square_index(c, 0);
}

/// What a legal board move is: of an own piece, to a square that it attacks and no own piece stands
/// on, promoting only where the role can and one of the squares is among the three farthest ranks, not
/// staying unpromoted where the piece could never move again, and not leaving the own king in check.
pub proof fn law_legal_board_move(m: PositionModel, from: Coord, to: Coord, promote: bool)
    ensures
        ({
            let far = |c: Coord|
                match m.turn {
                    Color::Sente => c.rank <= 3,
                    Color::Gote => c.rank >= 7,
                };
            let last = match m.turn {
                Color::Sente => to.rank as int,
                Color::Gote => 10 - to.rank,
            };
            legal(m, ShogiMove::Board { from, to, promote }) <==> (m.at(from) matches Some(p) && {
                &&& p.color == m.turn
                &&& attacks_from(m, from, to)
                &&& !(m.at(to) matches Some(q) && q.color == m.turn)
                &&& promote ==> (p.role == Role::Pawn || p.role == Role::Lance || p.role
                    == Role::Knight || p.role == Role::Silver || p.role == Role::Bishop || p.role
                    == Role::Rook) && (far(from) || far(to))
                &&& !promote ==> !((p.role == Role::Pawn || p.role == Role::Lance) && last <= 1)
                    && !(p.role == Role::Knight && last <= 2)
                &&& !checked(after_move(m, ShogiMove::Board { from, to, promote }), m.turn)
            })
        }),
{
}

/// What a legal drop is: of a piece in hand, to an empty square from which it can move, not a second
/// unpromoted pawn of the side on a file, not leaving the own king in check, and not a pawn that mates.
pub proof fn law_legal_drop(m: PositionModel, role: Role, to: Coord)
    ensures
        ({
            let last = match m.turn {
                Color::Sente => to.rank as int,
                Color::Gote => 10 - to.rank,
            };
            let next = after_move(m, ShogiMove::Drop { role, to });
            legal(m, ShogiMove::Drop { role, to }) <==> {
                &&& is_on_board(to)
                &&& m.at(to) is None
                &&& exists|i: int| 0 <= i < 7 && role == role_at_slot(i) && #[trigger] m.hand(m.turn)[i] > 0
                &&& !((role == Role::Pawn || role == Role::Lance) && last <= 1)
                &&& !(role == Role::Knight && last <= 2)
                &&& role == Role::Pawn ==> forall|c: Coord|
                    c.file == to.file ==> #[trigger] m.at(c) != Some(
                        Piece { color: m.turn, role: Role::Pawn },
                    )
                &&& !checked(next, m.turn)
                &&& role == Role::Pawn && checked(next, next.turn) ==> exists|
                    a: Coord,
                    b: Coord,
                    up: bool,
                |
                    #[trigger] pseudo_legal(next, ShogiMove::Board { from: a, to: b, promote: up })
                        && !checked(
                        after_move(next, ShogiMove::Board { from: a, to: b, promote: up }),
                        next.turn,
                    )
            }
        }),
{
    let mv = ShogiMove::Drop { role, to };
    let next = after_move(m, mv);
    if slot_of(role) is Some {
        let i = slot_of(role)->0;
        assert(role == role_at_slot(i));
        assert(m.hand(m.turn)[i] == m.hand(m.turn)[slot_of(role)->0]);
    }
    assert(next.turn == other_color(m.turn));
    if has_board_evasion(next) {
        let (a, b, up) = choose|a: Coord, b: Coord, up: bool|
            #[trigger] crate::shogi::evades(next, ShogiMove::Board { from: a, to: b, promote: up });
        assert(pseudo_legal(next, ShogiMove::Board { from: a, to: b, promote: up }));
    }
    if exists|a: Coord, b: Coord, up: bool| #[trigger]
        pseudo_legal(next, ShogiMove::Board { from: a, to: b, promote: up }) && !checked(
            after_move(next, ShogiMove::Board { from: a, to: b, promote: up }),
            next.turn,
        ) {
        let (a, b, up) = choose|a: Coord, b: Coord, up: bool| #[trigger]
            pseudo_legal(next, ShogiMove::Board { from: a, to: b, promote: up }) && !checked(
                after_move(next, ShogiMove::Board { from: a, to: b, promote: up }),
                next.turn,
            );
        assert(crate::shogi::evades(next, ShogiMove::Board { from: a, to: b, promote: up }));
    }
    assert(pawn_on_file(m, m.turn, to.file as int) <==> exists|c: Coord|
        c.file == to.file && #[trigger] m.at(c) == Some(Piece { color: m.turn, role: Role::Pawn }));
}

/// A side is in check exactly where its king stands on a square that a piece of the other side
/// attacks.
pub proof fn law_check(m: PositionModel, color: Color, king: Coord)
    requires
        m.wf(),
        is_on_board(king),
        m.at(king) == Some(Piece { color, role: Role::King }),
        forall|c: Coord| #[trigger] m.at(c) == Some(Piece { color, role: Role::King }) ==> c == king,
    ensures
        king_of(m, color) == Some(king),
        checked(m, color) <==> exists|c: Coord|
            #[trigger] attacks_from(m, c, king) && (m.at(c) matches Some(p) && p.color != color),
{
    lemma_square_index(king, 0);
    lemma_king_found(m, color, king, 0);
    if checked(m, color) {
        let s = choose|s: Coord| #[trigger] attacker_at(m, other_color(color), s, king);
        assert(attacks_from(m, s, king));
    }
    if exists|c: Coord| #[trigger]
        attacks_from(m, c, king) && (m.at(c) matches Some(p) && p.color != color) {
        let c = choose|c: Coord| #[trigger]
            attacks_from(m, c, king) && (m.at(c) matches Some(p) && p.color != color);
        assert(attacker_at(m, other_color(color), c, king));
    }
}

proof fn lemma_king_found(m: PositionModel, color: Color, king: Coord, i: int)
    requires
        m.wf(),
        is_on_board(king),
        0 <= i <= square_index(king),
        m.at(king) == Some(Piece { color, role: Role::King }),
        forall|c: Coord| #[trigger] m.at(c) == Some(Piece { color, role: Role::King }) ==> c == king,
    ensures
        find_king(m.cells, color, i) == Some(king),
    decreases 81 - i,
{
    lemma_square_index(king, i);
    if i < square_index(king) {
        let c = square_at(i);
        assert(m.at(c) == m.cells[i]);
        lemma_king_found(m, color, king, i + 1);
    }
}

/// A game ends exactly where the side to move has no legal move: by mate where it is in check, else by
/// stalemate, and the other side has won.
pub proof fn law_game_ends(m: PositionModel)
    ensures
        outcome_of(m) is None <==> exists|mv: ShogiMove| #[trigger] legal(m, mv),
        outcome_of(m) matches Some(Outcome::Checkmate { winner }) ==> winner != m.turn && checked(
            m,
            m.turn,
        ),
        outcome_of(m) matches Some(Outcome::Stalemate { winner }) ==> winner != m.turn && !checked(
            m,
            m.turn,
        ),
{
    if legal_list(m).len() > 0 {
        let mv = legal_list(m)[0];
        assert(legal_list(m).contains(mv));
        law_legal_moves(m, mv);
    }
    if exists|mv: ShogiMove| #[trigger] legal(m, mv) {
        let mv = choose|mv: ShogiMove| #[trigger] legal(m, mv);
        law_legal_moves(m, mv);
        assert(legal_list(m).contains(mv));
    }
}

/// Promotion is a choice where the role can promote and one of the squares is among the three farthest
/// ranks, is forced where the piece could not go on otherwise, and else does not come up.
pub proof fn law_promotion(role: Role, from: Coord, to: Coord, color: Color)
    requires
        is_on_board(from),
        is_on_board(to),
    ensures
        ({
            let can = role == Role::Pawn || role == Role::Lance || role == Role::Knight || role
                == Role::Silver || role == Role::Bishop || role == Role::Rook;
            let far = match color {
                Color::Sente => from.rank <= 3 || to.rank <= 3,
                Color::Gote => from.rank >= 7 || to.rank >= 7,
            };
            let last = match color {
                Color::Sente => to.rank as int,
                Color::Gote => 10 - to.rank,
            };
            let stuck = ((role == Role::Pawn || role == Role::Lance) && last == 1) || (role
                == Role::Knight && last <= 2);
            &&& promotion_rule(role, from, to, color) == Promotion::Never <==> !(can && far)
            &&& promotion_rule(role, from, to, color) == Promotion::Forced <==> stuck
            &&& promotion_rule(role, from, to, color) == Promotion::Optional <==> can && far && !stuck
        }),
{
}

/// Where a piece may be dropped as far as its own side can tell: on a square of the board that no own
/// piece holds, from which it can move, and for a pawn on a file without an own unpromoted pawn.
pub proof fn law_drop_targets(
    pieces: Seq<(Seq<char>, Role)>,
    role: Role,
    color: Color,
    c: Coord,
)
    ensures
        ({
            let last = match color {
                Color::Sente => c.rank as int,
                Color::Gote => 10 - c.rank,
            };
            all_squares().filter(|x: Coord| may_drop(pieces, role, color, x)).contains(c) <==> {
                &&& is_on_board(c)
                &&& forall|i: int|
                    0 <= i < pieces.len() ==> square_of_text((#[trigger] pieces[i]).0) != Some(c)
                &&& !((role == Role::Pawn || role == Role::Lance) && last <= 1)
                &&& !(role == Role::Knight && last <= 2)
                &&& role == Role::Pawn ==> forall|i: int|
                    0 <= i < pieces.len() && (#[trigger] pieces[i]).1 == Role::Pawn ==> !(
                    square_of_text(pieces[i].0) matches Some(d) && d.file == c.file)
            }
        }),
{
    let good = |x: Coord| may_drop(pieces, role, color, x);
    lemma_filter_contains_iff(all_squares(), good, c);
    if is_on_board(c) {
        lemma_square_index(c, 0);
        assert(all_squares()[square_index(c)] == c);
    }
    if occupied_by(pieces).contains(c) {
        let i = choose|i: int|
            0 <= i < pieces.len() && #[trigger] square_of_text(pieces[i].0) == Some(c);
        assert(square_of_text(pieces[i].0) == Some(c));
    }
    if has_pawn_on_file(pieces, c.file as int) {
        let i = choose|i: int|
            0 <= i < pieces.len() && pieces[i].1 == Role::Pawn && (
            #[trigger] square_of_text(pieces[i].0) matches Some(d) && d.file == c.file as int);
        assert(pieces[i].1 == Role::Pawn);
    }
}

/// What a player is shown of a position is its own side as it is: each own piece with its square and
/// role, and nothing of the other side; the hand, the turn, the fouls of both sides and whether a side
/// is in check.
pub proof fn law_view_is_true(
    pos: PositionModel,
    me: Color,
    fouls: Seq<u32>,
    c: Coord,
    role: Role,
    i: int,
)
    requires
        pos.wf(),
        is_on_board(c),
        0 <= i < 7,
        fouls.len() == 2,
    ensures
        ({
            let v = shown(pos, me, fouls);
            &&& v.pieces.contains((square_text(c), role)) <==> pos.at(c) == Some(
                Piece { color: me, role },
            )
            &&& v.color == me
            &&& v.hand.len() == 7 && v.hand[i] == pos.hand(me)[i]
            &&& v.turn == pos.turn
            &&& v.move_number == pos.move_number
            &&& v.you_in_check == checked(pos, me)
            &&& v.opponent_in_check == checked(pos, other_color(me))
            &&& me == Color::Sente ==> v.fouls.you == fouls[0] && v.fouls.opponent == fouls[1]
            &&& me == Color::Gote ==> v.fouls.you == fouls[1] && v.fouls.opponent == fouls[0]
        }),
{
    lemma_own_list(pos, me, c, role);
}

proof fn lemma_own_list(pos: PositionModel, me: Color, c: Coord, role: Role)
    requires
        pos.wf(),
        is_on_board(c),
    ensures
        pieces_of_side(pos, me).contains((square_text(c), role)) <==> pos.at(c) == Some(
            Piece { color: me, role },
        ),
        forall|k: int|
            0 <= k < pieces_of_side(pos, me).len() ==> {
                let p = #[trigger] pieces_of_side(pos, me)[k];
                square_of_text(p.0) matches Some(d) && pos.at(d) == Some(
                    Piece { color: me, role: p.1 },
                )
            },
{
    let own = only_side(pos, me);
    let held = |x: Coord| own.at(x) is Some;
    let pair = |x: Coord| (square_text(x), own.at(x)->0.role);
    let kept = all_squares().filter(held);
    let list = pieces_of_side(pos, me);
    assert forall|k: int| 0 <= k < list.len() implies {
        let p = #[trigger] list[k];
        square_of_text(p.0) matches Some(d) && pos.at(d) == Some(Piece { color: me, role: p.1 })
    } by {
        let d = kept[k];
        all_squares().lemma_filter_pred(held, k);
        all_squares().lemma_filter_contains_rev(held, d);
        let j = choose|j: int| 0 <= j < all_squares().len() && all_squares()[j] == d;
        lemma_square_index(d, j);
        law_square_round_trip(d);
        assert(own.at(d) == own.cells[square_index(d)]);
    }
    lemma_square_index(c, 0);
    if pos.at(c) == Some(Piece { color: me, role }) {
        assert(own.at(c) == Some(Piece { color: me, role }));
        assert(all_squares()[square_index(c)] == c);
        all_squares().lemma_filter_contains(held, square_index(c));
        let k = choose|k: int| 0 <= k < kept.len() && kept[k] == c;
        assert(list[k] == (square_text(c), role));
    }
    if list.contains((square_text(c), role)) {
        let k = choose|k: int| 0 <= k < list.len() && list[k] == (square_text(c), role);
        assert(square_of_text(list[k].0) is Some);
        law_square_round_trip(c);
    }
}

/// The candidates of a player are exactly the moves that the rules would allow, but for the own king,
/// if the own pieces were alone on the board.
pub proof fn law_candidates(pos: PositionModel, me: Color, mv: ShogiMove)
    requires
        pos.wf(),
        pos.turn == me,
    ensures
        candidate_list(pieces_of_side(pos, me), hand_counts(pos.hand(me)), me).contains(mv)
            <==> pseudo_legal(only_side(pos, me), mv),
{
    let own = only_side(pos, me);
    let pieces = pieces_of_side(pos, me);
    let hand = hand_counts(pos.hand(me));
    let of_piece = |p: (Seq<char>, Role)| piece_candidates(pieces, p, me);
    let of_slot = |i: int| drop_candidates(pieces, hand, me, i);
    let moves = pieces.flat_map(of_piece);
    let drops = slots().flat_map(of_slot);
    let all = candidate_list(pieces, hand, me);
    assert(all =~= moves + drops);
    assert(all.contains(mv) <==> moves.contains(mv) || drops.contains(mv)) by {
        if moves.contains(mv) {
            let k = choose|k: int| 0 <= k < moves.len() && moves[k] == mv;
            assert(all[k] == mv);
        }
        if drops.contains(mv) {
            let k = choose|k: int| 0 <= k < drops.len() && drops[k] == mv;
            assert(all[moves.len() + k] == mv);
        }
    }
    lemma_flat_map_contains(pieces, of_piece, mv);
    lemma_flat_map_contains(slots(), of_slot, mv);
    lemma_own_occupied(pos, me);
    assert(own.wf());
    match mv {
        ShogiMove::Board { from, to, promote } => {
            assert(!drops.contains(mv)) by {
                if drops.contains(mv) {
                    let i = choose|i: int|
                        0 <= i < slots().len() && #[trigger] of_slot(slots()[i]).contains(mv);
                    let part = drop_candidates(pieces, hand, me, i);
                    assert(part.contains(mv));
                    let k = choose|k: int| 0 <= k < part.len() && part[k] == mv;
                    assert(part[k] is Drop);
                }
            }
            if moves.contains(mv) {
                let i = choose|i: int|
                    0 <= i < pieces.len() && #[trigger] of_piece(pieces[i]).contains(mv);
                lemma_own_list(pos, me, Coord { file: 1, rank: 1 }, Role::Pawn);
                let p = pieces[i];
                let a = square_of_text(p.0)->0;
                law_square_text_is_canonical(p.0);
                lemma_piece_candidate(pos, me, a, p.1, mv);
                assert(piece_candidates(pieces, p, me).contains(mv));
            }
            if pseudo_legal(own, mv) {
                let p = own.at(from)->0;
                lemma_square_index(from, 0);
                assert(pos.at(from) == Some(Piece { color: me, role: p.role }));
                lemma_own_list(pos, me, from, p.role);
                let i = choose|i: int|
                    0 <= i < pieces.len() && pieces[i] == (square_text(from), p.role);
                law_square_round_trip(from);
                lemma_piece_candidate(pos, me, from, p.role, mv);
                assert(of_piece(pieces[i]).contains(mv));
            }
        },
        ShogiMove::Drop { role, to } => {
            assert(!moves.contains(mv)) by {
                if moves.contains(mv) {
                    let i = choose|i: int|
                        0 <= i < pieces.len() && #[trigger] of_piece(pieces[i]).contains(mv);
                    lemma_piece_candidates_are_board(pieces, pieces[i], me, mv);
                }
            }
            lemma_pawn_files(pos, me, to);
            if drops.contains(mv) {
                let i = choose|i: int|
                    0 <= i < slots().len() && #[trigger] of_slot(slots()[i]).contains(mv);
                lemma_drop_candidate(pieces, hand, me, i, mv);
                assert(slot_of(role_at_slot(i)) == Some(i));
                lemma_square_index(to, 0);
                assert(own.at(to) is None <==> !occupied_by(pieces).contains(to));
            }
            if pseudo_legal(own, mv) {
                let i = slot_of(role)->0;
                lemma_square_index(to, 0);
                assert(own.at(to) is None <==> !occupied_by(pieces).contains(to));
                assert(role_at_slot(i) == role);
                lemma_drop_candidate(pieces, hand, me, i, mv);
                assert(slots()[i] == i);
                assert(of_slot(slots()[i]).contains(mv));
            }
        },
    }
}

proof fn lemma_own_occupied(pos: PositionModel, me: Color)
    requires
        pos.wf(),
    ensures
        forall|c: Coord| #[trigger]
            occupied_by(pieces_of_side(pos, me)).contains(c) <==> only_side(pos, me).at(c) is Some,
{
    let pieces = pieces_of_side(pos, me);
    let own = only_side(pos, me);
    assert forall|c: Coord| #[trigger] occupied_by(pieces).contains(c) <==> own.at(c) is Some by {
        if occupied_by(pieces).contains(c) {
            let i = choose|i: int|
                0 <= i < pieces.len() && #[trigger] square_of_text(pieces[i].0) == Some(c);
            lemma_own_list(pos, me, Coord { file: 1, rank: 1 }, Role::Pawn);
            law_square_text_is_canonical(pieces[i].0);
            lemma_square_index(c, 0);
            assert(pos.at(c) == Some(Piece { color: me, role: pieces[i].1 }));
        }
        if own.at(c) is Some {
            lemma_square_index(c, 0);
            let role = own.at(c)->0.role;
            assert(pos.at(c) == Some(Piece { color: me, role }));
            lemma_own_list(pos, me, c, role);
            let i = choose|i: int| 0 <= i < pieces.len() && pieces[i] == (square_text(c), role);
            law_square_round_trip(c);
            assert(square_of_text(pieces[i].0) == Some(c));
        }
    }
}

proof fn lemma_pawn_files(pos: PositionModel, me: Color, to: Coord)
    requires
        pos.wf(),
    ensures
        has_pawn_on_file(pieces_of_side(pos, me), to.file as int) <==> pawn_on_file(
            only_side(pos, me),
            me,
            to.file as int,
        ),
{
    let pieces = pieces_of_side(pos, me);
    let own = only_side(pos, me);
    if has_pawn_on_file(pieces, to.file as int) {
        let i = choose|i: int|
            0 <= i < pieces.len() && pieces[i].1 == Role::Pawn && (
            #[trigger] square_of_text(pieces[i].0) matches Some(c) && c.file == to.file as int);
        let c = square_of_text(pieces[i].0)->0;
        lemma_own_list(pos, me, Coord { file: 1, rank: 1 }, Role::Pawn);
        law_square_text_is_canonical(pieces[i].0);
        lemma_square_index(c, 0);
        assert(pos.at(c) == Some(Piece { color: me, role: Role::Pawn }));
        assert(own.at(c) == Some(Piece { color: me, role: Role::Pawn }));
    }
    if pawn_on_file(own, me, to.file as int) {
        let c = choose|c: Coord|
            c.file == to.file as int && #[trigger] own.at(c) == Some(
                Piece { color: me, role: Role::Pawn },
            );
        lemma_square_index(c, 0);
        assert(pos.at(c) == Some(Piece { color: me, role: Role::Pawn }));
        lemma_own_list(pos, me, c, Role::Pawn);
        let i = choose|i: int| 0 <= i < pieces.len() && pieces[i] == (square_text(c), Role::Pawn);
        law_square_round_trip(c);
        assert(square_of_text(pieces[i].0) == Some(c));
    }
}

proof fn lemma_piece_candidates_are_board(
    pieces: Seq<(Seq<char>, Role)>,
    p: (Seq<char>, Role),
    me: Color,
    mv: ShogiMove,
)
    requires
        piece_candidates(pieces, p, me).contains(mv),
    ensures
        mv is Board,
        square_of_text(p.0) is Some,
{
    let a = square_of_text(p.0)->0;
    let ways = |to: Coord| move_choices(p.1, a, to, me);
    let targets = targets_from(occupied_by(pieces), a, p.1, me);
    lemma_flat_map_contains(targets, ways, mv);
    let k = choose|k: int| 0 <= k < targets.len() && #[trigger] ways(targets[k]).contains(mv);
    let part = move_choices(p.1, a, targets[k], me);
    let n = choose|n: int| 0 <= n < part.len() && part[n] == mv;
    assert(part[n] is Board);
}

proof fn lemma_piece_candidate(pos: PositionModel, me: Color, a: Coord, role: Role, mv: ShogiMove)
    requires
        pos.wf(),
        pos.turn == me,
        is_on_board(a),
        pos.at(a) == Some(Piece { color: me, role }),
        mv is Board,
    ensures
        piece_candidates(pieces_of_side(pos, me), (square_text(a), role), me).contains(mv) <==> (
        mv matches ShogiMove::Board { from, to, promote } && from == a && pseudo_legal(
            only_side(pos, me),
            mv,
        )),
{
    let pieces = pieces_of_side(pos, me);
    let own = only_side(pos, me);
    let ways = |to: Coord| move_choices(role, a, to, me);
    let targets = targets_from(occupied_by(pieces), a, role, me);
    let list = piece_candidates(pieces, (square_text(a), role), me);
    law_square_round_trip(a);
    lemma_square_index(a, 0);
    assert(own.at(a) == Some(Piece { color: me, role }));
    lemma_flat_map_contains(targets, ways, mv);
    lemma_own_occupied(pos, me);
    let to = mv->Board_to;
    if list.contains(mv) {
        let k = choose|k: int| 0 <= k < targets.len() && #[trigger] ways(targets[k]).contains(mv);
        let part = move_choices(role, a, targets[k], me);
        let n = choose|n: int| 0 <= n < part.len() && part[n] == mv;
        assert(targets[k] == to);
        assert(targets.contains(to));
        crate::board::law_move_targets(occupied_by(pieces), a, role, me, to);
        lemma_square_index(to, 0);
        lemma_open_target(pos, me, a, to, role);
    }
    if mv->Board_from == a && pseudo_legal(own, mv) {
        lemma_square_index(to, 0);
        lemma_open_target(pos, me, a, to, role);
        let k = choose|k: int| 0 <= k < targets.len() && targets[k] == to;
        let part = move_choices(role, a, to, me);
        assert(part.contains(mv)) by {
            match promotion_rule(role, a, to, me) {
                Promotion::Never => {
                    assert(part[0] == mv);
                },
                Promotion::Optional => {
                    if mv->Board_promote {
                        assert(part[1] == mv);
                    } else {
                        assert(part[0] == mv);
                    }
                },
                Promotion::Forced => {
                    assert(part[0] == mv);
                },
            }
        }
        assert(ways(targets[k]).contains(mv));
    }
}

/// A square without an own piece is a target where it is attacked.
proof fn lemma_open_target(pos: PositionModel, me: Color, a: Coord, to: Coord, role: Role)
    requires
        pos.wf(),
        is_on_board(a),
        is_on_board(to),
        only_side(pos, me).at(a) == Some(Piece { color: me, role }),
        only_side(pos, me).at(to) is None || targets_from(
            occupied_by(pieces_of_side(pos, me)),
            a,
            role,
            me,
        ).contains(to),
    ensures
        only_side(pos, me).at(to) is None,
        targets_from(occupied_by(pieces_of_side(pos, me)), a, role, me).contains(to)
            <==> attacks_from(only_side(pos, me), a, to),
{
    let own = only_side(pos, me);
    let set = occupied_by(pieces_of_side(pos, me));
    lemma_own_occupied(pos, me);
    crate::board::law_move_targets(set, a, role, me, to);
    assert(own.at(to) is None <==> !set.contains(to));
    law_attacks_are_moves(own, a, to);
    let other = Set::new(|c: Coord| own.at(c) is Some && c != to);
    assert(other =~= set) by {
        assert forall|c: Coord| other.contains(c) <==> set.contains(c) by {
            assert(set.contains(c) <==> own.at(c) is Some);
        }
    }
}

proof fn lemma_drop_candidate(
    pieces: Seq<(Seq<char>, Role)>,
    hand: Seq<u32>,
    me: Color,
    i: int,
    mv: ShogiMove,
)
    requires
        0 <= i < 7,
        mv is Drop,
    ensures
        drop_candidates(pieces, hand, me, i).contains(mv) <==> hand[i] > 0 && (
        mv matches ShogiMove::Drop { role, to } && role == role_at_slot(i) && may_drop(
            pieces,
            role,
            me,
            to,
        )),
{
    let role = role_at_slot(i);
    let good = |c: Coord| may_drop(pieces, role, me, c);
    let kept = all_squares().filter(good);
    let list = drop_candidates(pieces, hand, me, i);
    let to = mv->Drop_to;
    lemma_filter_contains_iff(all_squares(), good, to);
    if list.contains(mv) {
        let k = choose|k: int| 0 <= k < list.len() && list[k] == mv;
        assert(kept[k] == to);
        assert(kept.contains(to));
    }
    if hand[i] > 0 && mv->Drop_role == role && may_drop(pieces, role, me, to) {
        lemma_square_index(to, 0);
        assert(all_squares()[square_index(to)] == to);
        let k = choose|k: int| 0 <= k < kept.len() && kept[k] == to;
        assert(list[k] == mv);
    }
}

/// A player never lacks a move: whatever is legal in the true position is among its candidates.
pub proof fn law_legal_moves_are_candidates(pos: PositionModel, me: Color, mv: ShogiMove)
    requires
        pos.wf(),
        pos.turn == me,
        legal(pos, mv),
    ensures
        candidate_list(pieces_of_side(pos, me), hand_counts(pos.hand(me)), me).contains(mv),
{
    let own = only_side(pos, me);
    law_candidates(pos, me, mv);
    match mv {
        ShogiMove::Board { from, to, promote } => {
            lemma_square_index(from, 0);
            lemma_square_index(to, 0);
            let p = pos.at(from)->0;
            assert(own.at(from) == Some(p));
            lemma_fewer_pieces_attack(pos, me, from, to);
        },
        ShogiMove::Drop { role, to } => {
            lemma_square_index(to, 0);
            if pawn_on_file(own, me, to.file as int) {
                let c = choose|c: Coord|
                    c.file == to.file as int && #[trigger] own.at(c) == Some(
                        Piece { color: me, role: Role::Pawn },
                    );
                lemma_square_index(c, 0);
                assert(pos.at(c) == Some(Piece { color: me, role: Role::Pawn }));
            }
        },
    }
}

/// Without the other side's pieces a piece attacks at least as much.
proof fn lemma_fewer_pieces_attack(pos: PositionModel, me: Color, from: Coord, to: Coord)
    requires
        pos.wf(),
        attacks_from(pos, from, to),
        pos.at(from)->0.color == me,
    ensures
        attacks_from(only_side(pos, me), from, to),
{
    let own = only_side(pos, me);
    let p = pos.at(from)->0;
    lemma_square_index(from, 0);
    assert(own.at(from) == Some(p));
    if crate::shogi::ray_hits(pos, p.role, p.color, from, to) {
        let (i, n) = choose|i: int, n: int| #[trigger]
            crate::shogi::run_reaches(pos, p.role, p.color, from, to, i, n);
        let d = crate::board::oriented(crate::board::ray_deltas(p.role)[i], p.color);
        assert forall|k: int| 0 < k < n implies is_on_board(#[trigger] crate::board::along(from, d, k))
            && own.at(crate::board::along(from, d, k)) is None by {
            let c = crate::board::along(from, d, k);
            assert(is_on_board(c) && pos.at(c) is None);
            lemma_square_index(c, 0);
        }
        assert(crate::shogi::run_reaches(own, p.role, p.color, from, to, i, n));
    }
}

/// What was tried and was a foul is left out of the candidates, and nothing else is.
pub proof fn law_tried_moves_are_left_out(moves: Seq<ShogiMove>, tried: Seq<String>, mv: ShogiMove)
    ensures
        untried(moves, tried).contains(mv) <==> moves.contains(mv) && forall|i: int|
            0 <= i < tried.len() ==> (#[trigger] tried[i])@ != text_of_move(mv),
{
    let fresh = |x: ShogiMove| !crate::candidates::listed(tried, text_of_move(x));
    lemma_filter_contains_iff(moves, fresh, mv);
    if crate::candidates::listed(tried, text_of_move(mv)) {
        let i = choose|i: int| 0 <= i < tried.len() && #[trigger] tried[i]@ == text_of_move(mv);
        assert(tried[i]@ == text_of_move(mv));
    }
}

} // verus!
