//! Mating problems from played games: what a position asks, which verdicts of a solver are good
//! enough, and which problems of a game are taken.

use crate::board::{all_squares, coord_at, is_on_board, Coord};
use crate::client::text_of;
use crate::config::texts_of;
use crate::digest::{digest_hex, hex_of, is_hex_text, sha256_of};
use crate::json::listed;
use crate::protocol::{other_color, slot_of, Color, GameEndPayload, Role};
use crate::replay::{decision_list, game_run, replay_game, DecisionModel};
use crate::shogi::{checked, king_of, Piece, Position, PositionModel};
use crate::text::{
    append_decimal, append_signed, begins, behind, decimal, number_of, parse_number, same_text,
    signed_decimal,
};
use vstd::prelude::*;
use vstd::string::*;
use vstd::utf8::*;

verus! {

/// The name of a role in a problem.
pub open spec fn kind_text(role: Role) -> Seq<char> {
    match role {
        Role::King => "king"@,
        Role::Rook => "rook"@,
        Role::Bishop => "bishop"@,
        Role::Gold => "gold"@,
        Role::Silver => "silver"@,
        Role::Knight => "knight"@,
        Role::Lance => "lance"@,
        Role::Pawn => "pawn"@,
        Role::Dragon => "promoted_rook"@,
        Role::Horse => "promoted_bishop"@,
        Role::Promotedsilver => "promoted_silver"@,
        Role::Promotedknight => "promoted_knight"@,
        Role::Promotedlance => "promoted_lance"@,
        Role::Tokin => "promoted_pawn"@,
    }
}

/// The name of a role in a problem.
pub fn role_kind(role: Role) -> (res: &'static str)
    ensures
        res@ == kind_text(role),
{
    match role {
        Role::King => "king",
        Role::Rook => "rook",
        Role::Bishop => "bishop",
        Role::Gold => "gold",
        Role::Silver => "silver",
        Role::Knight => "knight",
        Role::Lance => "lance",
        Role::Pawn => "pawn",
        Role::Dragon => "promoted_rook",
        Role::Horse => "promoted_bishop",
        Role::Promotedsilver => "promoted_silver",
        Role::Promotedknight => "promoted_knight",
        Role::Promotedlance => "promoted_lance",
        Role::Tokin => "promoted_pawn",
    }
}

/// A square as the attacker sees it: the board is turned round for one who sits at the far side.
pub open spec fn turned(c: Coord, flip: bool) -> Coord {
    if flip {
        Coord { file: (10 - c.file) as i8, rank: (10 - c.rank) as i8 }
    } else {
        c
    }
}

/// A square as the attacker sees it.
pub fn orient(c: Coord, flip: bool) -> (res: Coord)
    requires
        is_on_board(c),
    ensures
        res == turned(c, flip),
        is_on_board(res),
{
    if flip {
        Coord { file: 10 - c.file, rank: 10 - c.rank }
    } else {
        c
    }
}

/// A piece of a problem. The attacker is Sente.
#[derive(Clone, Copy, Debug, PartialEq, Eq, Structural)]
pub struct PuzzlePiece {
    pub square: Coord,
    pub color: Color,
    pub role: Role,
}

/// A problem: the whole board, and what the attacker holds. What the defender holds is the rest.
#[derive(Debug)]
pub struct Question {
    pub board: Vec<PuzzlePiece>,
    pub hand: Vec<(Role, u32)>,
}

/// The piece of a problem at a square of the problem's board.
pub open spec fn puzzle_piece(
    pos: PositionModel,
    attacker: Color,
    c: Coord,
) -> Option<PuzzlePiece> {
    match pos.at(turned(c, attacker == Color::Gote)) {
        Some(p) => Some(
            PuzzlePiece {
                square: c,
                color: if p.color == attacker {
                    Color::Sente
                } else {
                    Color::Gote
                },
                role: p.role,
            },
        ),
        None => None,
    }
}

/// The board of a problem, file by file.
pub open spec fn puzzle_board(pos: PositionModel, attacker: Color) -> Seq<PuzzlePiece> {
    all_squares().filter_map(|c: Coord| puzzle_piece(pos, attacker, c))
}

/// The roles that can be held, from the strongest to the weakest.
pub open spec fn hand_order(i: int) -> Role {
    if i == 0 {
        Role::Rook
    } else if i == 1 {
        Role::Bishop
    } else if i == 2 {
        Role::Gold
    } else if i == 3 {
        Role::Silver
    } else if i == 4 {
        Role::Knight
    } else if i == 5 {
        Role::Lance
    } else {
        Role::Pawn
    }
}

/// How many pieces of a role a side holds.
pub open spec fn held(pos: PositionModel, color: Color, role: Role) -> u8 {
    match slot_of(role) {
        Some(i) => pos.hand(color)[i],
        None => 0,
    }
}

/// What the attacker of a problem holds of a role, if anything.
pub open spec fn puzzle_hand_at(pos: PositionModel, attacker: Color, i: int) -> Option<(Role, u32)> {
    let n = held(pos, attacker, hand_order(i));
    if n > 0 {
        Some((hand_order(i), n as u32))
    } else {
        None
    }
}

/// What the attacker of a problem holds, from the strongest role to the weakest.
pub open spec fn puzzle_hand(pos: PositionModel, attacker: Color) -> Seq<(Role, u32)> {
    Seq::new(7, |i: int| i).filter_map(|i: int| puzzle_hand_at(pos, attacker, i))
}

/// Whether a position can be a problem: the defender has a king, and it is not in check while the
/// attacker is to move.
pub open spec fn is_problem(pos: PositionModel, attacker: Color) -> bool {
    king_of(pos, other_color(attacker)) is Some && !checked(pos, other_color(attacker))
}

fn role_in_order(i: usize) -> (res: Role)
    requires
        i < 7,
    ensures
        res == hand_order(i as int),
{
    match i {
        0 => Role::Rook,
        1 => Role::Bishop,
        2 => Role::Gold,
        3 => Role::Silver,
        4 => Role::Knight,
        5 => Role::Lance,
        _ => Role::Pawn,
    }
}

fn board_of(pos: &Position, attacker: Color) -> (res: Vec<PuzzlePiece>)
    ensures
        res@ == puzzle_board(pos@, attacker),
        res@.len() <= 81,
{
    let ghost all = all_squares();
    let ghost pick = |c: Coord| puzzle_piece(pos@, attacker, c);
    let flip = attacker == Color::Gote;
    let mut out: Vec<PuzzlePiece> = Vec::new();
    let mut i: usize = 0;
    assert(all.take(0).filter_map(pick) =~= Seq::<PuzzlePiece>::empty());
    while i < 81
        invariant
            i <= 81,
            all == all_squares(),
            flip == (attacker == Color::Gote),
            pick == (|c: Coord| puzzle_piece(pos@, attacker, c)),
            out@ == all.take(i as int).filter_map(pick),
            out@.len() <= i,
        decreases 81 - i,
    {
        let c = coord_at(i);
        proof {
            all.lemma_filter_map_take_succ(pick, i as int);
        }
        if let Some(p) = pos.piece_at(orient(c, flip)) {
            let color = if p.color == attacker {
                Color::Sente
            } else {
                Color::Gote
            };
            out.push(PuzzlePiece { square: c, color, role: p.role });
        }
        i += 1;
    }
    assert(all.take(81) =~= all);
    out
}

fn hand_of(pos: &Position, attacker: Color) -> (res: Vec<(Role, u32)>)
    ensures
        res@ == puzzle_hand(pos@, attacker),
        res@.len() <= 7,
{
    let ghost all = Seq::new(7, |i: int| i);
    let ghost pick = |i: int| puzzle_hand_at(pos@, attacker, i);
    let mut out: Vec<(Role, u32)> = Vec::new();
    let mut i: usize = 0;
    assert(all.take(0).filter_map(pick) =~= Seq::<(Role, u32)>::empty());
    while i < 7
        invariant
            i <= 7,
            all == Seq::new(7, |i: int| i),
            pick == (|i: int| puzzle_hand_at(pos@, attacker, i)),
            out@ == all.take(i as int).filter_map(pick),
            out@.len() <= i,
        decreases 7 - i,
    {
        let role = role_in_order(i);
        proof {
            all.lemma_filter_map_take_succ(pick, i as int);
        }
        let n: u8 = pos.hand_count(attacker, role);
        if n > 0 {
            out.push((role, n as u32));
        }
        i += 1;
    }
    assert(all.take(7) =~= all);
    out
}

/// Makes a problem of a position: nothing is left out of it, the attacker's king stays.
pub fn question_from(pos: &Position, attacker: Color) -> (res: Option<Question>)
    ensures
        res is Some <==> is_problem(pos@, attacker),
        res matches Some(q) ==> q.board@ == puzzle_board(pos@, attacker) && q.hand@ == puzzle_hand(
            pos@,
            attacker,
        ),
        res matches Some(q) ==> q.board@.len() <= 81 && q.hand@.len() <= 7,
{
    let defender = attacker.other();
    if pos.king_square(defender).is_none() || pos.in_check(defender) {
        return None;
    }
    Some(Question { board: board_of(pos, attacker), hand: hand_of(pos, attacker) })
}

/// The hand of a problem lists a role exactly where the attacker holds some of it, once, with the
/// number held.
pub proof fn law_problem_hand(pos: PositionModel, attacker: Color, role: Role)
    ensures
        ({
            let hand = puzzle_hand(pos, attacker);
            let n = match role {
                Role::Pawn => pos.hand(attacker)[0],
                Role::Lance => pos.hand(attacker)[1],
                Role::Knight => pos.hand(attacker)[2],
                Role::Silver => pos.hand(attacker)[3],
                Role::Gold => pos.hand(attacker)[4],
                Role::Bishop => pos.hand(attacker)[5],
                Role::Rook => pos.hand(attacker)[6],
                _ => 0,
            };
            &&& (exists|i: int| 0 <= i < hand.len() && (#[trigger] hand[i]).0 == role) <==> n > 0
            &&& forall|i: int|
                0 <= i < hand.len() && (#[trigger] hand[i]).0 == role ==> hand[i].1 == n
            &&& forall|i: int, j: int|
                0 <= i < j < hand.len() ==> (#[trigger] hand[i]).0 != (#[trigger] hand[j]).0
        }),
{
    let pick = |i: int| puzzle_hand_at(pos, attacker, i);
    let all = Seq::new(7, |i: int| i);
    let hand = puzzle_hand(pos, attacker);
    lemma_hand_so_far(pos, attacker, 7);
    assert(all.take(7) =~= all);
    let place = match role {
        Role::Rook => 0int,
        Role::Bishop => 1,
        Role::Gold => 2,
        Role::Silver => 3,
        Role::Knight => 4,
        Role::Lance => 5,
        Role::Pawn => 6,
        _ => 7,
    };
    if place < 7 {
        assert(hand_order(place) == role);
        if puzzle_hand_at(pos, attacker, place) is Some {
            assert(hand.contains(puzzle_hand_at(pos, attacker, place)->0));
            let i = choose|i: int|
                0 <= i < hand.len() && hand[i] == puzzle_hand_at(pos, attacker, place)->0;
            assert(hand[i].0 == role);
        }
    }
    assert forall|i: int| 0 <= i < hand.len() && (#[trigger] hand[i]).0 == role implies place < 7
        && Some(hand[i]) == puzzle_hand_at(pos, attacker, place) by {
        let k = choose|k: int|
            0 <= k < 7 && Some(hand[i]) == #[trigger] puzzle_hand_at(pos, attacker, k);
        assert(hand_order(k) == role);
    }
}

/// What the hand of a problem holds of the first roles of the order.
proof fn lemma_hand_so_far(pos: PositionModel, attacker: Color, n: int)
    requires
        0 <= n <= 7,
    ensures
        ({
            let hand = Seq::new(7, |i: int| i).take(n).filter_map(
                |i: int| puzzle_hand_at(pos, attacker, i),
            );
            &&& forall|k: int|
                0 <= k < n && (#[trigger] puzzle_hand_at(pos, attacker, k)) is Some
                    ==> hand.contains(puzzle_hand_at(pos, attacker, k)->0)
            &&& forall|i: int|
                0 <= i < hand.len() ==> exists|k: int|
                    0 <= k < n && Some(#[trigger] hand[i]) == #[trigger] puzzle_hand_at(
                        pos,
                        attacker,
                        k,
                    )
            &&& forall|i: int, j: int|
                0 <= i < j < hand.len() ==> (#[trigger] hand[i]).0 != (#[trigger] hand[j]).0
        }),
    decreases n,
{
    let pick = |i: int| puzzle_hand_at(pos, attacker, i);
    let all = Seq::new(7, |i: int| i);
    if n > 0 {
        lemma_hand_so_far(pos, attacker, n - 1);
        all.lemma_filter_map_take_succ(pick, n - 1);
        let before = all.take(n - 1).filter_map(pick);
        let hand = all.take(n).filter_map(pick);
        match pick(n - 1) {
            Some(h) => {
                assert(hand =~= before.push(h));
                assert forall|k: int|
                    0 <= k < n && (#[trigger] puzzle_hand_at(pos, attacker, k)) is Some implies hand.contains(
                    puzzle_hand_at(pos, attacker, k)->0,
                ) by {
                    let x = puzzle_hand_at(pos, attacker, k)->0;
                    if k < n - 1 {
                        assert(before.contains(x));
                        let i = choose|i: int| 0 <= i < before.len() && before[i] == x;
                        assert(hand[i] == x);
                    } else {
                        assert(hand[before.len() as int] == x);
                    }
                }
                assert forall|i: int| 0 <= i < hand.len() implies exists|k: int|
                    0 <= k < n && Some(#[trigger] hand[i]) == #[trigger] puzzle_hand_at(
                        pos,
                        attacker,
                        k,
                    ) by {
                    if i < before.len() {
                        let k = choose|k: int|
                            0 <= k < n - 1 && Some(before[i]) == #[trigger] puzzle_hand_at(
                                pos,
                                attacker,
                                k,
                            );
                        assert(Some(hand[i]) == puzzle_hand_at(pos, attacker, k));
                    } else {
                        assert(Some(hand[i]) == puzzle_hand_at(pos, attacker, n - 1));
                    }
                }
                assert forall|i: int, j: int| 0 <= i < j < hand.len() implies (#[trigger] hand[i]).0
                    != (#[trigger] hand[j]).0 by {
                    if j == before.len() {
                        let k = choose|k: int|
                            0 <= k < n - 1 && Some(before[i]) == #[trigger] puzzle_hand_at(
                                pos,
                                attacker,
                                k,
                            );
                        assert(before[i].0 == hand_order(k));
                        assert(h.0 == hand_order(n - 1));
                    } else {
                        assert(before[i].0 != before[j].0);
                    }
                }
            },
            None => {
                assert(hand =~= before);
            },
        }
    } else {
        assert(all.take(0).filter_map(pick) =~= Seq::<(Role, u32)>::empty());
    }
}

/// The board of a problem holds exactly the pieces of the position: as they stand where Sente attacks,
/// turned round and with the sides exchanged where Gote does. Each square holds one.
pub proof fn law_problem_board(pos: PositionModel, attacker: Color, p: PuzzlePiece)
    ensures
        puzzle_board(pos, attacker).contains(p) <==> is_on_board(p.square) && (match attacker {
            Color::Sente => pos.at(p.square) == Some(Piece { color: p.color, role: p.role }),
            Color::Gote => pos.at(
                Coord { file: (10 - p.square.file) as i8, rank: (10 - p.square.rank) as i8 },
            ) == Some(Piece { color: other_color(p.color), role: p.role }),
        }),
{
    let pick = |c: Coord| puzzle_piece(pos, attacker, c);
    let all = all_squares();
    let board = puzzle_board(pos, attacker);
    lemma_filter_map_contains(all, pick, p);
    if board.contains(p) {
        let k = choose|k: int| 0 <= k < all.len() && pick(#[trigger] all[k]) == Some(p);
        crate::board::lemma_square_index(all[k], k);
    }
    if is_on_board(p.square) && pick(p.square) == Some(p) {
        crate::board::lemma_square_index(p.square, 0);
        assert(all[crate::board::square_index(p.square)] == p.square);
    }
}

/// What a selection that changes its items holds.
pub proof fn lemma_filter_map_contains<A, B>(s: Seq<A>, f: spec_fn(A) -> Option<B>, x: B)
    ensures
        s.filter_map(f).contains(x) <==> exists|k: int|
            0 <= k < s.len() && f(#[trigger] s[k]) == Some(x),
    decreases s.len(),
{
    if s.len() == 0 {
        assert(s.filter_map(f) =~= Seq::<B>::empty());
    } else {
        let n = s.len() - 1;
        let front = s.take(n);
        lemma_filter_map_contains(front, f, x);
        s.lemma_filter_map_take_succ(f, n);
        assert(s.take(n + 1) =~= s);
        let a = front.filter_map(f);
        let b = s.filter_map(f);
        if a.contains(x) {
            let i = choose|i: int| 0 <= i < a.len() && a[i] == x;
            assert(b[i] == x);
            let k = choose|k: int| 0 <= k < front.len() && f(#[trigger] front[k]) == Some(x);
            assert(f(s[k]) == Some(x));
        }
        if f(s[n]) == Some(x) {
            assert(b[a.len() as int] == x);
        }
        if b.contains(x) && !a.contains(x) {
            let i = choose|i: int| 0 <= i < b.len() && b[i] == x;
            if i < a.len() {
                assert(a[i] == x);
            }
            assert(f(s[n]) == Some(x));
        }
        if exists|k: int| 0 <= k < s.len() && f(#[trigger] s[k]) == Some(x) {
            let k = choose|k: int| 0 <= k < s.len() && f(#[trigger] s[k]) == Some(x);
            if k < n {
                assert(front[k] == s[k]);
                assert(a.contains(x));
                let i = choose|i: int| 0 <= i < a.len() && a[i] == x;
                assert(b[i] == x);
            }
        }
    }
}

/// A position seen from the other side of the board, with the sides exchanged.
pub open spec fn is_turn_of(a: PositionModel, b: PositionModel) -> bool {
    &&& forall|c: Coord|
        is_on_board(c) ==> #[trigger] a.at(c) == (match b.at(turned(c, true)) {
            Some(p) => Some(Piece { color: other_color(p.color), role: p.role }),
            None => None,
        })
    &&& a.hand(Color::Sente) == b.hand(Color::Gote)
    &&& a.hand(Color::Gote) == b.hand(Color::Sente)
}

/// The problem for one side is the problem for the other in the position turned round.
pub proof fn law_problem_has_no_side(a: PositionModel, b: PositionModel, attacker: Color)
    requires
        is_turn_of(a, b),
    ensures
        puzzle_board(a, attacker) == puzzle_board(b, other_color(attacker)),
        puzzle_hand(a, attacker) == puzzle_hand(b, other_color(attacker)),
{
    let fa = |c: Coord| puzzle_piece(a, attacker, c);
    let fb = |c: Coord| puzzle_piece(b, other_color(attacker), c);
    assert forall|i: int| 0 <= i < all_squares().len() implies fa(#[trigger] all_squares()[i]) == fb(
        all_squares()[i],
    ) by {
        let c = all_squares()[i];
        let far = turned(c, true);
        assert(is_on_board(c) && is_on_board(far));
        assert(turned(far, true) == c);
        assert(a.at(c) == a.at(turned(far, true)));
        assert(a.at(far) == (match b.at(turned(far, true)) {
            Some(p) => Some(Piece { color: other_color(p.color), role: p.role }),
            None => None,
        }));
    }
    lemma_filter_map_same(all_squares(), fa, fb);
    let ha = |i: int| puzzle_hand_at(a, attacker, i);
    let hb = |i: int| puzzle_hand_at(b, other_color(attacker), i);
    let places = Seq::new(7, |k: int| k);
    assert forall|i: int| 0 <= i < 7 implies ha(#[trigger] places[i]) == hb(places[i]) by {}
    lemma_filter_map_same(places, ha, hb);
}

proof fn lemma_filter_map_same<A, B>(
    s: Seq<A>,
    f: spec_fn(A) -> Option<B>,
    g: spec_fn(A) -> Option<B>,
)
    requires
        forall|i: int| 0 <= i < s.len() ==> f(#[trigger] s[i]) == g(s[i]),
    ensures
        s.filter_map(f) == s.filter_map(g),
    decreases s.len(),
{
    if s.len() > 0 {
        let n = s.len() - 1;
        lemma_filter_map_same(s.take(n), f, g);
        s.lemma_filter_map_take_succ(f, n);
        s.lemma_filter_map_take_succ(g, n);
        assert(s.take(n + 1) =~= s);
    } else {
        assert(s.filter_map(f) =~= s.filter_map(g));
    }
}

/// The name of a side in a problem.
pub open spec fn side_text(color: Color) -> Seq<char> {
    match color {
        Color::Sente => "sente"@,
        Color::Gote => "gote"@,
    }
}

/// A piece of a problem as it is written out.
pub open spec fn piece_text(p: PuzzlePiece) -> Seq<char> {
    "{\"color\":\""@ + side_text(p.color) + "\",\"file\":"@ + signed_decimal(p.square.file as int)
        + ",\"kind\":\""@ + kind_text(p.role) + "\",\"rank\":"@ + signed_decimal(
        p.square.rank as int,
    ) + "}"@
}

/// What is held of a role as it is written out.
pub open spec fn held_text(h: (Role, u32)) -> Seq<char> {
    "{\"count\":"@ + decimal(h.1 as nat) + ",\"kind\":\""@ + kind_text(h.0) + "\"}"@
}

/// A problem as it is written out: an object with its fields in the order of their names.
pub open spec fn question_text(board: Seq<PuzzlePiece>, hand: Seq<(Role, u32)>) -> Seq<char> {
    "{\"board\":["@ + listed(
        board.map_values(|p: PuzzlePiece| piece_text(p)),
        board.len() as int,
    ) + "],\"sente_hand\":["@ + listed(
        hand.map_values(|h: (Role, u32)| held_text(h)),
        hand.len() as int,
    ) + "]}"@
}

/// The signature of a problem.
pub open spec fn signature(board: Seq<PuzzlePiece>, hand: Seq<(Role, u32)>) -> Seq<char> {
    hex_of(sha256_of(encode_utf8(question_text(board, hand))).take(8))
}

fn side_name(color: Color) -> (res: &'static str)
    ensures
        res@ == side_text(color),
{
    match color {
        Color::Sente => "sente",
        Color::Gote => "gote",
    }
}

fn append_piece(out: &mut String, p: &PuzzlePiece)
    ensures
        final(out)@ == old(out)@ + piece_text(*p),
{
    let ghost start = out@;
    out.append("{\"color\":\"");
    out.append(side_name(p.color));
    out.append("\",\"file\":");
    append_signed(out, p.square.file as i64);
    out.append(",\"kind\":\"");
    out.append(role_kind(p.role));
    out.append("\",\"rank\":");
    append_signed(out, p.square.rank as i64);
    out.append("}");
    assert(out@ =~= start + piece_text(*p));
}

fn append_held(out: &mut String, h: &(Role, u32))
    ensures
        final(out)@ == old(out)@ + held_text(*h),
{
    let ghost start = out@;
    out.append("{\"count\":");
    append_decimal(out, h.1 as u64);
    out.append(",\"kind\":\"");
    out.append(role_kind(h.0));
    out.append("\"}");
    assert(out@ =~= start + held_text(*h));
}

impl Question {
    /// The problem as it is written out.
    pub fn text(&self) -> (res: String)
        ensures
            res@ == question_text(self.board@, self.hand@),
    {
        let ghost pieces = self.board@.map_values(|p: PuzzlePiece| piece_text(p));
        let ghost held = self.hand@.map_values(|h: (Role, u32)| held_text(h));
        let mut out = "{\"board\":[".to_owned();
        let ghost head = out@;
        let mut i: usize = 0;
        assert(out@ =~= head + listed(pieces, 0));
        while i < self.board.len()
            invariant
                i <= self.board@.len(),
                pieces == self.board@.map_values(|p: PuzzlePiece| piece_text(p)),
                out@ == head + listed(pieces, i as int),
            decreases self.board@.len() - i,
        {
            if i > 0 {
                out.append(",");
            }
            append_piece(&mut out, &self.board[i]);
            i += 1;
            assert(out@ =~= head + listed(pieces, i as int));
        }
        out.append("],\"sente_hand\":[");
        let ghost middle = out@;
        let mut j: usize = 0;
        assert(out@ =~= middle + listed(held, 0));
        while j < self.hand.len()
            invariant
                j <= self.hand@.len(),
                held == self.hand@.map_values(|h: (Role, u32)| held_text(h)),
                out@ == middle + listed(held, j as int),
            decreases self.hand@.len() - j,
        {
            if j > 0 {
                out.append(",");
            }
            append_held(&mut out, &self.hand[j]);
            j += 1;
            assert(out@ =~= middle + listed(held, j as int));
        }
        out.append("]}");
        assert(out@ =~= question_text(self.board@, self.hand@));
        out
    }
}

/// The signature of a problem: the same for the same problem, wherever it was found.
pub fn signature_of(question: &Question) -> (res: String)
    requires
        question.board@.len() + question.hand@.len() <= 0x10_0000_0000_0000,
    ensures
        res@ == signature(question.board@, question.hand@),
        res@.len() == 16,
        is_hex_text(res@),
{
    let text = question.text();
    proof {
        lemma_question_len(question.board@, question.hand@);
        lemma_utf8_len(text@);
    }
    digest_hex(text.as_str().as_bytes(), 8)
}

/// A problem has the same signature seen from either side of the board.
pub proof fn law_signature_has_no_side(a: PositionModel, b: PositionModel, attacker: Color)
    requires
        is_turn_of(a, b),
    ensures
        question_text(puzzle_board(a, attacker), puzzle_hand(a, attacker)) == question_text(
            puzzle_board(b, other_color(attacker)),
            puzzle_hand(b, other_color(attacker)),
        ),
        signature(puzzle_board(a, attacker), puzzle_hand(a, attacker)) == signature(
            puzzle_board(b, other_color(attacker)),
            puzzle_hand(b, other_color(attacker)),
        ),
{
    law_problem_has_no_side(a, b, attacker);
}

proof fn lemma_short_number(n: nat)
    ensures
        n < 1000 ==> decimal(n).len() <= 3,
        n < 10_000_000_000 ==> decimal(n).len() <= 10,
{
    reveal_with_fuel(decimal, 11);
}

proof fn lemma_piece_len(p: PuzzlePiece)
    ensures
        piece_text(p).len() <= 100,
{
    reveal_strlit("{\"color\":\"");
    reveal_strlit("\",\"file\":");
    reveal_strlit(",\"kind\":\"");
    reveal_strlit("\",\"rank\":");
    reveal_strlit("}");
    reveal_strlit("sente");
    reveal_strlit("gote");
    lemma_kind_len(p.role);
    let f = p.square.file as int;
    let r = p.square.rank as int;
    lemma_short_number((if f < 0 { -f } else { f }) as nat);
    lemma_short_number((if r < 0 { -r } else { r }) as nat);
}

proof fn lemma_held_len(h: (Role, u32))
    ensures
        held_text(h).len() <= 100,
{
    reveal_strlit("{\"count\":");
    reveal_strlit(",\"kind\":\"");
    reveal_strlit("\"}");
    lemma_kind_len(h.0);
    lemma_short_number(h.1 as nat);
}

proof fn lemma_kind_len(role: Role)
    ensures
        kind_text(role).len() <= 15,
{
    reveal_strlit("king");
    reveal_strlit("rook");
    reveal_strlit("bishop");
    reveal_strlit("gold");
    reveal_strlit("silver");
    reveal_strlit("knight");
    reveal_strlit("lance");
    reveal_strlit("pawn");
    reveal_strlit("promoted_rook");
    reveal_strlit("promoted_bishop");
    reveal_strlit("promoted_silver");
    reveal_strlit("promoted_knight");
    reveal_strlit("promoted_lance");
    reveal_strlit("promoted_pawn");
}

proof fn lemma_listed_len(texts: Seq<Seq<char>>, n: int)
    requires
        0 <= n <= texts.len(),
        forall|i: int| 0 <= i < n ==> (#[trigger] texts[i]).len() <= 100,
    ensures
        listed(texts, n).len() <= 101 * n,
    decreases n,
{
    reveal_strlit(",");
    if n > 1 {
        lemma_listed_len(texts, n - 1);
    }
    if n > 0 {
        assert(texts[n - 1].len() <= 100);
    }
}

/// How long a problem is at most when it is written out.
proof fn lemma_question_len(board: Seq<PuzzlePiece>, hand: Seq<(Role, u32)>)
    ensures
        question_text(board, hand).len() <= 101 * (board.len() + hand.len()) + 40,
{
    reveal_strlit("{\"board\":[");
    reveal_strlit("],\"sente_hand\":[");
    reveal_strlit("]}");
    let pieces = board.map_values(|p: PuzzlePiece| piece_text(p));
    let held = hand.map_values(|h: (Role, u32)| held_text(h));
    assert forall|i: int| 0 <= i < pieces.len() implies (#[trigger] pieces[i]).len() <= 100 by {
        lemma_piece_len(board[i]);
    }
    assert forall|i: int| 0 <= i < held.len() implies (#[trigger] held[i]).len() <= 100 by {
        lemma_held_len(hand[i]);
    }
    lemma_listed_len(pieces, board.len() as int);
    lemma_listed_len(held, hand.len() as int);
}

/// A character takes four bytes at most.
proof fn lemma_utf8_len(chars: Seq<char>)
    ensures
        encode_utf8(chars).len() <= 4 * chars.len(),
    decreases chars.len(),
{
    if chars.len() > 0 {
        lemma_utf8_len(chars.drop_first());
    }
}

/// A problem with where it was found.
#[derive(Debug)]
pub struct Mined {
    pub question: Question,
    /// The game and the attacker.
    pub game: String,
    /// The game and the move.
    pub origin: String,
}

/// The mathematical content of a `Mined`.
pub struct MinedModel {
    pub board: Seq<PuzzlePiece>,
    pub hand: Seq<(Role, u32)>,
    pub game: Seq<char>,
    pub origin: Seq<char>,
}

impl View for Mined {
    type V = MinedModel;

    open spec fn view(&self) -> MinedModel {
        MinedModel {
            board: self.question.board@,
            hand: self.question.hand@,
            game: self.game@,
            origin: self.origin@,
        }
    }
}

/// The contents of a list of problems.
pub open spec fn mined_list(found: Seq<Mined>) -> Seq<MinedModel> {
    found.map_values(|m: Mined| m@)
}

/// The name of a game with one of its sides as the attacker.
pub open spec fn game_key(name: Seq<char>, side: Color) -> Seq<char> {
    name + "/"@ + (if side == Color::Sente {
        "sente"@
    } else {
        "gote"@
    })
}

/// The problem of a decision, if it is late enough and is one.
pub open spec fn mined_at(
    name: Seq<char>,
    skip_plies: u32,
    d: DecisionModel,
) -> Option<MinedModel> {
    if d.plies >= skip_plies && is_problem(d.pos, d.side) {
        Some(
            MinedModel {
                board: puzzle_board(d.pos, d.side),
                hand: puzzle_hand(d.pos, d.side),
                game: game_key(name, d.side),
                origin: name + "#"@ + decimal(d.plies as nat),
            },
        )
    } else {
        None
    }
}

/// The problems of a finished game; none where its record does not hold together.
pub open spec fn mined_in(end: GameEndPayload, name: Seq<char>, skip_plies: u32) -> Option<
    Seq<MinedModel>,
> {
    if game_run(end).ok {
        Some(game_run(end).decisions.filter_map(|d: DecisionModel| mined_at(name, skip_plies, d)))
    } else {
        None
    }
}

/// Makes a problem of every decision of a finished game from `skip_plies` on.
pub fn mine_game(end: &GameEndPayload, name: &str, skip_plies: u32) -> (res: Option<Vec<Mined>>)
    requires
        end.moves@.len() <= u32::MAX,
        end.foul_attempts@.len() <= u32::MAX,
    ensures
        match res {
            Some(list) => mined_in(*end, name@, skip_plies) == Some(mined_list(list@)),
            None => mined_in(*end, name@, skip_plies) is None,
        },
{
    let replay = replay_game(end);
    if !replay.ok {
        return None;
    }
    let ghost all = game_run(*end).decisions;
    let ghost pick = |d: DecisionModel| mined_at(name@, skip_plies, d);
    let mut out: Vec<Mined> = Vec::new();
    let mut i: usize = 0;
    assert(all.take(0).filter_map(pick) =~= Seq::<MinedModel>::empty());
    assert(mined_list(out@) =~= Seq::<MinedModel>::empty());
    while i < replay.decisions.len()
        invariant
            i <= replay.decisions@.len(),
            all == decision_list(replay.decisions@),
            pick == (|d: DecisionModel| mined_at(name@, skip_plies, d)),
            mined_list(out@) == all.take(i as int).filter_map(pick),
        decreases replay.decisions@.len() - i,
    {
        let d = &replay.decisions[i];
        let ghost before_ = out@;
        proof {
            assert(all[i as int] == d@);
            all.lemma_filter_map_take_succ(pick, i as int);
        }
        if d.plies >= skip_plies {
            if let Some(question) = question_from(&d.pos, d.side) {
                let mut game = name.to_owned();
                game.append("/");
                game.append(
                    match d.side {
                        Color::Sente => "sente",
                        Color::Gote => "gote",
                    },
                );
                let mut origin = name.to_owned();
                origin.append("#");
                append_decimal(&mut origin, d.plies as u64);
                let m = Mined { question, game, origin };
                assert(m@.origin =~= name@ + "#"@ + decimal(d.plies as nat));
                assert(m@.game =~= game_key(name@, d.side));
                out.push(m);
                assert(mined_list(out@) =~= mined_list(before_).push(m@));
            }
        }
        i += 1;
    }
    assert(all.take(i as int) =~= all);
    Some(out)
}

/// Whether a signature at a place is a new one: not seen before, not at an earlier place.
pub open spec fn is_fresh(seen: Set<Seq<char>>, signatures: Seq<Seq<char>>, i: int) -> bool {
    !seen.contains(signatures[i]) && !signatures.take(i).contains(signatures[i])
}

/// The places of the new signatures, which are noted.
pub fn take_fresh(seen: &mut Vec<String>, signatures: &Vec<String>) -> (res: Vec<usize>)
    ensures
        res@.map_values(|i: usize| i as int) == Seq::new(signatures@.len(), |i: int| i).filter(
            |i: int|
                is_fresh(
                    crate::candidates::text_set(old(seen)@),
                    texts_of(signatures@),
                    i,
                ),
        ),
        crate::candidates::text_set(final(seen)@) == crate::candidates::text_set(
            old(seen)@,
        ).union(texts_of(signatures@).to_set()),
{
    let ghost start = crate::candidates::text_set(seen@);
    let ghost texts = texts_of(signatures@);
    let ghost all = Seq::new(signatures@.len(), |i: int| i);
    let ghost good = |i: int| is_fresh(start, texts, i);
    let ghost wide = |i: usize| i as int;
    let mut out: Vec<usize> = Vec::new();
    let mut i: usize = 0;
    assert(all.take(0).filter(good) =~= Seq::<int>::empty()) by {
        reveal(Seq::filter);
    }
    assert(out@.map_values(wide) =~= Seq::<int>::empty());
    assert(crate::candidates::text_set(seen@) =~= start.union(texts.take(0).to_set()));
    while i < signatures.len()
        invariant
            i <= signatures@.len(),
            texts == texts_of(signatures@),
            all == Seq::new(signatures@.len(), |i: int| i),
            good == (|i: int| is_fresh(start, texts, i)),
            wide == (|i: usize| i as int),
            out@.map_values(wide) == all.take(i as int).filter(good),
            crate::candidates::text_set(seen@) == start.union(texts.take(i as int).to_set()),
        decreases signatures@.len() - i,
    {
        let ghost before_ = out@;
        let ghost had = crate::candidates::text_set(seen@);
        proof {
            assert(texts[i as int] == signatures@[i as int]@);
            assert(all.take(i + 1) =~= all.take(i as int).push(i as int));
            all.take(i as int).lemma_filter_push(i as int, good);
            lemma_take_to_set(texts, i as int);
            assert(had.contains(texts[i as int]) <==> !good(i as int));
        }
        if !crate::candidates::is_listed(seen, &signatures[i]) {
            crate::candidates::insert_text(seen, signatures[i].clone());
            out.push(i);
            assert(out@.map_values(wide) =~= before_.map_values(wide).push(i as int));
        }
        proof {
            assert(crate::candidates::text_set(seen@) =~= had.insert(texts[i as int]));
            assert(had.insert(texts[i as int]) =~= start.union(texts.take(i + 1).to_set()));
        }
        i += 1;
    }
    assert(all.take(i as int) =~= all);
    assert(texts.take(i as int) =~= texts);
    out
}

proof fn lemma_take_to_set(s: Seq<Seq<char>>, i: int)
    requires
        0 <= i < s.len(),
    ensures
        s.take(i + 1).to_set() == s.take(i).to_set().insert(s[i]),
        forall|x: Seq<char>| s.take(i).to_set().contains(x) <==> s.take(i).contains(x),
{
    let a = s.take(i + 1);
    let b = s.take(i);
    assert forall|x: Seq<char>| a.contains(x) <==> b.contains(x) || x == s[i] by {
        if b.contains(x) {
            let k = choose|k: int| 0 <= k < b.len() && b[k] == x;
            assert(a[k] == x);
        }
        if x == s[i] {
            assert(a[i] == x);
        }
        if a.contains(x) && x != s[i] {
            let k = choose|k: int| 0 <= k < a.len() && a[k] == x;
            assert(b[k] == x);
        }
    }
    assert(a.to_set() =~= b.to_set().insert(s[i]));
}

/// What a solver says of a problem.
#[derive(Clone, Copy, Debug, PartialEq, Eq)]
pub struct Verdict {
    /// Whether there is a mate.
    pub found: bool,
    /// Its length.
    pub depth: Option<u64>,
    /// Whether there is another solution.
    pub second: bool,
    /// Whether its strength was estimated.
    pub rated: bool,
}

/// Which problems are good enough.
#[derive(Clone, Copy, Debug, PartialEq, Eq)]
pub struct Standard {
    pub min_depth: u32,
    pub max_depth: u32,
    pub allow_second: bool,
}

/// Whether a verdict on a problem meets a standard.
pub open spec fn meets(standard: Standard, verdict: Verdict) -> bool {
    verdict.found && (verdict.depth matches Some(depth) && standard.min_depth <= depth
        <= standard.max_depth) && (standard.allow_second || !verdict.second) && verdict.rated
}

/// Whether a problem is good enough: it has a mate of the right length, only one unless others are
/// allowed, and its strength is known.
pub fn accept(standard: &Standard, verdict: &Verdict) -> (res: bool)
    ensures
        res == meets(*standard, *verdict),
{
    if !verdict.found {
        return false;
    }
    let depth: u64 = match verdict.depth {
        Some(depth) => depth,
        None => return false,
    };
    if depth < standard.min_depth as u64 || depth > standard.max_depth as u64 {
        return false;
    }
    if !standard.allow_second && verdict.second {
        return false;
    }
    verdict.rated
}

/// How many of the candidates found so far are kept, and whether that is enough: `most` of them end
/// the search, and zero means that there is no bound.
pub fn capped(found: usize, most: usize) -> (res: (usize, bool))
    ensures
        res.1 == (most > 0 && found >= most),
        res.0 == (if res.1 {
            most
        } else {
            found
        }),
{
    if most > 0 && found >= most {
        (most, true)
    } else {
        (found, false)
    }
}

/// How often a game occurs at the first `n` places.
pub open spec fn occurrences(games: Seq<Seq<char>>, game: Seq<char>, n: int) -> nat
    decreases n,
{
    if n <= 0 {
        0
    } else {
        occurrences(games, game, n - 1) + (if games[n - 1] == game {
            1nat
        } else {
            0nat
        })
    }
}

/// Whether the problem at a place is taken: fewer than the limit of its game stand before it. No
/// limit is written as zero.
pub open spec fn is_taken(max_per_game: usize, games: Seq<Seq<char>>, i: int) -> bool {
    max_per_game == 0 || occurrences(games, games[i], i) < max_per_game
}

fn count_before(games: &Vec<String>, i: usize) -> (res: usize)
    requires
        i < games@.len(),
    ensures
        res == occurrences(texts_of(games@), games@[i as int]@, i as int),
{
    let ghost texts = texts_of(games@);
    let mut n: usize = 0;
    let mut j: usize = 0;
    while j < i
        invariant
            j <= i < games@.len(),
            texts == texts_of(games@),
            n <= j,
            n == occurrences(texts, games@[i as int]@, j as int),
        decreases i - j,
    {
        assert(texts[j as int] == games@[j as int]@);
        if same_text(games[j].as_str(), games[i].as_str()) {
            n += 1;
        }
        j += 1;
    }
    n
}

/// Takes at most so many problems of each game, in order, and says at which places.
pub fn take_per_game(max_per_game: usize, games: &Vec<String>) -> (res: Vec<usize>)
    ensures
        res@.map_values(|i: usize| i as int) == Seq::new(games@.len(), |i: int| i).filter(
            |i: int| is_taken(max_per_game, texts_of(games@), i),
        ),
{
    let ghost texts = texts_of(games@);
    let ghost all = Seq::new(games@.len(), |i: int| i);
    let ghost good = |i: int| is_taken(max_per_game, texts, i);
    let ghost wide = |i: usize| i as int;
    let mut out: Vec<usize> = Vec::new();
    let mut i: usize = 0;
    assert(all.take(0).filter(good) =~= Seq::<int>::empty()) by {
        reveal(Seq::filter);
    }
    assert(out@.map_values(wide) =~= Seq::<int>::empty());
    while i < games.len()
        invariant
            i <= games@.len(),
            texts == texts_of(games@),
            all == Seq::new(games@.len(), |i: int| i),
            good == (|i: int| is_taken(max_per_game, texts, i)),
            wide == (|i: usize| i as int),
            out@.map_values(wide) == all.take(i as int).filter(good),
        decreases games@.len() - i,
    {
        let ghost before_ = out@;
        proof {
            assert(texts[i as int] == games@[i as int]@);
            assert(all.take(i + 1) =~= all.take(i as int).push(i as int));
            all.take(i as int).lemma_filter_push(i as int, good);
        }
        if max_per_game == 0 || count_before(games, i) < max_per_game {
            out.push(i);
            assert(out@.map_values(wide) =~= before_.map_values(wide).push(i as int));
        }
        i += 1;
    }
    assert(all.take(i as int) =~= all);
    out
}

/// How many problems of a game are taken from the first `n` places.
pub open spec fn taken_of(
    max_per_game: usize,
    games: Seq<Seq<char>>,
    game: Seq<char>,
    n: int,
) -> nat
    decreases n,
{
    if n <= 0 {
        0
    } else {
        taken_of(max_per_game, games, game, n - 1) + (if games[n - 1] == game && is_taken(
            max_per_game,
            games,
            n - 1,
        ) {
            1nat
        } else {
            0nat
        })
    }
}

/// Of each game as many problems are taken as it has, up to the limit, and the first one always.
pub proof fn law_limit_per_game(max_per_game: usize, games: Seq<Seq<char>>, game: Seq<char>, n: int)
    requires
        0 <= n <= games.len(),
    ensures
        taken_of(max_per_game, games, game, n) == (if max_per_game == 0 || occurrences(
            games,
            game,
            n,
        ) <= max_per_game {
            occurrences(games, game, n)
        } else {
            max_per_game as nat
        }),
        forall|i: int|
            0 <= i < n && occurrences(games, games[i], i) == 0 ==> #[trigger] is_taken(
                max_per_game,
                games,
                i,
            ),
    decreases n,
{
    if n > 0 {
        law_limit_per_game(max_per_game, games, game, n - 1);
    }
}

/// An option that takes a value.
#[derive(Clone, Copy, Debug, PartialEq, Eq, Structural)]
pub enum Opt {
    Out,
    Solver,
    Source,
    Dump,
    MinDepth,
    MaxDepth,
    SkipPlies,
    Limit,
    MaxPerGame,
    MaxCandidates,
    Jobs,
    TimeoutSecs,
    MemoryLimitMb,
    NodeLimit,
    RatingNodeLimit,
}

/// The option of a name.
pub open spec fn opt_of(name: Seq<char>) -> Option<Opt> {
    if name == "--out"@ {
        Some(Opt::Out)
    } else if name == "--solver"@ {
        Some(Opt::Solver)
    } else if name == "--source"@ {
        Some(Opt::Source)
    } else if name == "--dump-candidates"@ {
        Some(Opt::Dump)
    } else if name == "--min-depth"@ {
        Some(Opt::MinDepth)
    } else if name == "--max-depth"@ {
        Some(Opt::MaxDepth)
    } else if name == "--skip-plies"@ {
        Some(Opt::SkipPlies)
    } else if name == "--limit"@ {
        Some(Opt::Limit)
    } else if name == "--max-per-game"@ {
        Some(Opt::MaxPerGame)
    } else if name == "--max-candidates"@ {
        Some(Opt::MaxCandidates)
    } else if name == "--jobs"@ {
        Some(Opt::Jobs)
    } else if name == "--timeout-secs"@ {
        Some(Opt::TimeoutSecs)
    } else if name == "--memory-limit-mb"@ {
        Some(Opt::MemoryLimitMb)
    } else if name == "--node-limit"@ {
        Some(Opt::NodeLimit)
    } else if name == "--rating-node-limit"@ {
        Some(Opt::RatingNodeLimit)
    } else {
        None
    }
}

fn read_opt(name: &str) -> (res: Option<Opt>)
    ensures
        res == opt_of(name@),
{
    if same_text(name, "--out") {
        Some(Opt::Out)
    } else if same_text(name, "--solver") {
        Some(Opt::Solver)
    } else if same_text(name, "--source") {
        Some(Opt::Source)
    } else if same_text(name, "--dump-candidates") {
        Some(Opt::Dump)
    } else if same_text(name, "--min-depth") {
        Some(Opt::MinDepth)
    } else if same_text(name, "--max-depth") {
        Some(Opt::MaxDepth)
    } else if same_text(name, "--skip-plies") {
        Some(Opt::SkipPlies)
    } else if same_text(name, "--limit") {
        Some(Opt::Limit)
    } else if same_text(name, "--max-per-game") {
        Some(Opt::MaxPerGame)
    } else if same_text(name, "--max-candidates") {
        Some(Opt::MaxCandidates)
    } else if same_text(name, "--jobs") {
        Some(Opt::Jobs)
    } else if same_text(name, "--timeout-secs") {
        Some(Opt::TimeoutSecs)
    } else if same_text(name, "--memory-limit-mb") {
        Some(Opt::MemoryLimitMb)
    } else if same_text(name, "--node-limit") {
        Some(Opt::NodeLimit)
    } else if same_text(name, "--rating-node-limit") {
        Some(Opt::RatingNodeLimit)
    } else {
        None
    }
}

/// What is wrong with the arguments.
#[derive(Debug)]
pub enum ArgError {
    /// An option stands at the end without its value.
    Missing(Opt),
    /// The value of an option is no number, or one that is too large.
    NoNumber(Opt),
    /// There is no such option.
    Unknown(String),
    /// No file is given.
    NoInputs,
    /// Nobody is to do the work.
    NoJobs,
}

/// The mathematical content of an `ArgError`.
pub enum FaultModel {
    Missing(Opt),
    NoNumber(Opt),
    Unknown(Seq<char>),
    NoInputs,
    NoJobs,
}

impl View for ArgError {
    type V = FaultModel;

    open spec fn view(&self) -> FaultModel {
        match self {
            ArgError::Missing(o) => FaultModel::Missing(*o),
            ArgError::NoNumber(o) => FaultModel::NoNumber(*o),
            ArgError::Unknown(name) => FaultModel::Unknown(name@),
            ArgError::NoInputs => FaultModel::NoInputs,
            ArgError::NoJobs => FaultModel::NoJobs,
        }
    }
}

/// How problems are to be found.
#[derive(Debug)]
pub struct Args {
    /// Files and directories of records.
    pub inputs: Vec<String>,
    pub out: Option<String>,
    pub solver: Option<String>,
    pub source: String,
    pub min_depth: u32,
    pub max_depth: u32,
    pub skip_plies: u32,
    pub limit: usize,
    pub max_per_game: usize,
    pub max_candidates: usize,
    pub jobs: usize,
    pub timeout_secs: u64,
    pub memory_limit_mb: u64,
    pub node_limit: u64,
    pub rating_node_limit: u64,
    pub allow_second: bool,
    pub dump_candidates: Option<String>,
}

/// The mathematical content of `Args`.
#[verifier::ext_equal]
pub struct ArgsModel {
    pub inputs: Seq<Seq<char>>,
    pub out: Option<Seq<char>>,
    pub solver: Option<Seq<char>>,
    pub source: Seq<char>,
    pub min_depth: u32,
    pub max_depth: u32,
    pub skip_plies: u32,
    pub limit: usize,
    pub max_per_game: usize,
    pub max_candidates: usize,
    pub jobs: usize,
    pub timeout_secs: u64,
    pub memory_limit_mb: u64,
    pub node_limit: u64,
    pub rating_node_limit: u64,
    pub allow_second: bool,
    pub dump_candidates: Option<Seq<char>>,
}

impl View for Args {
    type V = ArgsModel;

    open spec fn view(&self) -> ArgsModel {
        ArgsModel {
            inputs: texts_of(self.inputs@),
            out: text_of(self.out),
            solver: text_of(self.solver),
            source: self.source@,
            dump_candidates: text_of(self.dump_candidates),
            min_depth: self.min_depth,
            max_depth: self.max_depth,
            skip_plies: self.skip_plies,
            limit: self.limit,
            max_per_game: self.max_per_game,
            max_candidates: self.max_candidates,
            jobs: self.jobs,
            timeout_secs: self.timeout_secs,
            memory_limit_mb: self.memory_limit_mb,
            node_limit: self.node_limit,
            rating_node_limit: self.rating_node_limit,
            allow_second: self.allow_second,
        }
    }
}

/// What holds where nothing is said. The solver may be named by a variable of the process.
pub open spec fn default_args(solver: Option<Seq<char>>) -> ArgsModel {
    ArgsModel {
        inputs: Seq::empty(),
        out: None,
        solver,
        source: "selfplay"@,
        min_depth: 3,
        max_depth: 15,
        skip_plies: 20,
        limit: 0,
        max_per_game: 1,
        max_candidates: 0,
        jobs: 1,
        timeout_secs: 60,
        memory_limit_mb: 2000,
        node_limit: 20_000_000,
        rating_node_limit: 200_000,
        allow_second: false,
        dump_candidates: None,
    }
}

/// The number of a text, if it is one up to a bound.
pub open spec fn number_up_to(value: Seq<char>, bound: int) -> Option<u64> {
    match number_of(value) {
        Some(n) => if n <= bound {
            Some(n)
        } else {
            None
        },
        None => None,
    }
}

fn bounded_number(value: &str, bound: u64) -> (res: Option<u64>)
    ensures
        res == number_up_to(value@, bound as int),
{
    match parse_number(value) {
        Some(n) => if n <= bound {
            Some(n)
        } else {
            None
        },
        None => None,
    }
}

/// The arguments with the value of an option, if the option can take it.
pub open spec fn with_option(a: ArgsModel, o: Opt, value: Seq<char>) -> Option<ArgsModel> {
    match o {
        Opt::Out => Some(ArgsModel { out: Some(value), ..a }),
        Opt::Solver => Some(ArgsModel { solver: Some(value), ..a }),
        Opt::Source => Some(ArgsModel { source: value, ..a }),
        Opt::Dump => Some(ArgsModel { dump_candidates: Some(value), ..a }),
        Opt::MinDepth => match number_up_to(value, u32::MAX as int) {
            Some(n) => Some(ArgsModel { min_depth: n as u32, ..a }),
            None => None,
        },
        Opt::MaxDepth => match number_up_to(value, u32::MAX as int) {
            Some(n) => Some(ArgsModel { max_depth: n as u32, ..a }),
            None => None,
        },
        Opt::SkipPlies => match number_up_to(value, u32::MAX as int) {
            Some(n) => Some(ArgsModel { skip_plies: n as u32, ..a }),
            None => None,
        },
        Opt::Limit => match number_up_to(value, usize::MAX as int) {
            Some(n) => Some(ArgsModel { limit: n as usize, ..a }),
            None => None,
        },
        Opt::MaxPerGame => match number_up_to(value, usize::MAX as int) {
            Some(n) => Some(ArgsModel { max_per_game: n as usize, ..a }),
            None => None,
        },
        Opt::MaxCandidates => match number_up_to(value, usize::MAX as int) {
            Some(n) => Some(ArgsModel { max_candidates: n as usize, ..a }),
            None => None,
        },
        Opt::Jobs => match number_up_to(value, usize::MAX as int) {
            Some(n) => Some(ArgsModel { jobs: n as usize, ..a }),
            None => None,
        },
        Opt::TimeoutSecs => match number_up_to(value, u64::MAX as int) {
            Some(n) => Some(ArgsModel { timeout_secs: n, ..a }),
            None => None,
        },
        Opt::MemoryLimitMb => match number_up_to(value, u64::MAX as int) {
            Some(n) => Some(ArgsModel { memory_limit_mb: n, ..a }),
            None => None,
        },
        Opt::NodeLimit => match number_up_to(value, u64::MAX as int) {
            Some(n) => Some(ArgsModel { node_limit: n, ..a }),
            None => None,
        },
        Opt::RatingNodeLimit => match number_up_to(value, u64::MAX as int) {
            Some(n) => Some(ArgsModel { rating_node_limit: n, ..a }),
            None => None,
        },
    }
}

/// Reads the arguments from a place on.
pub open spec fn args_from(args: Seq<Seq<char>>, i: int, a: ArgsModel) -> Result<
    ArgsModel,
    FaultModel,
>
    decreases args.len() - i,
{
    if i < 0 || i >= args.len() {
        if a.inputs.len() == 0 {
            Err(FaultModel::NoInputs)
        } else if a.jobs == 0 {
            Err(FaultModel::NoJobs)
        } else {
            Ok(a)
        }
    } else if args[i] == "--allow-second"@ {
        args_from(args, i + 1, ArgsModel { allow_second: true, ..a })
    } else {
        match opt_of(args[i]) {
            Some(o) => if i + 1 >= args.len() {
                Err(FaultModel::Missing(o))
            } else {
                match with_option(a, o, args[i + 1]) {
                    Some(b) => args_from(args, i + 2, b),
                    None => Err(FaultModel::NoNumber(o)),
                }
            },
            None => if begins(args[i], "--"@) {
                Err(FaultModel::Unknown(args[i]))
            } else {
                args_from(args, i + 1, ArgsModel { inputs: a.inputs.push(args[i]), ..a })
            },
        }
    }
}

impl Args {
    fn take_option(&mut self, o: Opt, value: &str) -> (res: bool)
        ensures
            res == (with_option(old(self)@, o, value@) is Some),
            res ==> with_option(old(self)@, o, value@) == Some(final(self)@),
    {
        match o {
            Opt::Out => {
                self.out = Some(value.to_owned());
            },
            Opt::Solver => {
                self.solver = Some(value.to_owned());
            },
            Opt::Source => {
                self.source = value.to_owned();
            },
            Opt::Dump => {
                self.dump_candidates = Some(value.to_owned());
            },
            Opt::MinDepth => match bounded_number(value, 0xffff_ffff) {
                Some(n) => {
                    self.min_depth = n as u32;
                },
                None => return false,
            },
            Opt::MaxDepth => match bounded_number(value, 0xffff_ffff) {
                Some(n) => {
                    self.max_depth = n as u32;
                },
                None => return false,
            },
            Opt::SkipPlies => match bounded_number(value, 0xffff_ffff) {
                Some(n) => {
                    self.skip_plies = n as u32;
                },
                None => return false,
            },
            Opt::Limit => match bounded_number(value, usize::MAX as u64) {
                Some(n) => {
                    self.limit = n as usize;
                },
                None => return false,
            },
            Opt::MaxPerGame => match bounded_number(value, usize::MAX as u64) {
                Some(n) => {
                    self.max_per_game = n as usize;
                },
                None => return false,
            },
            Opt::MaxCandidates => match bounded_number(value, usize::MAX as u64) {
                Some(n) => {
                    self.max_candidates = n as usize;
                },
                None => return false,
            },
            Opt::Jobs => match bounded_number(value, usize::MAX as u64) {
                Some(n) => {
                    self.jobs = n as usize;
                },
                None => return false,
            },
            Opt::TimeoutSecs => match bounded_number(value, u64::MAX) {
                Some(n) => {
                    self.timeout_secs = n;
                },
                None => return false,
            },
            Opt::MemoryLimitMb => match bounded_number(value, u64::MAX) {
                Some(n) => {
                    self.memory_limit_mb = n;
                },
                None => return false,
            },
            Opt::NodeLimit => match bounded_number(value, u64::MAX) {
                Some(n) => {
                    self.node_limit = n;
                },
                None => return false,
            },
            Opt::RatingNodeLimit => match bounded_number(value, u64::MAX) {
                Some(n) => {
                    self.rating_node_limit = n;
                },
                None => return false,
            },
        }
        true
    }
}

/// Reads the arguments of the program.
pub fn parse_args(args: &Vec<String>, solver: Option<String>) -> (res: Result<Args, ArgError>)
    requires
        args@.len() < usize::MAX - 1,
    ensures
        match res {
            Ok(a) => args_from(texts_of(args@), 0, default_args(text_of(solver))) == Ok::<
                ArgsModel,
                FaultModel,
            >(a@),
            Err(e) => args_from(texts_of(args@), 0, default_args(text_of(solver))) == Err::<
                ArgsModel,
                FaultModel,
            >(e@),
        },
{
    let ghost all = texts_of(args@);
    let ghost goal = args_from(all, 0, default_args(text_of(solver)));
    let mut a = Args {
        inputs: Vec::new(),
        out: None,
        solver,
        source: "selfplay".to_owned(),
        min_depth: 3,
        max_depth: 15,
        skip_plies: 20,
        limit: 0,
        max_per_game: 1,
        max_candidates: 0,
        jobs: 1,
        timeout_secs: 60,
        memory_limit_mb: 2000,
        node_limit: 20_000_000,
        rating_node_limit: 200_000,
        allow_second: false,
        dump_candidates: None,
    };
    assert(a@ =~= default_args(text_of(solver)));
    let mut i: usize = 0;
    while i < args.len()
        invariant
            i <= args@.len() + 1,
            args@.len() < usize::MAX - 1,
            all == texts_of(args@),
            goal == args_from(all, 0, default_args(text_of(solver))),
            goal == args_from(all, i as int, a@),
        decreases args@.len() - i,
    {
        assert(all[i as int] == args@[i as int]@);
        let arg = args[i].as_str();
        let ghost had = a@;
        if same_text(arg, "--allow-second") {
            a.allow_second = true;
            assert(a@ =~= (ArgsModel { allow_second: true, ..had }));
            i += 1;
        } else if let Some(o) = read_opt(arg) {
            if i + 1 >= args.len() {
                return Err(ArgError::Missing(o));
            }
            assert(all[i + 1] == args@[i + 1]@);
            if !a.take_option(o, args[i + 1].as_str()) {
                return Err(ArgError::NoNumber(o));
            }
            i += 2;
        } else if behind(arg, "--").is_some() {
            return Err(ArgError::Unknown(args[i].clone()));
        } else {
            let ghost before_ = a.inputs@;
            a.inputs.push(args[i].clone());
            assert(texts_of(a.inputs@) =~= texts_of(before_).push(all[i as int]));
            assert(a@ =~= (ArgsModel { inputs: had.inputs.push(all[i as int]), ..had }));
            i += 1;
        }
    }
    if a.inputs.len() == 0 {
        return Err(ArgError::NoInputs);
    }
    if a.jobs == 0 {
        return Err(ArgError::NoJobs);
    }
    Ok(a)
}

} // verus!
