//! The rules of shogi on a fully known position: attacks, checks, legality and playing a move.

use crate::board::{
    all_squares, along, can_promote, coord_at, dead_end_rank, drop_letter_of, drop_text,
    in_promotion_zone, index_of, is_dead_end, is_direction, is_on_board, is_promotion_zone,
    lemma_deltas, lemma_square_index, make_usi_drop, make_usi_move, move_text, on_board, orient,
    oriented, parse_usi_square, ray_deltas, rays, shifted, square_at, square_index, square_of_text,
    law_square_round_trip, square_text, step_deltas, steps, Coord, Delta,
};
use crate::lists::lemma_filter_keeps_distinct;
use crate::protocol::{
    hand_slot, other_color, promoted, role_at_slot, slot_of, slot_role, unpromoted, Color, Hand,
    Role,
};
use vstd::prelude::*;
use vstd::string::*;

verus! {

/// A piece on the board.
#[derive(Clone, Copy, Debug, PartialEq, Eq, Structural)]
pub struct Piece {
    pub color: Color,
    pub role: Role,
}

/// A move: of a piece on the board, or a drop from the hand.
#[derive(Clone, Copy, Debug, PartialEq, Eq, Structural)]
pub enum ShogiMove {
    Board { from: Coord, to: Coord, promote: bool },
    Drop { role: Role, to: Coord },
}

/// How a game that cannot go on has ended.
#[derive(Clone, Copy, Debug, PartialEq, Eq, Structural)]
pub enum Outcome {
    Checkmate { winner: Color },
    Stalemate { winner: Color },
}

/// The role that a piece promotes to.
pub fn promote_role(role: Role) -> (res: Option<Role>)
    ensures
        res == promoted(role),
{
    match role {
        Role::Pawn => Some(Role::Tokin),
        Role::Lance => Some(Role::Promotedlance),
        Role::Knight => Some(Role::Promotedknight),
        Role::Silver => Some(Role::Promotedsilver),
        Role::Bishop => Some(Role::Horse),
        Role::Rook => Some(Role::Dragon),
        _ => None,
    }
}

/// The role under a piece's promoted side.
pub fn unpromote_role(role: Role) -> (res: Role)
    ensures
        res == unpromoted(role),
{
    match role {
        Role::Tokin => Role::Pawn,
        Role::Promotedlance => Role::Lance,
        Role::Promotedknight => Role::Knight,
        Role::Promotedsilver => Role::Silver,
        Role::Horse => Role::Bishop,
        Role::Dragon => Role::Rook,
        _ => role,
    }
}

/// The role that a drop letter names.
pub open spec fn role_of_letter(c: char) -> Option<Role> {
    if c == 'P' {
        Some(Role::Pawn)
    } else if c == 'L' {
        Some(Role::Lance)
    } else if c == 'N' {
        Some(Role::Knight)
    } else if c == 'S' {
        Some(Role::Silver)
    } else if c == 'G' {
        Some(Role::Gold)
    } else if c == 'B' {
        Some(Role::Bishop)
    } else if c == 'R' {
        Some(Role::Rook)
    } else {
        None
    }
}

/// The move that a USI text describes, if it describes one.
pub open spec fn move_of_text(s: Seq<char>) -> Option<ShogiMove> {
    if s.len() == 4 && s[1] == '*' {
        match (role_of_letter(s[0]), square_of_text(s.subrange(2, 4))) {
            (Some(role), Some(to)) => Some(ShogiMove::Drop { role, to }),
            _ => None,
        }
    } else if s.len() == 4 || (s.len() == 5 && s[4] == '+') {
        match (square_of_text(s.subrange(0, 2)), square_of_text(s.subrange(2, 4))) {
            (Some(from), Some(to)) => Some(
                ShogiMove::Board { from, to, promote: s.len() == 5 },
            ),
            _ => None,
        }
    } else {
        None
    }
}

/// Whether a move can be written down: squares on the board, a role that can be dropped.
pub open spec fn writable(mv: ShogiMove) -> bool {
    match mv {
        ShogiMove::Board { from, to, promote } => is_on_board(from) && is_on_board(to),
        ShogiMove::Drop { role, to } => drop_letter_of(role) is Some && is_on_board(to),
    }
}

/// The USI text of a move.
pub open spec fn text_of_move(mv: ShogiMove) -> Seq<char> {
    match mv {
        ShogiMove::Board { from, to, promote } => move_text(from, to, promote),
        ShogiMove::Drop { role, to } => drop_text(drop_letter_of(role)->0, to),
    }
}

fn letter_role(c: char) -> (res: Option<Role>)
    ensures
        res == role_of_letter(c),
{
    match c {
        'P' => Some(Role::Pawn),
        'L' => Some(Role::Lance),
        'N' => Some(Role::Knight),
        'S' => Some(Role::Silver),
        'G' => Some(Role::Gold),
        'B' => Some(Role::Bishop),
        'R' => Some(Role::Rook),
        _ => None,
    }
}

/// Reads a move such as `7g7f`, `8h2b+` or `P*5e`.
pub fn parse_usi(usi: &str) -> (res: Option<ShogiMove>)
    ensures
        res == move_of_text(usi@),
{
    let n: usize = usi.unicode_len();
    if n == 4 && usi.get_char(1) == '*' {
        let role = letter_role(usi.get_char(0));
        let to = parse_usi_square(usi.substring_char(2, 4));
        return match (role, to) {
            (Some(role), Some(to)) => Some(ShogiMove::Drop { role, to }),
            _ => None,
        };
    }
    if n == 4 || (n == 5 && usi.get_char(4) == '+') {
        let from = parse_usi_square(usi.substring_char(0, 2));
        let to = parse_usi_square(usi.substring_char(2, 4));
        return match (from, to) {
            (Some(from), Some(to)) => Some(ShogiMove::Board { from, to, promote: n == 5 }),
            _ => None,
        };
    }
    None
}

/// The square that a move lands on.
pub open spec fn target_of(mv: ShogiMove) -> Coord {
    match mv {
        ShogiMove::Board { from, to, promote } => to,
        ShogiMove::Drop { role, to } => to,
    }
}

impl ShogiMove {
    /// The USI text of the move.
    pub fn to_usi(&self) -> (res: String)
        requires
            writable(*self),
        ensures
            res@ == text_of_move(*self),
    {
        match *self {
            ShogiMove::Board { from, to, promote } => make_usi_move(from, to, promote),
            ShogiMove::Drop { role, to } => match make_usi_drop(role, to) {
                Some(text) => text,
                None => String::new(),
            },
        }
    }

    /// The square that the move lands on.
    pub fn target(&self) -> (res: Coord)
        ensures
            res == target_of(*self),
    {
        match *self {
            ShogiMove::Board { from: _, to, promote: _ } => to,
            ShogiMove::Drop { role: _, to } => to,
        }
    }
}

/// Reading back a written move gives the same move.
pub proof fn law_usi_round_trip(mv: ShogiMove)
    requires
        writable(mv),
    ensures
        move_of_text(text_of_move(mv)) == Some(mv),
{
    let s = text_of_move(mv);
    match mv {
        ShogiMove::Board { from, to, promote } => {
            law_square_round_trip(from);
            law_square_round_trip(to);
            assert(s.subrange(0, 2) =~= square_text(from));
            assert(s.subrange(2, 4) =~= square_text(to));
        },
        ShogiMove::Drop { role, to } => {
            law_square_round_trip(to);
            assert(s.subrange(2, 4) =~= square_text(to));
        },
    }
}

/// A position: the board, both hands, the side to move and the number of the coming move.
#[derive(Clone, Copy, Debug)]
pub struct Position {
    pub cells: [Option<Piece>; 81],
    pub sente_hand: [u8; 7],
    pub gote_hand: [u8; 7],
    pub turn: Color,
    pub move_number: u32,
}

/// The mathematical content of a position.
#[verifier::ext_equal]
pub struct PositionModel {
    pub cells: Seq<Option<Piece>>,
    pub sente_hand: Seq<u8>,
    pub gote_hand: Seq<u8>,
    pub turn: Color,
    pub move_number: u32,
}

impl View for Position {
    type V = PositionModel;

    open spec fn view(&self) -> PositionModel {
        PositionModel {
            cells: self.cells@,
            sente_hand: self.sente_hand@,
            gote_hand: self.gote_hand@,
            turn: self.turn,
            move_number: self.move_number,
        }
    }
}

impl PositionModel {
    /// The piece on a square; off the board there is none.
    pub open spec fn at(self, c: Coord) -> Option<Piece> {
        if is_on_board(c) {
            self.cells[square_index(c)]
        } else {
            None
        }
    }

    /// The pieces that a side holds, by slot.
    pub open spec fn hand(self, color: Color) -> Seq<u8> {
        match color {
            Color::Sente => self.sente_hand,
            Color::Gote => self.gote_hand,
        }
    }

    /// The position with another piece, or none, on a square.
    pub open spec fn with_cell(self, c: Coord, piece: Option<Piece>) -> PositionModel {
        PositionModel { cells: self.cells.update(square_index(c), piece), ..self }
    }

    /// The position with another hand for a side.
    pub open spec fn with_hand(self, color: Color, hand: Seq<u8>) -> PositionModel {
        match color {
            Color::Sente => PositionModel { sente_hand: hand, ..self },
            Color::Gote => PositionModel { gote_hand: hand, ..self },
        }
    }

    /// Whether the board has its eighty-one squares and each hand its seven slots.
    pub open spec fn wf(self) -> bool {
        self.cells.len() == 81 && self.sente_hand.len() == 7 && self.gote_hand.len() == 7
    }
}

/// Whether one step of the role leads from one square to the other.
pub open spec fn step_hits(role: Role, color: Color, from: Coord, to: Coord) -> bool {
    exists|i: int|
        0 <= i < step_deltas(role).len() && #[trigger] shifted(
            from,
            oriented(step_deltas(role)[i], color),
        ) == to
}

/// Whether the squares strictly before the `n`-th in a direction are on the board and empty.
pub open spec fn clear_run(m: PositionModel, from: Coord, d: Delta, n: int) -> bool {
    forall|k: int|
        0 < k < n ==> is_on_board(#[trigger] along(from, d, k)) && m.at(along(from, d, k)) is None
}

/// Whether the `n`-th square of the role's `i`-th run is the target, with nothing in between.
pub open spec fn run_reaches(
    m: PositionModel,
    role: Role,
    color: Color,
    from: Coord,
    to: Coord,
    i: int,
    n: int,
) -> bool {
    let d = oriented(ray_deltas(role)[i], color);
    &&& 0 <= i < ray_deltas(role).len()
    &&& 1 <= n <= 8
    &&& along(from, d, n) == to
    &&& clear_run(m, from, d, n)
}

/// Whether some run of the role reaches the target.
pub open spec fn ray_hits(
    m: PositionModel,
    role: Role,
    color: Color,
    from: Coord,
    to: Coord,
) -> bool {
    exists|i: int, n: int| #[trigger] run_reaches(m, role, color, from, to, i, n)
}

/// Whether the piece on `from` bears on `to`, whatever stands there.
pub open spec fn attacks_from(m: PositionModel, from: Coord, to: Coord) -> bool {
    is_on_board(from) && is_on_board(to) && (m.at(from) matches Some(p) && (step_hits(
        p.role,
        p.color,
        from,
        to,
    ) || ray_hits(m, p.role, p.color, from, to)))
}

/// Whether a piece of the side `by` stands on `s` and bears on `to`.
pub open spec fn attacker_at(m: PositionModel, by: Color, s: Coord, to: Coord) -> bool {
    attacks_from(m, s, to) && m.at(s)->0.color == by
}

/// Whether some piece of the side `by` bears on the square.
pub open spec fn attacked_by(m: PositionModel, to: Coord, by: Color) -> bool {
    exists|s: Coord| #[trigger] attacker_at(m, by, s, to)
}

/// The first square from place `i` on that holds the side's king.
pub open spec fn find_king(cells: Seq<Option<Piece>>, color: Color, i: int) -> Option<Coord>
    decreases 81 - i,
{
    if i >= 81 {
        None
    } else if cells[i] == Some(Piece { color, role: Role::King }) {
        Some(square_at(i))
    } else {
        find_king(cells, color, i + 1)
    }
}

/// The square of the side's king.
pub open spec fn king_of(m: PositionModel, color: Color) -> Option<Coord> {
    find_king(m.cells, color, 0)
}

/// Whether the side's king is attacked.
pub open spec fn checked(m: PositionModel, color: Color) -> bool {
    king_of(m, color) matches Some(k) && attacked_by(m, k, other_color(color))
}

/// The counts of a hand as a player is shown them.
pub open spec fn hand_counts(hand: Seq<u8>) -> Seq<u32> {
    Seq::new(7, |i: int| hand[i] as u32)
}

/// A hand with one more piece of the role; kings are not held.
pub open spec fn hand_gain(hand: Seq<u8>, role: Role) -> Seq<u8> {
    match slot_of(unpromoted(role)) {
        Some(i) => hand.update(
            i,
            if hand[i] == 255 {
                255
            } else {
                (hand[i] + 1) as u8
            },
        ),
        None => hand,
    }
}

/// A hand with one piece of the role fewer.
pub open spec fn hand_loss(hand: Seq<u8>, role: Role) -> Seq<u8> {
    match slot_of(role) {
        Some(i) => hand.update(
            i,
            if hand[i] == 0 {
                0
            } else {
                (hand[i] - 1) as u8
            },
        ),
        None => hand,
    }
}

/// The role that a moved piece has on arrival.
pub open spec fn arriving_role(role: Role, promote: bool) -> Role {
    if promote && promoted(role) is Some {
        promoted(role)->0
    } else {
        role
    }
}

/// Whether a move can be carried out at all: its squares are on the board and there is a piece
/// to move, or a role that can be held to drop.
pub open spec fn playable(m: PositionModel, mv: ShogiMove) -> bool {
    match mv {
        ShogiMove::Board { from, to, promote } => is_on_board(from) && is_on_board(to) && m.at(
            from,
        ) is Some,
        ShogiMove::Drop { role, to } => is_on_board(to) && slot_of(role) is Some,
    }
}

/// The board after a move, with both hands; the turn stays.
pub open spec fn rearranged(m: PositionModel, mv: ShogiMove) -> PositionModel {
    match mv {
        ShogiMove::Board { from, to, promote } => {
            let mover = m.at(from)->0;
            let landed = Piece { color: mover.color, role: arriving_role(mover.role, promote) };
            let moved = m.with_cell(from, None).with_cell(to, Some(landed));
            match m.at(to) {
                Some(taken) => moved.with_hand(m.turn, hand_gain(m.hand(m.turn), taken.role)),
                None => moved,
            }
        },
        ShogiMove::Drop { role, to } => m.with_cell(
            to,
            Some(Piece { color: m.turn, role }),
        ).with_hand(m.turn, hand_loss(m.hand(m.turn), role)),
    }
}

/// The position after a move.
pub open spec fn after_move(m: PositionModel, mv: ShogiMove) -> PositionModel {
    PositionModel {
        turn: other_color(m.turn),
        move_number: if m.move_number == u32::MAX {
            u32::MAX
        } else {
            (m.move_number + 1) as u32
        },
        ..rearranged(m, mv)
    }
}

/// The role of the piece that a move takes.
pub open spec fn taken_by(m: PositionModel, mv: ShogiMove) -> Option<Role> {
    match mv {
        ShogiMove::Board { from, to, promote } => match m.at(to) {
            Some(p) => Some(p.role),
            None => None,
        },
        ShogiMove::Drop { role, to } => None,
    }
}

/// Whether the side has an unpromoted pawn on the file.
pub open spec fn pawn_on_file(m: PositionModel, color: Color, file: int) -> bool {
    exists|c: Coord|
        c.file == file && #[trigger] m.at(c) == Some(Piece { color, role: Role::Pawn })
}

/// The movement rules without regard to the mover's own king.
pub open spec fn pseudo_legal(m: PositionModel, mv: ShogiMove) -> bool {
    match mv {
        ShogiMove::Board { from, to, promote } => {
            &&& m.at(from) matches Some(p) && {
                &&& p.color == m.turn
                &&& attacks_from(m, from, to)
                &&& !(m.at(to) matches Some(q) && q.color == m.turn)
                &&& if promote {
                    can_promote(p.role) && (is_promotion_zone(from.rank as int, m.turn)
                        || is_promotion_zone(to.rank as int, m.turn))
                } else {
                    !is_dead_end(p.role, to.rank as int, m.turn)
                }
            }
        },
        ShogiMove::Drop { role, to } => {
            &&& is_on_board(to)
            &&& slot_of(role) matches Some(i) && m.hand(m.turn)[i] > 0
            &&& m.at(to) is None
            &&& !is_dead_end(role, to.rank as int, m.turn)
            &&& role == Role::Pawn ==> !pawn_on_file(m, m.turn, to.file as int)
        },
    }
}

/// Whether the mover's king is out of check after the move.
pub open spec fn leaves_king_safe(m: PositionModel, mv: ShogiMove) -> bool {
    !checked(after_move(m, mv), m.turn)
}

/// Whether the side to move has a board move that leaves its king safe.
pub open spec fn has_board_evasion(m: PositionModel) -> bool {
    exists|from: Coord, to: Coord, promote: bool|
        #[trigger] evades(m, ShogiMove::Board { from, to, promote })
}

/// A move within the movement rules that leaves the mover's king safe.
pub open spec fn evades(m: PositionModel, mv: ShogiMove) -> bool {
    pseudo_legal(m, mv) && leaves_king_safe(m, mv)
}

/// Whether the move drops a pawn to give mate. A pawn gives check from the adjacent square, so
/// only board moves can answer it.
pub open spec fn pawn_drop_mate(m: PositionModel, mv: ShogiMove) -> bool {
    (mv matches ShogiMove::Drop { role, to } && role == Role::Pawn) && checked(
        after_move(m, mv),
        other_color(m.turn),
    ) && !has_board_evasion(after_move(m, mv))
}

/// Whether the move is legal for the side to move.
pub open spec fn legal(m: PositionModel, mv: ShogiMove) -> bool {
    evades(m, mv) && !pawn_drop_mate(m, mv)
}

/// The number of moves in the fixed enumeration of all conceivable moves.
pub open spec fn move_count() -> int {
    13689
}

/// The `n`-th conceivable move: board moves by origin, target and promotion, then drops by role
/// and square.
pub open spec fn move_at(n: int) -> ShogiMove {
    if n < 13122 {
        ShogiMove::Board {
            from: square_at(n / 162),
            to: square_at((n % 162) / 2),
            promote: n % 2 == 1,
        }
    } else {
        ShogiMove::Drop {
            role: role_at_slot((n - 13122) / 81),
            to: square_at((n - 13122) % 81),
        }
    }
}

/// The legal moves of a position, in the order of the enumeration.
pub open spec fn legal_list(m: PositionModel) -> Seq<ShogiMove> {
    Seq::new(move_count() as nat, |n: int| move_at(n)).filter(|mv: ShogiMove| legal(m, mv))
}

/// Where the enumeration lists a move.
pub open spec fn move_place(mv: ShogiMove) -> int {
    match mv {
        ShogiMove::Board { from, to, promote } => square_index(from) * 162 + square_index(to) * 2 + (
        if promote {
            1int
        } else {
            0int
        }),
        ShogiMove::Drop { role, to } => 13122 + slot_of(role)->0 * 81 + square_index(to),
    }
}

/// A number below 13122 splits into origin, target and promotion in one way.
proof fn lemma_board_place(f: int, t: int, b: int)
    requires
        0 <= f < 81,
        0 <= t < 81,
        0 <= b < 2,
    ensures
        0 <= f * 162 + t * 2 + b < 13122,
        (f * 162 + t * 2 + b) / 162 == f,
        ((f * 162 + t * 2 + b) % 162) / 2 == t,
        (f * 162 + t * 2 + b) % 2 == b,
{
    let n = f * 162 + t * 2 + b;
    vstd::arithmetic::div_mod::lemma_fundamental_div_mod_converse(n, 162, f, t * 2 + b);
    vstd::arithmetic::div_mod::lemma_fundamental_div_mod_converse(t * 2 + b, 2, t, b);
    vstd::arithmetic::div_mod::lemma_fundamental_div_mod_converse(n, 2, f * 81 + t, b);
}

/// A number below 567 splits into a slot and a square in one way.
proof fn lemma_drop_place(i: int, t: int)
    requires
        0 <= i < 7,
        0 <= t < 81,
    ensures
        0 <= i * 81 + t < 567,
        (i * 81 + t) / 81 == i,
        (i * 81 + t) % 81 == t,
{
    vstd::arithmetic::div_mod::lemma_fundamental_div_mod_converse(i * 81 + t, 81, i, t);
}

/// The enumeration lists every move whose squares are on the board and whose dropped role can be
/// held.
pub proof fn lemma_move_listed(mv: ShogiMove)
    requires
        match mv {
            ShogiMove::Board { from, to, promote } => is_on_board(from) && is_on_board(to),
            ShogiMove::Drop { role, to } => slot_of(role) is Some && is_on_board(to),
        },
    ensures
        0 <= move_place(mv) < move_count(),
        move_at(move_place(mv)) == mv,
        mv is Board <==> move_place(mv) < 13122,
{
    match mv {
        ShogiMove::Board { from, to, promote } => {
            lemma_square_index(from, 0);
            lemma_square_index(to, 0);
            lemma_board_place(
                square_index(from),
                square_index(to),
                if promote {
                    1
                } else {
                    0
                },
            );
        },
        ShogiMove::Drop { role, to } => {
            lemma_square_index(to, 0);
            lemma_drop_place(slot_of(role)->0, square_index(to));
        },
    }
}

/// The enumeration lists no move twice.
pub proof fn lemma_move_once(n: int)
    requires
        0 <= n < move_count(),
    ensures
        move_place(move_at(n)) == n,
{
    if n < 13122 {
        lemma_square_index(square_at(0), n / 162);
        lemma_square_index(square_at(0), (n % 162) / 2);
        assert(n == (n / 162) * 162 + (n % 162));
        assert(n % 162 == ((n % 162) / 2) * 2 + (n % 162) % 2);
        assert((n % 162) % 2 == n % 2);
    } else {
        let k = n - 13122;
        lemma_square_index(square_at(0), k % 81);
        assert(k == (k / 81) * 81 + k % 81);
        assert(0 <= k / 81 < 7);
    }
}

/// The list of legal moves holds exactly the legal moves, each once.
pub proof fn law_legal_moves(m: PositionModel, mv: ShogiMove)
    ensures
        legal_list(m).contains(mv) <==> legal(m, mv),
        legal_list(m).no_duplicates(),
{
    let all = Seq::new(move_count() as nat, |n: int| move_at(n));
    let good = |x: ShogiMove| legal(m, x);
    let list = legal_list(m);
    assert(all.no_duplicates()) by {
        assert forall|i: int, j: int|
            0 <= i < all.len() && 0 <= j < all.len() && i != j implies all[i] != all[j] by {
            lemma_move_once(i);
            lemma_move_once(j);
        }
    }
    lemma_filter_keeps_distinct(all, good);
    if legal(m, mv) {
        lemma_move_listed(mv);
        assert(all[move_place(mv)] == mv);
        all.lemma_filter_contains(good, move_place(mv));
    }
    if list.contains(mv) {
        let k = choose|k: int| 0 <= k < list.len() && list[k] == mv;
        all.lemma_filter_pred(good, k);
    }
}

/// The piece with which a game starts on a square.
pub open spec fn initial_piece(c: Coord) -> Option<Piece> {
    if c.rank == 1 || c.rank == 9 {
        let color = if c.rank == 1 {
            Color::Gote
        } else {
            Color::Sente
        };
        let role = if c.file == 1 || c.file == 9 {
            Role::Lance
        } else if c.file == 2 || c.file == 8 {
            Role::Knight
        } else if c.file == 3 || c.file == 7 {
            Role::Silver
        } else if c.file == 4 || c.file == 6 {
            Role::Gold
        } else {
            Role::King
        };
        Some(Piece { color, role })
    } else if c.rank == 2 && c.file == 2 {
        Some(Piece { color: Color::Gote, role: Role::Bishop })
    } else if c.rank == 2 && c.file == 8 {
        Some(Piece { color: Color::Gote, role: Role::Rook })
    } else if c.rank == 8 && c.file == 8 {
        Some(Piece { color: Color::Sente, role: Role::Bishop })
    } else if c.rank == 8 && c.file == 2 {
        Some(Piece { color: Color::Sente, role: Role::Rook })
    } else if c.rank == 3 {
        Some(Piece { color: Color::Gote, role: Role::Pawn })
    } else if c.rank == 7 {
        Some(Piece { color: Color::Sente, role: Role::Pawn })
    } else {
        None
    }
}

/// The position in which a game starts.
pub open spec fn initial_model() -> PositionModel {
    PositionModel {
        cells: Seq::new(81, |i: int| initial_piece(square_at(i))),
        sente_hand: Seq::new(7, |i: int| 0u8),
        gote_hand: Seq::new(7, |i: int| 0u8),
        turn: Color::Sente,
        move_number: 1,
    }
}

/// The occupied squares with their pieces, in file-major order.
pub open spec fn piece_list(m: PositionModel) -> Seq<(Coord, Piece)> {
    all_squares().filter(|c: Coord| m.at(c) is Some).map_values(|c: Coord| (c, m.at(c)->0))
}

impl Position {
    /// A position without pieces.
    pub fn empty(turn: Color) -> (res: Position)
        ensures
            res@ == (PositionModel {
                cells: Seq::new(81, |i: int| None::<Piece>),
                sente_hand: Seq::new(7, |i: int| 0u8),
                gote_hand: Seq::new(7, |i: int| 0u8),
                turn,
                move_number: 1,
            }),
    {
        let res = Position {
            cells: [None; 81],
            sente_hand: [0; 7],
            gote_hand: [0; 7],
            turn,
            move_number: 1,
        };
        assert(res@.cells =~= Seq::new(81, |i: int| None::<Piece>));
        assert(res@.sente_hand =~= Seq::new(7, |i: int| 0u8));
        assert(res@.gote_hand =~= Seq::new(7, |i: int| 0u8));
        res
    }

    fn starting_piece(c: Coord) -> (res: Option<Piece>)
        ensures
            res == initial_piece(c),
    {
        if c.rank == 1 || c.rank == 9 {
            let color = if c.rank == 1 {
                Color::Gote
            } else {
                Color::Sente
            };
            let role = if c.file == 1 || c.file == 9 {
                Role::Lance
            } else if c.file == 2 || c.file == 8 {
                Role::Knight
            } else if c.file == 3 || c.file == 7 {
                Role::Silver
            } else if c.file == 4 || c.file == 6 {
                Role::Gold
            } else {
                Role::King
            };
            Some(Piece { color, role })
        } else if c.rank == 2 && c.file == 2 {
            Some(Piece { color: Color::Gote, role: Role::Bishop })
        } else if c.rank == 2 && c.file == 8 {
            Some(Piece { color: Color::Gote, role: Role::Rook })
        } else if c.rank == 8 && c.file == 8 {
            Some(Piece { color: Color::Sente, role: Role::Bishop })
        } else if c.rank == 8 && c.file == 2 {
            Some(Piece { color: Color::Sente, role: Role::Rook })
        } else if c.rank == 3 {
            Some(Piece { color: Color::Gote, role: Role::Pawn })
        } else if c.rank == 7 {
            Some(Piece { color: Color::Sente, role: Role::Pawn })
        } else {
            None
        }
    }

    /// The position in which a game starts.
    pub fn initial() -> (res: Position)
        ensures
            res@ == initial_model(),
    {
        let mut res = Position::empty(Color::Sente);
        let mut i: usize = 0;
        while i < 81
            invariant
                i <= 81,
                res.turn == Color::Sente,
                res.move_number == 1,
                res.sente_hand@ == Seq::new(7, |i: int| 0u8),
                res.gote_hand@ == Seq::new(7, |i: int| 0u8),
                forall|k: int| 0 <= k < i ==> #[trigger] res.cells@[k] == initial_piece(square_at(k)),
            decreases 81 - i,
        {
            res.cells[i] = Position::starting_piece(coord_at(i));
            i += 1;
        }
        assert(res@ =~= initial_model());
        res
    }

    pub fn turn(&self) -> (res: Color)
        ensures
            res == self@.turn,
    {
        self.turn
    }

    pub fn set_turn(&mut self, turn: Color)
        ensures
            final(self)@ == (PositionModel { turn, ..old(self)@ }),
    {
        self.turn = turn;
    }

    pub fn move_number(&self) -> (res: u32)
        ensures
            res == self@.move_number,
    {
        self.move_number
    }

    /// The piece on a square.
    pub fn piece_at(&self, c: Coord) -> (res: Option<Piece>)
        ensures
            res == self@.at(c),
    {
        if on_board(c) {
            self.cells[index_of(c)]
        } else {
            None
        }
    }

    /// Puts a piece on a square, or clears it.
    pub fn set(&mut self, c: Coord, piece: Option<Piece>)
        requires
            is_on_board(c),
        ensures
            final(self)@ == old(self)@.with_cell(c, piece),
    {
        self.cells[index_of(c)] = piece;
        assert(self@ =~= old(self)@.with_cell(c, piece));
    }

    /// How many pieces of a role a side holds.
    pub fn hand_count(&self, color: Color, role: Role) -> (res: u8)
        ensures
            res == (match slot_of(role) {
                Some(i) => self@.hand(color)[i],
                None => 0,
            }),
    {
        match hand_slot(role) {
            Some(i) => match color {
                Color::Sente => self.sente_hand[i],
                Color::Gote => self.gote_hand[i],
            },
            None => 0,
        }
    }

    /// Sets how many pieces of a role a side holds; kings and promoted roles are not held.
    pub fn set_hand(&mut self, color: Color, role: Role, count: u8)
        ensures
            final(self)@ == (match slot_of(role) {
                Some(i) => old(self)@.with_hand(color, old(self)@.hand(color).update(i, count)),
                None => old(self)@,
            }),
    {
        match hand_slot(role) {
            Some(i) => match color {
                Color::Sente => {
                    self.sente_hand[i] = count;
                },
                Color::Gote => {
                    self.gote_hand[i] = count;
                },
            },
            None => {},
        }
        assert(self@ =~= (match slot_of(role) {
            Some(i) => old(self)@.with_hand(color, old(self)@.hand(color).update(i, count)),
            None => old(self)@,
        }));
    }

    /// The pieces that a side holds.
    pub fn hand_map(&self, color: Color) -> (res: Hand)
        ensures
            res@ == hand_counts(self@.hand(color)),
    {
        let mut hand = Hand::empty();
        let mut i: usize = 0;
        while i < 7
            invariant
                i <= 7,
                forall|k: int| 0 <= k < i ==> #[trigger] hand.counts@[k] == self@.hand(color)[k],
            decreases 7 - i,
        {
            let n: u8 = match color {
                Color::Sente => self.sente_hand[i],
                Color::Gote => self.gote_hand[i],
            };
            hand.counts[i] = n as u32;
            i += 1;
        }
        assert(hand@ =~= hand_counts(self@.hand(color)));
        hand
    }

    /// The square of the side's king.
    pub fn king_square(&self, color: Color) -> (res: Option<Coord>)
        ensures
            res == king_of(self@, color),
    {
        let mut i: usize = 0;
        while i < 81
            invariant
                i <= 81,
                king_of(self@, color) == find_king(self@.cells, color, i as int),
            decreases 81 - i,
        {
            if let Some(p) = self.cells[i] {
                if p.color == color && p.role == Role::King {
                    return Some(coord_at(i));
                }
            }
            i += 1;
        }
        None
    }

    fn steps_to(role: Role, color: Color, from: Coord, to: Coord) -> (res: bool)
        requires
            is_on_board(from),
        ensures
            res == step_hits(role, color, from, to),
    {
        let list = steps(role);
        proof {
            lemma_deltas(role);
        }
        let mut i: usize = 0;
        while i < list.len()
            invariant
                is_on_board(from),
                list@ == step_deltas(role),
                i <= list@.len(),
                forall|k: int|
                    0 <= k < step_deltas(role).len() ==> -2 <= (#[trigger] step_deltas(role)[k]).0
                        <= 2 && -2 <= step_deltas(role)[k].1 <= 2,
                forall|k: int|
                    0 <= k < i ==> #[trigger] shifted(
                        from,
                        oriented(step_deltas(role)[k], color),
                    ) != to,
            decreases list@.len() - i,
        {
            let d = orient(list[i], color);
            let c = Coord { file: from.file + d.0, rank: from.rank + d.1 };
            if c == to {
                assert(shifted(from, oriented(step_deltas(role)[i as int], color)) == to);
                return true;
            }
            i += 1;
        }
        false
    }

    /// Whether a run in direction `d` reaches the target before anything stops it.
    fn runs_to(&self, from: Coord, d: Delta, to: Coord) -> (res: bool)
        requires
            is_on_board(from),
            is_on_board(to),
            is_direction(d),
        ensures
            res == (exists|n: int|
                1 <= n <= 8 && #[trigger] along(from, d, n) == to && clear_run(self@, from, d, n)),
    {
        let mut n: usize = 1;
        let mut c = Coord { file: from.file + d.0, rank: from.rank + d.1 };
        while on_board(c)
            invariant
                is_on_board(from),
                is_on_board(to),
                is_direction(d),
                1 <= n <= 9,
                c == along(from, d, n as int),
                clear_run(self@, from, d, n as int),
                forall|k: int| 0 < k < n ==> #[trigger] along(from, d, k) != to,
            decreases 9 - n,
        {
            assert(n <= 8);
            if c == to {
                assert(along(from, d, n as int) == to);
                return true;
            }
            if self.piece_at(c).is_some() {
                assert(along(from, d, n as int) == c);
                assert forall|k: int|
                    1 <= k <= 8 && #[trigger] along(from, d, k) == to implies !clear_run(
                    self@,
                    from,
                    d,
                    k,
                ) by {
                    assert(k > n);
                }
                return false;
            }
            c = Coord { file: c.file + d.0, rank: c.rank + d.1 };
            n += 1;
        }
        proof {
            assert forall|k: int|
                1 <= k <= 8 && #[trigger] along(from, d, k) == to implies !clear_run(
                self@,
                from,
                d,
                k,
            ) by {
                assert(along(from, d, n as int) == c);
                assert(k >= n);
                assert(k > n);
            }
        }
        false
    }

    fn rays_to(&self, role: Role, color: Color, from: Coord, to: Coord) -> (res: bool)
        requires
            is_on_board(from),
            is_on_board(to),
        ensures
            res == ray_hits(self@, role, color, from, to),
    {
        let list = rays(role);
        proof {
            lemma_deltas(role);
        }
        let mut i: usize = 0;
        while i < list.len()
            invariant
                is_on_board(from),
                is_on_board(to),
                list@ == ray_deltas(role),
                i <= list@.len(),
                forall|k: int|
                    0 <= k < ray_deltas(role).len() ==> is_direction(#[trigger] ray_deltas(role)[k]),
                forall|k: int, n: int|
                    0 <= k < i ==> !#[trigger] run_reaches(self@, role, color, from, to, k, n),
            decreases list@.len() - i,
        {
            assert(is_direction(ray_deltas(role)[i as int]));
            let d = orient(list[i], color);
            if self.runs_to(from, d, to) {
                proof {
                    let n = choose|n: int|
                        1 <= n <= 8 && #[trigger] along(from, d, n) == to && clear_run(
                            self@,
                            from,
                            d,
                            n,
                        );
                    assert(run_reaches(self@, role, color, from, to, i as int, n));
                }
                return true;
            }
            assert forall|n: int| !#[trigger] run_reaches(
                self@,
                role,
                color,
                from,
                to,
                i as int,
                n,
            ) by {
                if run_reaches(self@, role, color, from, to, i as int, n) {
                    assert(along(from, d, n) == to);
                }
            }
            i += 1;
        }
        false
    }

    /// Whether the piece on `from` bears on `to`.
    pub fn attacks(&self, from: Coord, to: Coord) -> (res: bool)
        ensures
            res == attacks_from(self@, from, to),
    {
        if !on_board(from) || !on_board(to) {
            return false;
        }
        match self.piece_at(from) {
            Some(p) => Position::steps_to(p.role, p.color, from, to) || self.rays_to(
                p.role,
                p.color,
                from,
                to,
            ),
            None => false,
        }
    }

    /// Whether some piece of the side bears on the square.
    pub fn is_attacked(&self, to: Coord, by: Color) -> (res: bool)
        ensures
            res == attacked_by(self@, to, by),
    {
        let mut i: usize = 0;
        while i < 81
            invariant
                i <= 81,
                forall|k: int| 0 <= k < i ==> !#[trigger] attacker_at(self@, by, square_at(k), to),
            decreases 81 - i,
        {
            let s = coord_at(i);
            if let Some(p) = self.cells[i] {
                if p.color == by && self.attacks(s, to) {
                    assert(attacker_at(self@, by, s, to));
                    return true;
                }
            }
            i += 1;
        }
        proof {
            assert forall|s: Coord| !#[trigger] attacker_at(self@, by, s, to) by {
                lemma_square_index(s, 0);
                if is_on_board(s) {
                    assert(!attacker_at(self@, by, square_at(square_index(s)), to));
                }
            }
        }
        false
    }

    /// Whether the side's king is attacked; a side without a king is not in check.
    pub fn in_check(&self, color: Color) -> (res: bool)
        ensures
            res == checked(self@, color),
    {
        match self.king_square(color) {
            Some(k) => self.is_attacked(k, color.other()),
            None => false,
        }
    }

    fn gain(&mut self, color: Color, role: Role)
        ensures
            final(self)@ == old(self)@.with_hand(color, hand_gain(old(self)@.hand(color), role)),
    {
        let base = unpromote_role(role);
        let n: u8 = self.hand_count(color, base);
        self.set_hand(
            color,
            base,
            if n == 255 {
                255
            } else {
                n + 1
            },
        );
        assert(self@ =~= old(self)@.with_hand(color, hand_gain(old(self)@.hand(color), role)));
    }

    /// Plays a move without judging it and tells the role of the piece it took.
    pub fn play_unchecked(&mut self, mv: &ShogiMove) -> (res: Option<Role>)
        requires
            playable(old(self)@, *mv),
        ensures
            final(self)@ == after_move(old(self)@, *mv),
            res == taken_by(old(self)@, *mv),
    {
        let mover = self.turn;
        let mut taken: Option<Role> = None;
        match *mv {
            ShogiMove::Board { from, to, promote } => {
                let captured = self.piece_at(to);
                if let Some(p) = self.piece_at(from) {
                    let role = if promote {
                        match promote_role(p.role) {
                            Some(r) => r,
                            None => p.role,
                        }
                    } else {
                        p.role
                    };
                    self.set(from, None);
                    self.set(to, Some(Piece { color: p.color, role }));
                }
                if let Some(q) = captured {
                    self.gain(mover, q.role);
                    taken = Some(q.role);
                }
            },
            ShogiMove::Drop { role, to } => {
                self.set(to, Some(Piece { color: mover, role }));
                let n: u8 = self.hand_count(mover, role);
                self.set_hand(
                    mover,
                    role,
                    if n == 0 {
                        0
                    } else {
                        n - 1
                    },
                );
            },
        }
        assert(self@ =~= rearranged(old(self)@, *mv));
        self.turn = mover.other();
        if self.move_number < u32::MAX {
            self.move_number = self.move_number + 1;
        }
        assert(self@ =~= after_move(old(self)@, *mv));
        taken
    }

    fn own_pawn_on_file(&self, color: Color, file: i8) -> (res: bool)
        requires
            1 <= file <= 9,
        ensures
            res == pawn_on_file(self@, color, file as int),
    {
        let mut rank: i8 = 1;
        while rank <= 9
            invariant
                1 <= rank <= 10,
                1 <= file <= 9,
                forall|c: Coord|
                    c.file == file && c.rank < rank ==> #[trigger] self@.at(c) != Some(
                        Piece { color, role: Role::Pawn },
                    ),
            decreases 10 - rank,
        {
            if let Some(p) = self.piece_at(Coord { file, rank }) {
                if p.color == color && p.role == Role::Pawn {
                    assert(self@.at(Coord { file, rank }) == Some(
                        Piece { color, role: Role::Pawn },
                    ));
                    return true;
                }
            }
            rank += 1;
        }
        false
    }

    /// Whether the move follows the movement rules, the own king left aside.
    pub fn is_pseudo_legal(&self, mv: &ShogiMove) -> (res: bool)
        ensures
            res == pseudo_legal(self@, *mv),
    {
        match *mv {
            ShogiMove::Board { from, to, promote } => match self.piece_at(from) {
                None => false,
                Some(p) => {
                    if p.color != self.turn {
                        return false;
                    }
                    if let Some(q) = self.piece_at(to) {
                        if q.color == self.turn {
                            return false;
                        }
                    }
                    if promote {
                        if !crate::board::promotable(p.role) || !(in_promotion_zone(
                            from.rank,
                            self.turn,
                        ) || in_promotion_zone(to.rank, self.turn)) {
                            return false;
                        }
                    } else if dead_end_rank(p.role, to.rank, self.turn) {
                        return false;
                    }
                    self.attacks(from, to)
                },
            },
            ShogiMove::Drop { role, to } => {
                if !on_board(to) || hand_slot(role).is_none() {
                    return false;
                }
                if self.hand_count(self.turn, role) == 0 || self.piece_at(to).is_some()
                    || dead_end_rank(role, to.rank, self.turn) {
                    return false;
                }
                !(role == Role::Pawn && self.own_pawn_on_file(self.turn, to.file))
            },
        }
    }

    /// Whether the move follows the movement rules and leaves the own king out of check.
    fn is_evasion(&self, mv: &ShogiMove) -> (res: bool)
        ensures
            res == evades(self@, *mv),
    {
        if !self.is_pseudo_legal(mv) {
            return false;
        }
        let mut next = *self;
        next.play_unchecked(mv);
        !next.in_check(self.turn)
    }

    /// Whether the side to move has a board move that leaves its king safe.
    fn can_evade_on_board(&self) -> (res: bool)
        ensures
            res == has_board_evasion(self@),
    {
        let mut n: usize = 0;
        while n < 13122
            invariant
                n <= 13122,
                forall|k: int| 0 <= k < n ==> !#[trigger] evades(self@, move_at(k)),
            decreases 13122 - n,
        {
            let mv = ShogiMove::Board {
                from: coord_at(n / 162),
                to: coord_at((n % 162) / 2),
                promote: n % 2 == 1,
            };
            assert(mv == move_at(n as int));
            if self.is_evasion(&mv) {
                return true;
            }
            n += 1;
        }
        proof {
            assert forall|from: Coord, to: Coord, promote: bool| !#[trigger] evades(
                self@,
                ShogiMove::Board { from, to, promote },
            ) by {
                let mv = ShogiMove::Board { from, to, promote };
                if is_on_board(from) && is_on_board(to) {
                    lemma_move_listed(mv);
                    assert(!evades(self@, move_at(move_place(mv))));
                }
            }
        }
        false
    }

    /// Whether the move is legal.
    pub fn is_legal(&self, mv: &ShogiMove) -> (res: bool)
        ensures
            res == legal(self@, *mv),
    {
        if !self.is_evasion(mv) {
            return false;
        }
        if let ShogiMove::Drop { role, to } = *mv {
            if role == Role::Pawn {
                let mut next = *self;
                next.play_unchecked(mv);
                if next.in_check(next.turn) && !next.can_evade_on_board() {
                    return false;
                }
            }
        }
        true
    }

    /// All legal moves, in a fixed order.
    pub fn legal_moves(&self) -> (res: Vec<ShogiMove>)
        ensures
            res@ == legal_list(self@),
    {
        let mut moves: Vec<ShogiMove> = Vec::new();
        let ghost all = Seq::new(move_count() as nat, |n: int| move_at(n));
        let ghost good = |mv: ShogiMove| legal(self@, mv);
        let mut n: usize = 0;
        assert(all.take(0).filter(good) =~= Seq::<ShogiMove>::empty()) by {
            reveal(Seq::filter);
        }
        while n < 13689
            invariant
                n <= 13689,
                all == Seq::new(move_count() as nat, |n: int| move_at(n)),
                good == (|mv: ShogiMove| legal(self@, mv)),
                moves@ == all.take(n as int).filter(good),
            decreases 13689 - n,
        {
            let mv = if n < 13122 {
                ShogiMove::Board {
                    from: coord_at(n / 162),
                    to: coord_at((n % 162) / 2),
                    promote: n % 2 == 1,
                }
            } else {
                ShogiMove::Drop {
                    role: slot_role((n - 13122) / 81),
                    to: coord_at((n - 13122) % 81),
                }
            };
            assert(mv == move_at(n as int));
            proof {
                assert(all.take(n + 1) =~= all.take(n as int).push(mv));
                all.take(n as int).lemma_filter_push(mv, good);
            }
            if self.is_legal(&mv) {
                moves.push(mv);
            }
            n += 1;
        }
        assert(all.take(n as int) =~= all);
        moves
    }

    /// How the game has ended, if the side to move has no legal move.
    pub fn outcome(&self) -> (res: Option<Outcome>)
        ensures
            res == outcome_of(self@),
    {
        if self.legal_moves().len() > 0 {
            None
        } else if self.in_check(self.turn) {
            Some(Outcome::Checkmate { winner: self.turn.other() })
        } else {
            Some(Outcome::Stalemate { winner: self.turn.other() })
        }
    }

    /// The occupied squares with their pieces, in file-major order.
    pub fn pieces(&self) -> (res: Vec<(Coord, Piece)>)
        ensures
            res@ == piece_list(self@),
    {
        let mut list: Vec<(Coord, Piece)> = Vec::new();
        let ghost all = all_squares();
        let ghost held = |c: Coord| self@.at(c) is Some;
        let ghost pair = |c: Coord| (c, self@.at(c)->0);
        let mut i: usize = 0;
        assert(all.take(0).filter(held) =~= Seq::<Coord>::empty()) by {
            reveal(Seq::filter);
        }
        assert(list@ =~= all.take(0).filter(held).map_values(pair));
        while i < 81
            invariant
                i <= 81,
                all == all_squares(),
                held == (|c: Coord| self@.at(c) is Some),
                pair == (|c: Coord| (c, self@.at(c)->0)),
                list@ == all.take(i as int).filter(held).map_values(pair),
            decreases 81 - i,
        {
            let c = coord_at(i);
            proof {
                assert(all.take(i + 1) =~= all.take(i as int).push(c));
                all.take(i as int).lemma_filter_push(c, held);
            }
            if let Some(p) = self.cells[i] {
                list.push((c, p));
                assert(list@ =~= all.take(i + 1).filter(held).map_values(pair));
            }
            i += 1;
        }
        assert(all.take(81) =~= all);
        list
    }
}

/// How a position without legal moves has ended.
pub open spec fn outcome_of(m: PositionModel) -> Option<Outcome> {
    if legal_list(m).len() > 0 {
        None
    } else if checked(m, m.turn) {
        Some(Outcome::Checkmate { winner: other_color(m.turn) })
    } else {
        Some(Outcome::Stalemate { winner: other_color(m.turn) })
    }
}

} // verus!
