//! The vocabulary shared with the game server: colours, piece roles and what a player is shown.

use vstd::prelude::*;

verus! {

/// The two sides. Sente moves first, towards rank 1.
#[derive(Clone, Copy, Debug, PartialEq, Eq, Hash, Structural)]
pub enum Color {
    Sente,
    Gote,
}

/// The side across the board.
pub open spec fn other_color(color: Color) -> Color {
    match color {
        Color::Sente => Color::Gote,
        Color::Gote => Color::Sente,
    }
}

impl Color {
    pub fn other(self) -> (res: Color)
        ensures
            res == other_color(self),
    {
        match self {
            Color::Sente => Color::Gote,
            Color::Gote => Color::Sente,
        }
    }
}

/// Every kind of piece, promoted kinds included.
#[derive(Clone, Copy, Debug, PartialEq, Eq, Hash, Structural)]
pub enum Role {
    Pawn,
    Lance,
    Knight,
    Silver,
    Gold,
    Bishop,
    Rook,
    King,
    Tokin,
    Promotedlance,
    Promotedknight,
    Promotedsilver,
    Horse,
    Dragon,
}

/// The place of a role in a hand, for the seven roles that can be held.
pub open spec fn slot_of(role: Role) -> Option<int> {
    match role {
        Role::Pawn => Some(0),
        Role::Lance => Some(1),
        Role::Knight => Some(2),
        Role::Silver => Some(3),
        Role::Gold => Some(4),
        Role::Bishop => Some(5),
        Role::Rook => Some(6),
        _ => None,
    }
}

/// The role at a place in a hand.
pub open spec fn role_at_slot(i: int) -> Role {
    if i == 0 {
        Role::Pawn
    } else if i == 1 {
        Role::Lance
    } else if i == 2 {
        Role::Knight
    } else if i == 3 {
        Role::Silver
    } else if i == 4 {
        Role::Gold
    } else if i == 5 {
        Role::Bishop
    } else {
        Role::Rook
    }
}

/// The place of a role in a hand.
pub fn hand_slot(role: Role) -> (res: Option<usize>)
    ensures
        res is Some <==> slot_of(role) is Some,
        res is Some ==> res->0 == slot_of(role)->0 && res->0 < 7,
{
    match role {
        Role::Pawn => Some(0),
        Role::Lance => Some(1),
        Role::Knight => Some(2),
        Role::Silver => Some(3),
        Role::Gold => Some(4),
        Role::Bishop => Some(5),
        Role::Rook => Some(6),
        _ => None,
    }
}

/// The role at a place in a hand.
pub fn slot_role(i: usize) -> (res: Role)
    requires
        i < 7,
    ensures
        res == role_at_slot(i as int),
        slot_of(res) == Some(i as int),
{
    match i {
        0 => Role::Pawn,
        1 => Role::Lance,
        2 => Role::Knight,
        3 => Role::Silver,
        4 => Role::Gold,
        5 => Role::Bishop,
        _ => Role::Rook,
    }
}

/// The role that a piece promotes to.
pub open spec fn promoted(role: Role) -> Option<Role> {
    match role {
        Role::Pawn => Some(Role::Tokin),
        Role::Lance => Some(Role::Promotedlance),
        Role::Knight => Some(Role::Promotedknight),
        Role::Silver => Some(Role::Promotedsilver),
        Role::Bishop => Some(Role::Horse),
        Role::Rook => Some(Role::Dragon),
        _ => None,
    }
}

/// The role under a piece's promoted side; other roles are themselves.
pub open spec fn unpromoted(role: Role) -> Role {
    match role {
        Role::Tokin => Role::Pawn,
        Role::Promotedlance => Role::Lance,
        Role::Promotedknight => Role::Knight,
        Role::Promotedsilver => Role::Silver,
        Role::Horse => Role::Bishop,
        Role::Dragon => Role::Rook,
        _ => role,
    }
}

/// The pieces that a side holds, counted by role.
#[derive(Clone, Copy, Debug, PartialEq, Eq)]
pub struct Hand {
    pub counts: [u32; 7],
}

impl View for Hand {
    type V = Seq<u32>;

    open spec fn view(&self) -> Seq<u32> {
        self.counts@
    }
}

impl Hand {
    pub fn empty() -> (res: Hand)
        ensures
            res@ == Seq::new(7, |i: int| 0u32),
    {
        let res = Hand { counts: [0; 7] };
        assert(res@ =~= Seq::new(7, |i: int| 0u32));
        res
    }

    /// How many pieces of the role are held.
    pub fn get(&self, role: Role) -> (res: u32)
        ensures
            res == (match slot_of(role) {
                Some(i) => self@[i],
                None => 0,
            }),
    {
        match hand_slot(role) {
            Some(i) => self.counts[i],
            None => 0,
        }
    }
}

/// One of the player's own pieces, with its square in USI text (file digit, rank letter).
#[derive(Debug, PartialEq, Eq)]
pub struct VisiblePiece {
    pub square: String,
    pub role: Role,
}

impl Clone for VisiblePiece {
    fn clone(&self) -> (res: VisiblePiece)
        ensures
            res == *self,
    {
        VisiblePiece { square: self.square.clone(), role: self.role }
    }
}

impl View for VisiblePiece {
    type V = (Seq<char>, Role);

    open spec fn view(&self) -> (Seq<char>, Role) {
        (self.square@, self.role)
    }
}

/// The squares and roles of a list of visible pieces.
pub open spec fn visible_list(pieces: Seq<VisiblePiece>) -> Seq<(Seq<char>, Role)> {
    pieces.map_values(|p: VisiblePiece| p@)
}

/// Whether a game is still being played.
#[derive(Clone, Copy, Debug, PartialEq, Eq, Structural)]
pub enum GameStatus {
    Playing,
    Finished,
}

/// The remaining time of both sides.
#[derive(Clone, Copy, Debug, PartialEq, Eq, Structural)]
pub struct ClockState {
    pub sente_ms: i64,
    pub gote_ms: i64,
    pub running: Option<Color>,
    pub server_time: i64,
}

/// The fouls that each side has spent.
#[derive(Clone, Copy, Debug, PartialEq, Eq, Structural)]
pub struct FoulCounts {
    pub you: u32,
    pub opponent: u32,
}

/// Everything that the server shows a player: the own pieces and hand, never the opponent's.
#[derive(Debug)]
pub struct PlayerView {
    pub game_id: String,
    pub your_color: Color,
    pub your_pieces: Vec<VisiblePiece>,
    pub your_hand: Hand,
    pub turn: Color,
    pub move_number: u32,
    pub clocks: ClockState,
    pub fouls: FoulCounts,
    pub you_in_check: bool,
    pub opponent_in_check: bool,
    pub status: GameStatus,
}

/// The mathematical content of a `PlayerView`, its name and clocks left aside.
#[verifier::ext_equal]
pub struct ViewModel {
    pub color: Color,
    pub pieces: Seq<(Seq<char>, Role)>,
    pub hand: Seq<u32>,
    pub turn: Color,
    pub move_number: u32,
    pub fouls: FoulCounts,
    pub you_in_check: bool,
    pub opponent_in_check: bool,
    pub status: GameStatus,
}

impl View for PlayerView {
    type V = ViewModel;

    open spec fn view(&self) -> ViewModel {
        ViewModel {
            color: self.your_color,
            pieces: visible_list(self.your_pieces@),
            hand: self.your_hand@,
            turn: self.turn,
            move_number: self.move_number,
            fouls: self.fouls,
            you_in_check: self.you_in_check,
            opponent_in_check: self.opponent_in_check,
            status: self.status,
        }
    }
}

/// A move that the server accepted.
#[derive(Debug)]
pub struct MoveRecord {
    pub usi: String,
    pub by_color: Color,
    pub ms: u64,
    pub fouls_before: u32,
}

/// An attempt that the server refused as a foul.
#[derive(Debug)]
pub struct FoulRecord {
    pub move_number: u32,
    pub by_color: Color,
    pub usi: String,
}

impl Clone for FoulRecord {
    fn clone(&self) -> (res: FoulRecord)
        ensures
            res == *self,
    {
        FoulRecord {
            move_number: self.move_number,
            by_color: self.by_color,
            usi: self.usi.clone(),
        }
    }
}

/// What the server tells both players when a game is over: the whole truth of it.
#[derive(Debug)]
pub struct GameEndPayload {
    pub result: String,
    pub reason: String,
    pub moves: Vec<MoveRecord>,
    pub foul_attempts: Vec<FoulRecord>,
}

/// The number of fouls with which a side has lost.
pub const MAX_FOULS: u32 = 10;

} // verus!
