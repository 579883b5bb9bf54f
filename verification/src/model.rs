//! What a player knows for certain about the own side: its pieces, hand, losses and fouls, worked
//! out from the observations alone.

use crate::board::{
    all_squares, coord_at, is_on_board, make_usi_square, on_board, parse_usi_square, square_of_text,
    square_text, Coord,
};
use crate::observation::{Event, Observation, ObservationLog};
use crate::protocol::{visible_list, Color, Hand, Role, VisiblePiece};
use crate::shogi::{
    arriving_role, hand_counts, hand_gain, hand_loss, initial_model, initial_piece, move_of_text, parse_usi, text_of_move,
    promote_role, unpromote_role, Piece, Position, PositionModel, ShogiMove,
};
use vstd::prelude::*;

verus! {

/// The own side of a game as far as the observations tell it.
pub struct GameModel {
    color: Color,
    own: Position,
    my_fouls: u32,
    opponent_fouls: u32,
    lost: Vec<(Coord, Role)>,
    consistent: bool,
}

/// The mathematical content of a `GameModel`.
pub struct OwnSide {
    /// The board with the own pieces only, and the own hand.
    pub own: PositionModel,
    pub my_fouls: u32,
    pub opponent_fouls: u32,
    /// The own pieces that were taken, with the role they had on the board.
    pub lost: Seq<(Coord, Role)>,
    /// Whether every observation fitted the state it met.
    pub consistent: bool,
}

impl View for GameModel {
    type V = OwnSide;

    closed spec fn view(&self) -> OwnSide {
        OwnSide {
            own: self.own@,
            my_fouls: self.my_fouls,
            opponent_fouls: self.opponent_fouls,
            lost: self.lost@,
            consistent: self.consistent,
        }
    }
}

/// One more, up to the limit of the counter.
pub open spec fn bumped(n: u32) -> u32 {
    if n == u32::MAX {
        n
    } else {
        (n + 1) as u32
    }
}

/// One more, up to the limit of the counter.
pub fn bump(n: u32) -> (res: u32)
    ensures
        res == bumped(n),
{
    if n == u32::MAX {
        n
    } else {
        n + 1
    }
}

/// The own pieces at the start of a game.
pub open spec fn own_start(color: Color) -> PositionModel {
    PositionModel {
        cells: Seq::new(
            81,
            |i: int|
                match initial_piece(crate::board::square_at(i)) {
                    Some(p) => if p.color == color {
                        Some(p)
                    } else {
                        None
                    },
                    None => None,
                },
        ),
        turn: color,
        ..initial_model()
    }
}

/// The own side before anything happened.
pub open spec fn fresh_side(color: Color) -> OwnSide {
    OwnSide {
        own: own_start(color),
        my_fouls: 0,
        opponent_fouls: 0,
        lost: Seq::empty(),
        consistent: true,
    }
}

/// The own board after an accepted move of the own side, if the move fits it.
pub open spec fn own_move(own: PositionModel, mv: ShogiMove, captured: Option<Role>) -> Option<
    PositionModel,
> {
    match mv {
        ShogiMove::Board { from, to, promote } => {
            if own.at(from) is Some && is_on_board(to) && own.at(to) is None {
                let p = own.at(from)->0;
                let landed = Piece { color: p.color, role: arriving_role(p.role, promote) };
                let moved = own.with_cell(from, None).with_cell(to, Some(landed));
                Some(
                    match captured {
                        Some(role) => moved.with_hand(
                            own.turn,
                            hand_gain(own.hand(own.turn), role),
                        ),
                        None => moved,
                    },
                )
            } else {
                None
            }
        },
        ShogiMove::Drop { role, to } => {
            if is_on_board(to) && own.at(to) is None && crate::protocol::slot_of(role) is Some
                && own.hand(own.turn)[crate::protocol::slot_of(role)->0] > 0 {
                Some(
                    own.with_cell(to, Some(Piece { color: own.turn, role })).with_hand(
                        own.turn,
                        hand_loss(own.hand(own.turn), role),
                    ),
                )
            } else {
                None
            }
        },
    }
}

/// The own side after one more observation. An observation that does not fit leaves the board
/// alone and marks the model inconsistent.
pub open spec fn observed(s: OwnSide, e: Event) -> OwnSide {
    match e {
        Event::MyMove { move_number, usi, captured } => match move_of_text(usi) {
            Some(mv) => match own_move(s.own, mv, captured) {
                Some(own) => OwnSide { own, ..s },
                None => OwnSide { consistent: false, ..s },
            },
            None => OwnSide { consistent: false, ..s },
        },
        Event::MyFoul { move_number, usi } => OwnSide { my_fouls: bumped(s.my_fouls), ..s },
        Event::OpponentMoved { move_number, captured_at } => match captured_at {
            None => s,
            Some(text) => match square_of_text(text) {
                Some(c) => match s.own.at(c) {
                    Some(p) => OwnSide {
                        own: s.own.with_cell(c, None),
                        lost: s.lost.push((c, p.role)),
                        ..s
                    },
                    None => OwnSide { consistent: false, ..s },
                },
                None => OwnSide { consistent: false, ..s },
            },
        },
        Event::OpponentFoul { count } => OwnSide { opponent_fouls: count, ..s },
        Event::Check { in_check } => s,
    }
}

/// The own side after all the events.
pub open spec fn side_after(color: Color, events: Seq<Event>) -> OwnSide
    decreases events.len(),
{
    if events.len() == 0 {
        fresh_side(color)
    } else {
        observed(side_after(color, events.drop_last()), events.last())
    }
}

/// The own pieces of a board, in file-major order.
pub open spec fn own_list(own: PositionModel) -> Seq<(Seq<char>, Role)> {
    all_squares().filter(|c: Coord| own.at(c) is Some).map_values(
        |c: Coord| (square_text(c), own.at(c)->0.role),
    )
}

/// The pieces of one side of a board, as that side sees them.
pub fn visible_pieces(own: &Position) -> (res: Vec<VisiblePiece>)
    ensures
        visible_list(res@) == own_list(own@),
{
    let mut list: Vec<VisiblePiece> = Vec::new();
    let ghost all = all_squares();
    let ghost held = |c: Coord| own@.at(c) is Some;
    let ghost pair = |c: Coord| (square_text(c), own@.at(c)->0.role);
    let mut i: usize = 0;
    assert(all.take(0).filter(held) =~= Seq::<Coord>::empty()) by {
        reveal(Seq::filter);
    }
    assert(visible_list(list@) =~= all.take(0).filter(held).map_values(pair));
    while i < 81
        invariant
            i <= 81,
            all == all_squares(),
            held == (|c: Coord| own@.at(c) is Some),
            pair == (|c: Coord| (square_text(c), own@.at(c)->0.role)),
            visible_list(list@) == all.take(i as int).filter(held).map_values(pair),
        decreases 81 - i,
    {
        let c = coord_at(i);
        let ghost before = list@;
        proof {
            assert(all.take(i + 1) =~= all.take(i as int).push(c));
            all.take(i as int).lemma_filter_push(c, held);
        }
        if let Some(p) = own.piece_at(c) {
            list.push(VisiblePiece { square: make_usi_square(c), role: p.role });
            assert(visible_list(list@) =~= visible_list(before).push(pair(c)));
            assert(visible_list(list@) =~= all.take(i + 1).filter(held).map_values(pair));
        }
        i += 1;
    }
    assert(all.take(81) =~= all);
    list
}

impl GameModel {
    /// The own side before anything happened.
    fn fresh(color: Color) -> (res: GameModel)
        ensures
            res@ == fresh_side(color),
            res.color == color,
    {
        let mut own = Position::initial();
        own.set_turn(color);
        let ghost start = own@;
        let mut i: usize = 0;
        while i < 81
            invariant
                i <= 81,
                own@.turn == color,
                own@.move_number == 1,
                own@.sente_hand == start.sente_hand,
                own@.gote_hand == start.gote_hand,
                start.cells == initial_model().cells,
                forall|k: int| i <= k < 81 ==> #[trigger] own@.cells[k] == start.cells[k],
                forall|k: int|
                    0 <= k < i ==> #[trigger] own@.cells[k] == own_start(color).cells[k],
            decreases 81 - i,
        {
            let c = coord_at(i);
            if let Some(p) = own.piece_at(c) {
                if p.color != color {
                    own.set(c, None);
                }
            }
            i += 1;
        }
        assert(own@ =~= own_start(color));
        let res = GameModel {
            color,
            own,
            my_fouls: 0,
            opponent_fouls: 0,
            lost: Vec::new(),
            consistent: true,
        };
        assert(res@.lost =~= Seq::<(Coord, Role)>::empty());
        res
    }

    /// Carries out an accepted own move on the own board; tells whether it fitted.
    fn apply_own(&mut self, mv: &ShogiMove, captured: Option<Role>) -> (res: bool)
        ensures
            final(self).color == old(self).color,
            res == (own_move(old(self)@.own, *mv, captured) is Some),
            res ==> final(self)@ == (OwnSide {
                own: own_move(old(self)@.own, *mv, captured)->0,
                ..old(self)@
            }),
            !res ==> final(self)@ == old(self)@,
    {
        let mover = self.own.turn();
        match *mv {
            ShogiMove::Board { from, to, promote } => {
                let piece = self.own.piece_at(from);
                if !on_board(to) || self.own.piece_at(to).is_some() {
                    return false;
                }
                match piece {
                    None => false,
                    Some(p) => {
                        let role = if promote {
                            match promote_role(p.role) {
                                Some(r) => r,
                                None => p.role,
                            }
                        } else {
                            p.role
                        };
                        self.own.set(from, None);
                        self.own.set(to, Some(Piece { color: p.color, role }));
                        if let Some(taken) = captured {
                            let base = unpromote_role(taken);
                            let n: u8 = self.own.hand_count(mover, base);
                            self.own.set_hand(
                                mover,
                                base,
                                if n == 255 {
                                    255
                                } else {
                                    n + 1
                                },
                            );
                        }
                        assert(self.own@ =~= own_move(old(self)@.own, *mv, captured)->0);
                        true
                    },
                }
            },
            ShogiMove::Drop { role, to } => {
                let n: u8 = self.own.hand_count(mover, role);
                if !on_board(to) || self.own.piece_at(to).is_some()
                    || crate::protocol::hand_slot(role).is_none() || n == 0 {
                    return false;
                }
                self.own.set(to, Some(Piece { color: mover, role }));
                self.own.set_hand(mover, role, n - 1);
                assert(self.own@ =~= own_move(old(self)@.own, *mv, captured)->0);
                true
            },
        }
    }

    /// Takes in one more observation.
    fn observe(&mut self, obs: &Observation)
        ensures
            final(self).color == old(self).color,
            final(self)@ == observed(old(self)@, obs@),
    {
        match obs {
            Observation::MyMove { move_number: _, usi, captured } => {
                match parse_usi(usi.as_str()) {
                    Some(mv) => {
                        if !self.apply_own(&mv, *captured) {
                            self.consistent = false;
                        }
                    },
                    None => {
                        self.consistent = false;
                    },
                }
            },
            Observation::MyFoul { move_number: _, usi: _ } => {
                self.my_fouls = bump(self.my_fouls);
            },
            Observation::OpponentMoved { move_number: _, captured_my_piece_at } => {
                if let Some(text) = captured_my_piece_at {
                    match parse_usi_square(text.as_str()) {
                        Some(c) => match self.own.piece_at(c) {
                            Some(p) => {
                                self.own.set(c, None);
                                self.lost.push((c, p.role));
                            },
                            None => {
                                self.consistent = false;
                            },
                        },
                        None => {
                            self.consistent = false;
                        },
                    }
                }
            },
            Observation::OpponentFoul { count } => {
                self.opponent_fouls = *count;
            },
            Observation::Check { in_check: _ } => {},
        }
    }

    /// The own side after everything in the log.
    pub fn from_log(color: Color, log: &ObservationLog) -> (res: GameModel)
        ensures
            res@ == side_after(color, log@),
            res.side() == color,
    {
        let mut model = GameModel::fresh(color);
        let mut i: usize = 0;
        while i < log.events.len()
            invariant
                i <= log.events@.len(),
                model.color == color,
                model@ == side_after(color, log@.take(i as int)),
            decreases log.events@.len() - i,
        {
            proof {
                let t = log@.take(i + 1);
                assert(t.drop_last() =~= log@.take(i as int));
                assert(t.last() == log.events@[i as int]@);
            }
            model.observe(&log.events[i]);
            i += 1;
        }
        assert(log@.take(i as int) =~= log@);
        model
    }

    /// The side that the model belongs to.
    pub closed spec fn side(&self) -> Color {
        self.color
    }

    pub fn my_color(&self) -> (res: Color)
        ensures
            res == self.side(),
    {
        self.color
    }

    pub fn my_fouls(&self) -> (res: u32)
        ensures
            res == self@.my_fouls,
    {
        self.my_fouls
    }

    pub fn opponent_fouls(&self) -> (res: u32)
        ensures
            res == self@.opponent_fouls,
    {
        self.opponent_fouls
    }

    pub fn consistent(&self) -> (res: bool)
        ensures
            res == self@.consistent,
    {
        self.consistent
    }

    /// The own pieces that were taken, oldest first.
    pub fn lost_pieces(&self) -> (res: &Vec<(Coord, Role)>)
        ensures
            res@ == self@.lost,
    {
        &self.lost
    }

    /// The own pieces on the board.
    pub fn my_pieces(&self) -> (res: Vec<VisiblePiece>)
        ensures
            visible_list(res@) == own_list(self@.own),
    {
        visible_pieces(&self.own)
    }

    /// The own hand.
    pub fn my_hand(&self) -> (res: Hand)
        ensures
            res@ == hand_counts(self@.own.hand(self.side())),
    {
        self.own.hand_map(self.color)
    }
}

/// The own side has its board and its hands.
proof fn lemma_side_wf(color: Color, events: Seq<Event>)
    ensures
        side_after(color, events).own.wf(),
        side_after(color, events).own.turn == color,
    decreases events.len(),
{
    if events.len() > 0 {
        lemma_side_wf(color, events.drop_last());
    }
}

/// The loss of a piece is taken over as it was told: the square is empty, the piece is noted as lost
/// with its square and role, and nothing else changes. A loss that does not fit shows that something
/// is wrong.
pub proof fn law_lost_piece(
    color: Color,
    events: Seq<Event>,
    move_number: u32,
    c: Coord,
    other: Coord,
)
    requires
        is_on_board(c),
        is_on_board(other),
    ensures
        ({
            let a = side_after(color, events);
            let b = side_after(
                color,
                events.push(
                    Event::OpponentMoved { move_number, captured_at: Some(square_text(c)) },
                ),
            );
            &&& b.own.at(c) is None
            &&& other != c ==> b.own.at(other) == a.own.at(other)
            &&& b.own.hand(color) == a.own.hand(color)
            &&& b.my_fouls == a.my_fouls && b.opponent_fouls == a.opponent_fouls
            &&& match a.own.at(c) {
                Some(p) => b.lost == a.lost.push((c, p.role)) && b.consistent == a.consistent,
                None => b.lost == a.lost && !b.consistent,
            }
        }),
{
    let e = Event::OpponentMoved { move_number, captured_at: Some(square_text(c)) };
    assert(events.push(e).drop_last() =~= events);
    lemma_side_wf(color, events);
    crate::board::law_square_round_trip(c);
    crate::board::lemma_square_index(c, 0);
    crate::board::lemma_square_index(other, 0);
}

/// A quiet move of the opponent, its fouls and checks leave the own side as it is; the fouls of both
/// sides are counted as they were told.
pub proof fn law_other_news(
    color: Color,
    events: Seq<Event>,
    move_number: u32,
    usi: Seq<char>,
    count: u32,
    side: Color,
)
    ensures
        ({
            let a = side_after(color, events);
            let quiet = side_after(
                color,
                events.push(Event::OpponentMoved { move_number, captured_at: None }),
            );
            let foul = side_after(color, events.push(Event::MyFoul { move_number, usi }));
            let theirs = side_after(color, events.push(Event::OpponentFoul { count }));
            let check = side_after(color, events.push(Event::Check { in_check: side }));
            &&& quiet == a
            &&& check == a
            &&& foul.own == a.own && foul.lost == a.lost && foul.consistent == a.consistent
            &&& foul.opponent_fouls == a.opponent_fouls
            &&& a.my_fouls < u32::MAX ==> foul.my_fouls == a.my_fouls + 1
            &&& theirs.own == a.own && theirs.lost == a.lost && theirs.consistent == a.consistent
            &&& theirs.my_fouls == a.my_fouls && theirs.opponent_fouls == count
        }),
{
    assert(events.push(Event::OpponentMoved { move_number, captured_at: None }).drop_last()
        =~= events);
    assert(events.push(Event::MyFoul { move_number, usi }).drop_last() =~= events);
    assert(events.push(Event::OpponentFoul { count }).drop_last() =~= events);
    assert(events.push(Event::Check { in_check: side }).drop_last() =~= events);
}

/// An own move is taken over: the piece stands on its new square, promoted where it promoted, and no
/// longer on the old one; what it took is in hand as the role it had before it promoted.
pub proof fn law_own_move(
    color: Color,
    events: Seq<Event>,
    move_number: u32,
    from: Coord,
    to: Coord,
    promote: bool,
    captured: Option<Role>,
    c: Coord,
    i: int,
)
    requires
        is_on_board(from),
        is_on_board(to),
        is_on_board(c),
        from != to,
        side_after(color, events).own.at(from) is Some,
        side_after(color, events).own.at(to) is None,
        0 <= i < 7,
        side_after(color, events).own.hand(color)[i] < 255,
    ensures
        ({
            let a = side_after(color, events);
            let b = side_after(
                color,
                events.push(
                    Event::MyMove {
                        move_number,
                        usi: text_of_move(ShogiMove::Board { from, to, promote }),
                        captured,
                    },
                ),
            );
            let p = a.own.at(from)->0;
            &&& b.own.at(from) is None
            &&& b.own.at(to) matches Some(q) && q.color == p.color && q.role == arriving_role(
                p.role,
                promote,
            )
            &&& c != from && c != to ==> b.own.at(c) == a.own.at(c)
            &&& b.own.hand(color)[i] == a.own.hand(color)[i] + (if captured matches Some(r)
                && crate::protocol::slot_of(crate::protocol::unpromoted(r)) == Some(i) {
                1int
            } else {
                0int
            })
            &&& b.lost == a.lost && b.consistent == a.consistent
            &&& b.my_fouls == a.my_fouls && b.opponent_fouls == a.opponent_fouls
        }),
{
    let mv = ShogiMove::Board { from, to, promote };
    let e = Event::MyMove { move_number, usi: text_of_move(mv), captured };
    assert(events.push(e).drop_last() =~= events);
    lemma_side_wf(color, events);
    crate::shogi::law_usi_round_trip(mv);
    crate::board::lemma_square_index(from, 0);
    crate::board::lemma_square_index(to, 0);
    crate::board::lemma_square_index(c, 0);
}

/// An own move fits the own board where it leaves an own piece's square for one on the board that no own
/// piece holds, or drops a held piece on such a square. What does not fit, or is no move, changes
/// nothing but that the model is known to be wrong.
pub proof fn law_misfits(color: Color, events: Seq<Event>, number: u32, usi: Seq<char>, captured: Option<Role>)
    ensures
        ({
            let s = side_after(color, events);
            let t = side_after(color, events.push(Event::MyMove { move_number: number, usi, captured }));
            let fits = match move_of_text(usi) {
                Some(ShogiMove::Board { from, to, promote }) => s.own.at(from) is Some && is_on_board(to)
                    && s.own.at(to) is None,
                Some(ShogiMove::Drop { role, to }) => is_on_board(to) && s.own.at(to) is None && (
                crate::protocol::slot_of(role) matches Some(i) && s.own.hand(s.own.turn)[i] > 0),
                None => false,
            };
            &&& fits ==> t.consistent == s.consistent
            &&& !fits ==> t.own == s.own && !t.consistent
            &&& t.lost == s.lost && t.my_fouls == s.my_fouls && t.opponent_fouls == s.opponent_fouls
        }),
{
    let e = Event::MyMove { move_number: number, usi, captured };
    assert(events.push(e).drop_last() =~= events);
}

/// A piece said to be lost where the own side has none, or on what is no square, changes nothing but that
/// the model is known to be wrong.
pub proof fn law_false_losses(color: Color, events: Seq<Event>, number: u32, text: Seq<char>)
    ensures
        ({
            let s = side_after(color, events);
            let t = side_after(
                color,
                events.push(Event::OpponentMoved { move_number: number, captured_at: Some(text) }),
            );
            let stands = square_of_text(text) matches Some(c) && s.own.at(c) is Some;
            &&& stands ==> t.consistent == s.consistent && t.lost.len() == s.lost.len() + 1
            &&& !stands ==> t.own == s.own && t.lost == s.lost && !t.consistent
            &&& t.my_fouls == s.my_fouls && t.opponent_fouls == s.opponent_fouls
        }),
{
    let e = Event::OpponentMoved { move_number: number, captured_at: Some(text) };
    assert(events.push(e).drop_last() =~= events);
}

} // verus!
