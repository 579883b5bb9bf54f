//! Which pawns are pushed on: every pawn that could advance at a decision of a finished game, what is
//! known of it, and when it was pushed.

use crate::board::{is_on_board, Coord, SquareSet};
use crate::lists::count_if;
use crate::protocol::{other_color, Color, GameEndPayload, MoveRecord, Role};
use crate::replay::{decision_list, game_run, replay_game, side_place, Decision, DecisionModel};
use crate::shogi::{
    attacked_by, move_of_text, parse_usi, piece_list, Piece, Position, PositionModel, ShogiMove,
};
use vstd::prelude::*;

verus! {

/// The square in front of a square, seen by a side.
pub open spec fn front(c: Coord, s: Color) -> Option<Coord> {
    let rank = match s {
        Color::Sente => c.rank - 1,
        Color::Gote => c.rank + 1,
    };
    if 1 <= rank <= 9 {
        Some(Coord { file: c.file, rank: rank as i8 })
    } else {
        None
    }
}

/// The square in front of a square, seen by a side.
pub fn ahead(sq: Coord, s: Color) -> (res: Option<Coord>)
    requires
        is_on_board(sq),
    ensures
        res == front(sq, s),
        res matches Some(c) ==> is_on_board(c),
{
    let rank: i8 = match s {
        Color::Sente => sq.rank - 1,
        Color::Gote => sq.rank + 1,
    };
    if 1 <= rank && rank <= 9 {
        Some(Coord { file: sq.file, rank })
    } else {
        None
    }
}

/// The square behind a square, seen by a side.
pub fn behind(sq: Coord, s: Color) -> (res: Option<Coord>)
    requires
        is_on_board(sq),
    ensures
        res == front(sq, other_color(s)),
        res matches Some(c) ==> is_on_board(c),
{
    ahead(sq, s.other())
}

/// What stands behind a square, across empty squares.
pub open spec fn first_behind(pos: PositionModel, c: Coord, s: Color) -> Option<Piece>
    decreases
            (match s {
                Color::Sente => 9 - c.rank,
                Color::Gote => c.rank - 1,
            }),
{
    match front(c, other_color(s)) {
        Some(b) => match pos.at(b) {
            Some(p) => Some(p),
            None => first_behind(pos, b, s),
        },
        None => None,
    }
}

/// Whether a lance, and whether a rook or a dragon, of the side stands behind a square across empty
/// squares.
pub fn backed_by(pos: &Position, sq: Coord, s: Color) -> (res: (bool, bool))
    requires
        is_on_board(sq),
    ensures
        res.0 == (first_behind(pos@, sq, s) == Some(Piece { color: s, role: Role::Lance })),
        res.1 == (first_behind(pos@, sq, s) == Some(Piece { color: s, role: Role::Rook })
            || first_behind(pos@, sq, s) == Some(Piece { color: s, role: Role::Dragon })),
{
    let mut cur = sq;
    loop
        invariant
            is_on_board(cur),
            first_behind(pos@, sq, s) == first_behind(pos@, cur, s),
        decreases
                (match s {
                    Color::Sente => 9 - cur.rank,
                    Color::Gote => cur.rank - 1,
                }),
    {
        let b = match behind(cur, s) {
            Some(b) => b,
            None => return (false, false),
        };
        if let Some(p) = pos.piece_at(b) {
            if p.color != s {
                return (false, false);
            }
            return match p.role {
                Role::Lance => (true, false),
                Role::Rook | Role::Dragon => (false, true),
                _ => (false, false),
            };
        }
        cur = b;
    }
}

/// Whether a square lies in the promotion zone of a side.
pub fn in_zone(sq: Coord, s: Color) -> (res: bool)
    ensures
        res == (match s {
            Color::Sente => sq.rank <= 3,
            Color::Gote => sq.rank >= 7,
        }),
{
    match s {
        Color::Sente => sq.rank <= 3,
        Color::Gote => sq.rank >= 7,
    }
}

/// The rank on which the pawns of a side begin.
pub fn home_rank(s: Color) -> (res: i8)
    ensures
        res == (match s {
            Color::Sente => 7int,
            Color::Gote => 3int,
        }),
{
    match s {
        Color::Sente => 7,
        Color::Gote => 3,
    }
}

/// What the players have learnt of each other's pieces: where one took a piece, its place is known;
/// where a side has moved from or to, it has been.
#[derive(Debug)]
pub struct Exposure {
    pub revealed: [SquareSet; 2],
    pub touched: [SquareSet; 2],
}

/// The mathematical content of an `Exposure`.
#[verifier::ext_equal]
pub struct ExposureModel {
    pub revealed: Seq<Set<Coord>>,
    pub touched: Seq<Set<Coord>>,
}

impl View for Exposure {
    type V = ExposureModel;

    open spec fn view(&self) -> ExposureModel {
        ExposureModel {
            revealed: self.revealed@.map_values(|s: SquareSet| s@),
            touched: self.touched@.map_values(|s: SquareSet| s@),
        }
    }
}

/// Nothing is known at the beginning.
pub open spec fn nothing_known() -> ExposureModel {
    ExposureModel {
        revealed: seq![Set::empty(), Set::empty()],
        touched: seq![Set::empty(), Set::empty()],
    }
}

/// What is known after a move of a side: the mover's square is forgotten, that on which it took a
/// piece is known, the piece that was taken is forgotten.
pub open spec fn known_after(
    e: ExposureModel,
    pos: PositionModel,
    s: Color,
    mv: ShogiMove,
) -> ExposureModel {
    let i = side_place(s);
    let o = side_place(other_color(s));
    match mv {
        ShogiMove::Board { from, to, promote } => {
            let own = if pos.at(to) is Some {
                e.revealed[i].remove(from).insert(to)
            } else {
                e.revealed[i].remove(from).remove(to)
            };
            ExposureModel {
                revealed: e.revealed.update(i, own).update(o, e.revealed[o].remove(to)),
                touched: e.touched.update(i, e.touched[i].insert(from).insert(to)),
            }
        },
        ShogiMove::Drop { role, to } => ExposureModel {
            revealed: e.revealed.update(i, e.revealed[i].remove(to)),
            touched: e.touched.update(i, e.touched[i].insert(to)),
        },
    }
}

impl Exposure {
    /// Nothing is known at the beginning.
    pub fn new() -> (res: Exposure)
        ensures
            res@ == nothing_known(),
    {
        let res = Exposure {
            revealed: [SquareSet::empty(), SquareSet::empty()],
            touched: [SquareSet::empty(), SquareSet::empty()],
        };
        assert(res@ =~= nothing_known());
        res
    }

    /// Notes a move of a side in a position.
    pub fn note(&mut self, pos: &Position, s: Color, mv: &ShogiMove)
        requires
            match *mv {
                ShogiMove::Board { from, to, promote } => is_on_board(from) && is_on_board(to),
                ShogiMove::Drop { role, to } => is_on_board(to),
            },
        ensures
            final(self)@ == known_after(old(self)@, pos@, s, *mv),
    {
        let i: usize = crate::replay::side_idx(s);
        let o: usize = crate::replay::side_idx(s.other());
        match *mv {
            ShogiMove::Board { from, to, promote: _ } => {
                let mut own = self.revealed[i];
                own.remove(from);
                if pos.piece_at(to).is_some() {
                    own.insert(to);
                } else {
                    own.remove(to);
                }
                let mut other = self.revealed[o];
                other.remove(to);
                let mut seen = self.touched[i];
                seen.insert(from);
                seen.insert(to);
                self.revealed[i] = own;
                self.revealed[o] = other;
                self.touched[i] = seen;
            },
            ShogiMove::Drop { role: _, to } => {
                let mut own = self.revealed[i];
                own.remove(to);
                let mut seen = self.touched[i];
                seen.insert(to);
                self.revealed[i] = own;
                self.touched[i] = seen;
            },
        }
        assert(self@ =~= known_after(old(self)@, pos@, s, *mv));
    }
}

/// A pawn that could advance at a decision.
#[derive(Clone, Copy, Debug, PartialEq, Eq)]
pub struct PawnEvent {
    /// The decision, counted from the first.
    pub decision: usize,
    pub square: Coord,
    /// Whether it was pushed there and then.
    pub now: bool,
    /// After how many moves of its side it was pushed, if within the limit.
    pub within: Option<usize>,
    /// Whether that push promoted it.
    pub promoted: bool,
    /// Whether the opponent knows of it.
    pub revealed: bool,
    /// Whether it has left its first rank.
    pub advanced: bool,
    pub backed_lance: bool,
    pub backed_rook: bool,
    /// Whether the opponent attacks the square in front.
    pub ahead_attacked: bool,
    pub ahead_empty: bool,
    /// Whether the next step enters the promotion zone.
    pub zone_next: bool,
    /// Whether its side is not the bot's.
    pub human: bool,
}

/// The move that answered a decision.
pub open spec fn answer_of(moves: Seq<MoveRecord>, d: DecisionModel) -> Option<ShogiMove> {
    if d.plies < moves.len() {
        move_of_text(moves[d.plies as int].usi@)
    } else {
        None
    }
}

/// The pawn that was pushed at a decision, and whether it promoted.
pub open spec fn push_of(moves: Seq<MoveRecord>, d: DecisionModel) -> Option<(Coord, bool)> {
    match answer_of(moves, d) {
        Some(ShogiMove::Board { from, to, promote }) => if d.pos.at(from) == Some(
            Piece { color: d.side, role: Role::Pawn },
        ) {
            Some((from, promote))
        } else {
            None
        },
        _ => None,
    }
}

/// The first push of a side's pawn on a square from a decision on: after how many moves of the side,
/// and whether it promoted.
pub open spec fn next_push(
    ds: Seq<DecisionModel>,
    moves: Seq<MoveRecord>,
    s: Color,
    sq: Coord,
    i: int,
    n: int,
) -> Option<(int, bool)>
    decreases ds.len() - i,
{
    if i < 0 || i >= ds.len() {
        None
    } else if ds[i].side != s {
        next_push(ds, moves, s, sq, i + 1, n)
    } else {
        match push_of(moves, ds[i]) {
            Some((from, promote)) => if from == sq {
                Some((n, promote))
            } else {
                next_push(ds, moves, s, sq, i + 1, n + 1)
            },
            None => next_push(ds, moves, s, sq, i + 1, n + 1),
        }
    }
}

/// What the players have learnt before a decision.
pub open spec fn known_at(ds: Seq<DecisionModel>, moves: Seq<MoveRecord>, i: int) -> ExposureModel
    decreases i,
{
    if i <= 0 {
        nothing_known()
    } else {
        match answer_of(moves, ds[i - 1]) {
            Some(mv) => known_after(known_at(ds, moves, i - 1), ds[i - 1].pos, ds[i - 1].side, mv),
            None => known_at(ds, moves, i - 1),
        }
    }
}

/// What is noted of a piece at a decision: nothing unless it is a pawn of the side to move that its
/// own piece in front does not block.
pub open spec fn event_of(
    ds: Seq<DecisionModel>,
    moves: Seq<MoveRecord>,
    k: usize,
    bot: Option<Color>,
    i: int,
    x: (Coord, Piece),
) -> Option<PawnEvent> {
    let d = ds[i];
    let s = d.side;
    let sq = x.0;
    match front(sq, s) {
        Some(a) => if x.1 == (Piece { color: s, role: Role::Pawn }) && !(d.pos.at(a) matches Some(p)
            && p.color == s) {
            let push = next_push(ds, moves, s, sq, i, 0);
            let soon = push matches Some(p) && p.0 <= k;
            Some(
                PawnEvent {
                    decision: i as usize,
                    square: sq,
                    now: push_of(moves, d) matches Some(p) && p.0 == sq,
                    within: match push {
                        Some(p) => if soon {
                            Some(p.0 as usize)
                        } else {
                            None
                        },
                        None => None,
                    },
                    promoted: soon && (push matches Some(p) && p.1),
                    revealed: known_at(ds, moves, i).revealed[side_place(s)].contains(sq),
                    advanced: sq.rank != (match s {
                        Color::Sente => 7int,
                        Color::Gote => 3int,
                    }),
                    backed_lance: first_behind(d.pos, sq, s) == Some(
                        Piece { color: s, role: Role::Lance },
                    ),
                    backed_rook: first_behind(d.pos, sq, s) == Some(
                        Piece { color: s, role: Role::Rook },
                    ) || first_behind(d.pos, sq, s) == Some(
                        Piece { color: s, role: Role::Dragon },
                    ),
                    ahead_attacked: attacked_by(d.pos, a, other_color(s)),
                    ahead_empty: d.pos.at(a) is None,
                    zone_next: (match s {
                        Color::Sente => a.rank <= 3,
                        Color::Gote => a.rank >= 7,
                    }),
                    human: bot matches Some(b) && b != s,
                },
            )
        } else {
            None
        },
        None => None,
    }
}

/// What is noted at the first `n` decisions.
pub open spec fn events_upto(
    ds: Seq<DecisionModel>,
    moves: Seq<MoveRecord>,
    k: usize,
    bot: Option<Color>,
    n: int,
) -> Seq<PawnEvent>
    decreases n,
{
    if n <= 0 {
        Seq::empty()
    } else {
        events_upto(ds, moves, k, bot, n - 1) + piece_list(ds[n - 1].pos).filter_map(
            |x: (Coord, Piece)| event_of(ds, moves, k, bot, n - 1, x),
        )
    }
}

fn answer(moves: &Vec<MoveRecord>, d: &Decision) -> (res: Option<ShogiMove>)
    ensures
        res == answer_of(moves@, d@),
        res matches Some(mv) ==> match mv {
            ShogiMove::Board { from, to, promote } => is_on_board(from) && is_on_board(to),
            ShogiMove::Drop { role, to } => is_on_board(to),
        },
{
    if (d.plies as u64) < moves.len() as u64 {
        let i: usize = d.plies as usize;
        parse_usi(moves[i].usi.as_str())
    } else {
        None
    }
}

fn push_at(moves: &Vec<MoveRecord>, d: &Decision) -> (res: Option<(Coord, bool)>)
    ensures
        res == push_of(moves@, d@),
{
    match answer(moves, d) {
        Some(ShogiMove::Board { from, to: _, promote }) => match d.pos.piece_at(from) {
            Some(p) => if p.color == d.side && p.role == Role::Pawn {
                Some((from, promote))
            } else {
                None
            },
            None => None,
        },
        _ => None,
    }
}

fn find_push(
    decisions: &Vec<Decision>,
    moves: &Vec<MoveRecord>,
    s: Color,
    sq: Coord,
    i: usize,
) -> (res:
    Option<(usize, bool)>)
    requires
        i <= decisions@.len(),
    ensures
        match res {
            Some(p) => next_push(decision_list(decisions@), moves@, s, sq, i as int, 0) == Some(
                (p.0 as int, p.1),
            ),
            None => next_push(decision_list(decisions@), moves@, s, sq, i as int, 0) is None,
        },
{
    let ghost ds = decision_list(decisions@);
    let mut j: usize = i;
    let mut n: usize = 0;
    while j < decisions.len()
        invariant
            i <= j <= decisions@.len(),
            n <= j - i,
            ds == decision_list(decisions@),
            next_push(ds, moves@, s, sq, i as int, 0) == next_push(
                ds,
                moves@,
                s,
                sq,
                j as int,
                n as int,
            ),
        decreases decisions@.len() - j,
    {
        assert(ds[j as int] == decisions@[j as int]@);
        if decisions[j].side == s {
            if let Some((from, promote)) = push_at(moves, &decisions[j]) {
                if from == sq {
                    return Some((n, promote));
                }
            }
            n += 1;
        }
        j += 1;
    }
    None
}

fn event_at(
    decisions: &Vec<Decision>,
    moves: &Vec<MoveRecord>,
    k: usize,
    bot: Option<Color>,
    i: usize,
    known: &Exposure,
    sq: Coord,
    piece: Piece,
) -> (res: Option<PawnEvent>)
    requires
        i < decisions@.len(),
        is_on_board(sq),
        known@ == known_at(decision_list(decisions@), moves@, i as int),
    ensures
        res == event_of(decision_list(decisions@), moves@, k, bot, i as int, (sq, piece)),
{
    let ghost ds = decision_list(decisions@);
    let d = &decisions[i];
    assert(ds[i as int] == d@);
    let s = d.side;
    if piece.color != s || piece.role != Role::Pawn {
        return None;
    }
    let a = match ahead(sq, s) {
        Some(a) => a,
        None => return None,
    };
    let in_front = d.pos.piece_at(a);
    if let Some(p) = in_front {
        if p.color == s {
            return None;
        }
    }
    let push = find_push(decisions, moves, s, sq, i);
    let (within, promoted) = match push {
        Some((n, promote)) => if n <= k {
            (Some(n), promote)
        } else {
            (None, false)
        },
        None => (None, false),
    };
    let now = match push_at(moves, d) {
        Some((from, _)) => from == sq,
        None => false,
    };
    let (backed_lance, backed_rook) = backed_by(&d.pos, sq, s);
    Some(
        PawnEvent {
            decision: i,
            square: sq,
            now,
            within,
            promoted,
            revealed: known.revealed[crate::replay::side_idx(s)].contains(sq),
            advanced: sq.rank != home_rank(s),
            backed_lance,
            backed_rook,
            ahead_attacked: d.pos.is_attacked(a, s.other()),
            ahead_empty: in_front.is_none(),
            zone_next: in_zone(a, s),
            human: match bot {
                Some(b) => b != s,
                None => false,
            },
        },
    )
}

/// Notes every pawn that could advance at a decision of a finished game; nothing comes back of a
/// record that does not hold together.
pub fn pawn_events(end: &GameEndPayload, k: usize, bot: Option<Color>) -> (res: Option<Vec<PawnEvent>>)
    requires
        end.moves@.len() <= u32::MAX,
        end.foul_attempts@.len() <= u32::MAX,
    ensures
        res is Some <==> game_run(*end).ok,
        res matches Some(list) ==> list@ == events_upto(
            game_run(*end).decisions,
            end.moves@,
            k,
            bot,
            game_run(*end).decisions.len() as int,
        ),
{
    let replay = replay_game(end);
    if !replay.ok {
        return None;
    }
    let decisions = replay.decisions;
    let ghost ds = decision_list(decisions@);
    let ghost moves = end.moves@;
    let mut known = Exposure::new();
    let mut out: Vec<PawnEvent> = Vec::new();
    let mut i: usize = 0;
    while i < decisions.len()
        invariant
            i <= decisions@.len(),
            ds == decision_list(decisions@),
            moves == end.moves@,
            known@ == known_at(ds, moves, i as int),
            out@ == events_upto(ds, moves, k, bot, i as int),
        decreases decisions@.len() - i,
    {
        assert(ds[i as int] == decisions@[i as int]@);
        let pieces = decisions[i].pos.pieces();
        let ghost start = out@;
        let ghost pick = |x: (Coord, Piece)| event_of(ds, moves, k, bot, i as int, x);
        let mut j: usize = 0;
        assert(pieces@.take(0).filter_map(pick) =~= Seq::<PawnEvent>::empty());
        assert(out@ =~= start + pieces@.take(0).filter_map(pick));
        while j < pieces.len()
            invariant
                i < decisions@.len(),
                ds == decision_list(decisions@),
                moves == end.moves@,
                known@ == known_at(ds, moves, i as int),
                pieces@ == piece_list(ds[i as int].pos),
                pick == (|x: (Coord, Piece)| event_of(ds, moves, k, bot, i as int, x)),
                j <= pieces@.len(),
                out@ == start + pieces@.take(j as int).filter_map(pick),
            decreases pieces@.len() - j,
        {
            let (sq, piece) = pieces[j];
            let ghost before_ = out@;
            proof {
                pieces@.lemma_filter_map_take_succ(pick, j as int);
                crate::check_economy::lemma_piece_list(ds[i as int].pos, j as int);
            }
            if let Some(e) = event_at(&decisions, &end.moves, k, bot, i, &known, sq, piece) {
                out.push(e);
            }
            assert(out@ =~= start + pieces@.take(j + 1).filter_map(pick));
            j += 1;
        }
        assert(pieces@.take(j as int) =~= pieces@);
        if let Some(mv) = answer(&end.moves, &decisions[i]) {
            known.note(&decisions[i].pos, decisions[i].side, &mv);
        }
        i += 1;
    }
    Some(out)
}

/// A group of pawns that is counted on its own.
#[derive(Clone, Copy, Debug, PartialEq, Eq, Structural)]
pub enum PushGroup {
    /// Every pawn that can advance.
    All,
    /// Not known of and not advanced.
    Home,
    /// Advanced, but not known of.
    Advanced,
    /// Of those: the square in front is attacked.
    AdvancedAttacked,
    /// Of those: in front of a lance.
    AdvancedLance,
    /// Of those: in front of a rook.
    AdvancedRook,
    /// Of those: nothing behind.
    AdvancedUnbacked,
    /// Known of: it has taken a piece where it stands.
    Revealed,
    /// Of those: advanced.
    RevealedAdvanced,
    /// Of those: the square in front is empty.
    RevealedOpen,
    /// Of those: and attacked.
    RevealedOpenAttacked,
    /// Of those: and safe.
    RevealedOpenSafe,
    /// Of those known of: in front of a lance.
    RevealedLance,
    /// Of those known of: in front of a rook.
    RevealedRook,
    /// Of those known of: nothing behind.
    RevealedUnbacked,
    /// Of those known of: the next step promotes.
    RevealedZone,
    /// Of those known of: the opponent of the bot is to move.
    RevealedHuman,
    /// Of those known of: the bot is to move.
    RevealedBot,
}

/// Whether a pawn belongs to a group.
pub open spec fn in_group(e: PawnEvent, g: PushGroup) -> bool {
    match g {
        PushGroup::All => true,
        PushGroup::Home => !e.revealed && !e.advanced,
        PushGroup::Advanced => !e.revealed && e.advanced,
        PushGroup::AdvancedAttacked => !e.revealed && e.advanced && e.ahead_attacked,
        PushGroup::AdvancedLance => !e.revealed && e.advanced && e.backed_lance,
        PushGroup::AdvancedRook => !e.revealed && e.advanced && !e.backed_lance && e.backed_rook,
        PushGroup::AdvancedUnbacked => !e.revealed && e.advanced && !e.backed_lance && !e.backed_rook,
        PushGroup::Revealed => e.revealed,
        PushGroup::RevealedAdvanced => e.revealed && e.advanced,
        PushGroup::RevealedOpen => e.revealed && e.ahead_empty,
        PushGroup::RevealedOpenAttacked => e.revealed && e.ahead_empty && e.ahead_attacked,
        PushGroup::RevealedOpenSafe => e.revealed && e.ahead_empty && !e.ahead_attacked,
        PushGroup::RevealedLance => e.revealed && e.backed_lance,
        PushGroup::RevealedRook => e.revealed && !e.backed_lance && e.backed_rook,
        PushGroup::RevealedUnbacked => e.revealed && !e.backed_lance && !e.backed_rook,
        PushGroup::RevealedZone => e.revealed && e.zone_next,
        PushGroup::RevealedHuman => e.revealed && e.human,
        PushGroup::RevealedBot => e.revealed && !e.human,
    }
}

fn belongs(e: &PawnEvent, g: PushGroup) -> (res: bool)
    ensures
        res == in_group(*e, g),
{
    match g {
        PushGroup::All => true,
        PushGroup::Home => !e.revealed && !e.advanced,
        PushGroup::Advanced => !e.revealed && e.advanced,
        PushGroup::AdvancedAttacked => !e.revealed && e.advanced && e.ahead_attacked,
        PushGroup::AdvancedLance => !e.revealed && e.advanced && e.backed_lance,
        PushGroup::AdvancedRook => !e.revealed && e.advanced && !e.backed_lance && e.backed_rook,
        PushGroup::AdvancedUnbacked => !e.revealed && e.advanced && !e.backed_lance && !e.backed_rook,
        PushGroup::Revealed => e.revealed,
        PushGroup::RevealedAdvanced => e.revealed && e.advanced,
        PushGroup::RevealedOpen => e.revealed && e.ahead_empty,
        PushGroup::RevealedOpenAttacked => e.revealed && e.ahead_empty && e.ahead_attacked,
        PushGroup::RevealedOpenSafe => e.revealed && e.ahead_empty && !e.ahead_attacked,
        PushGroup::RevealedLance => e.revealed && e.backed_lance,
        PushGroup::RevealedRook => e.revealed && !e.backed_lance && e.backed_rook,
        PushGroup::RevealedUnbacked => e.revealed && !e.backed_lance && !e.backed_rook,
        PushGroup::RevealedZone => e.revealed && e.zone_next,
        PushGroup::RevealedHuman => e.revealed && e.human,
        PushGroup::RevealedBot => e.revealed && !e.human,
    }
}

/// What became of the pawns of a group.
#[derive(Clone, Copy, Debug, PartialEq, Eq)]
pub struct Agg {
    pub n: usize,
    /// Those pushed there and then.
    pub now: usize,
    /// Those pushed within the limit.
    pub within: usize,
    /// Those promoted by it.
    pub promoted: usize,
}

/// Counts what became of the pawns of a group.
pub fn count_group(events: &Vec<PawnEvent>, g: PushGroup) -> (res: Agg)
    ensures
        res.n == events@.filter(|e: PawnEvent| in_group(e, g)).len(),
        res.now == events@.filter(|e: PawnEvent| in_group(e, g) && e.now).len(),
        res.within == events@.filter(|e: PawnEvent| in_group(e, g) && e.within is Some).len(),
        res.promoted == events@.filter(|e: PawnEvent| in_group(e, g) && e.promoted).len(),
{
    let ghost all_p = |e: PawnEvent| in_group(e, g);
    let ghost now_p = |e: PawnEvent| in_group(e, g) && e.now;
    let ghost within_p = |e: PawnEvent| in_group(e, g) && e.within is Some;
    let ghost promoted_p = |e: PawnEvent| in_group(e, g) && e.promoted;
    let is_in = |e: &PawnEvent| -> (b: bool)
        ensures
            b == in_group(*e, g),
    { belongs(e, g) };
    let is_now = |e: &PawnEvent| -> (b: bool)
        ensures
            b == (in_group(*e, g) && e.now),
    { belongs(e, g) && e.now };
    let is_within = |e: &PawnEvent| -> (b: bool)
        ensures
            b == (in_group(*e, g) && e.within is Some),
    { belongs(e, g) && e.within.is_some() };
    let is_promoted = |e: &PawnEvent| -> (b: bool)
        ensures
            b == (in_group(*e, g) && e.promoted),
    { belongs(e, g) && e.promoted };
    Agg {
        n: count_if(events, is_in, Ghost(all_p)),
        now: count_if(events, is_now, Ghost(now_p)),
        within: count_if(events, is_within, Ghost(within_p)),
        promoted: count_if(events, is_promoted, Ghost(promoted_p)),
    }
}

/// A pawn pushed there and then is pushed within any limit, and one that promotes is pushed.
pub proof fn law_pushed_now_is_pushed(
    ds: Seq<DecisionModel>,
    moves: Seq<MoveRecord>,
    k: usize,
    bot: Option<Color>,
    i: int,
    x: (Coord, Piece),
)
    requires
        0 <= i < ds.len(),
    ensures
        event_of(ds, moves, k, bot, i, x) matches Some(e) ==> {
            &&& e.now ==> e.within == Some(0usize)
            &&& e.promoted ==> e.within is Some
        },
{
}

/// Every pawn is at home, advanced or known of, and of those that are known of each has a lance
/// behind it, a rook or neither, and belongs to the bot or not.
pub proof fn law_groups_of_pawns(e: PawnEvent)
    ensures
        in_group(e, PushGroup::Revealed) <==> !in_group(e, PushGroup::Home) && !in_group(
            e,
            PushGroup::Advanced,
        ),
        !(in_group(e, PushGroup::Home) && in_group(e, PushGroup::Advanced)),
        in_group(e, PushGroup::Revealed) <==> in_group(e, PushGroup::RevealedLance) || in_group(
            e,
            PushGroup::RevealedRook,
        ) || in_group(e, PushGroup::RevealedUnbacked),
        in_group(e, PushGroup::Revealed) <==> in_group(e, PushGroup::RevealedHuman) || in_group(
            e,
            PushGroup::RevealedBot,
        ),
        !(in_group(e, PushGroup::RevealedHuman) && in_group(e, PushGroup::RevealedBot)),
{
}

} // verus!
