//! Positions made up from what a player has observed, beside the truth: how the score is told to the
//! player, and how often what is known for certain comes out right.

use crate::board::{drop_letter_of, is_on_board, make_usi_square, on_board, square_text, Coord};
use crate::check_economy::ReplayedModel;
use crate::kifu::{after_raw_fouls, attempted, is_promoted, score_run, Kifu, Ply, RawFoul};
use crate::lists::count_if;
use crate::model::{bump, bumped};
use crate::observation::{Event, Observation, ObservationLog};
use crate::protocol::{other_color, Color, Role};
use crate::recapture::role_place;
use crate::replay::{
    add_move_obs, hand_role, lemma_legal_is_playable, move_events, raised, side_place, SideEvents,
    SideLogs,
};
use crate::scenario::{counted, Tally};
use crate::shogi::{
    after_move, king_of, piece_list, playable, taken_by, text_of_move,
    unpromote_role, writable, Piece, Position, PositionModel, ShogiMove,
};
use vstd::prelude::*;

verus! {

/// The move that a foul of a score was, whoever the piece belongs to. Nothing where there is no piece
/// to move or none that can be dropped.
pub open spec fn attempt_of(pos: PositionModel, f: RawFoul) -> Option<ShogiMove> {
    match f {
        RawFoul::Drop { role, to } => if drop_letter_of(role) is Some && is_on_board(to) {
            Some(ShogiMove::Drop { role, to })
        } else {
            None
        },
        RawFoul::Board { from, to, role } => match pos.at(from) {
            Some(p) => if is_on_board(to) {
                Some(
                    ShogiMove::Board {
                        from,
                        to,
                        promote: is_promoted(role) && !is_promoted(p.role),
                    },
                )
            } else {
                None
            },
            None => None,
        },
    }
}

fn find_attempt(pos: &Position, f: &RawFoul) -> (res: Option<ShogiMove>)
    ensures
        res == attempt_of(pos@, *f),
        res matches Some(mv) ==> writable(mv),
{
    match *f {
        RawFoul::Drop { role, to } => {
            if crate::board::drop_letter(role).is_some() && on_board(to) {
                Some(ShogiMove::Drop { role, to })
            } else {
                None
            }
        },
        RawFoul::Board { from, to, role } => match pos.piece_at(from) {
            Some(p) => {
                if on_board(to) {
                    Some(
                        ShogiMove::Board {
                            from,
                            to,
                            promote: role != unpromote_role(role) && p.role == unpromote_role(p.role),
                        },
                    )
                } else {
                    None
                }
            },
            None => None,
        },
    }
}

/// The logs after the first `n` fouls before a move. The opponent learns that there was a foul, but
/// not the count.
pub open spec fn fouls_told(
    pos: PositionModel,
    logs: SideEvents,
    fouls: Seq<RawFoul>,
    n: int,
) -> Option<
    SideEvents,
>
    decreases n,
{
    if n <= 0 {
        Some(logs)
    } else {
        match (fouls_told(pos, logs, fouls, n - 1), attempt_of(pos, fouls[n - 1])) {
            (Some(told), Some(mv)) => Some(
                told.push(
                    pos.turn,
                    Event::MyFoul { move_number: pos.move_number, usi: text_of_move(mv) },
                ).push(other_color(pos.turn), Event::OpponentFoul { count: 0 }),
            ),
            _ => None,
        }
    }
}

/// The position and what both sides have seen after the first `n` moves of a score. Whether they are
/// legal is not asked, but there must be something to move.
pub open spec fn score_told(plies: Seq<Ply>, n: int) -> Option<(PositionModel, SideEvents)>
    decreases n,
{
    if n <= 0 {
        Some((crate::shogi::initial_model(), SideEvents::empty()))
    } else {
        match score_told(plies, n - 1) {
            Some((pos, logs)) => {
                let ply = plies[n - 1];
                match fouls_told(pos, logs, ply.fouls@, ply.fouls@.len() as int) {
                    Some(told) => if playable(pos, ply.mv) && writable(ply.mv) {
                        let next = after_move(pos, ply.mv);
                        Some(
                            (
                                next,
                                move_events(told, pos.turn, ply.mv, taken_by(pos, ply.mv), next),
                            ),
                        )
                    } else {
                        None
                    },
                    None => None,
                }
            },
            None => None,
        }
    }
}

proof fn lemma_stays_untold(plies: Seq<Ply>, a: int, b: int)
    requires
        a <= b,
        score_told(plies, a) is None,
    ensures
        score_told(plies, b) is None,
    decreases b - a,
{
    if a < b {
        if b > 0 {
            lemma_stays_untold(plies, a, b - 1);
        }
    }
}

proof fn lemma_fouls_untold(
    pos: PositionModel,
    logs: SideEvents,
    fouls: Seq<RawFoul>,
    a: int,
    b: int,
)
    requires
        a <= b,
        fouls_told(pos, logs, fouls, a) is None,
    ensures
        fouls_told(pos, logs, fouls, b) is None,
    decreases b - a,
{
    if a < b {
        if b > 0 {
            lemma_fouls_untold(pos, logs, fouls, a, b - 1);
        }
    }
}

fn tell_fouls(pos: &Position, logs: &mut SideLogs, fouls: &Vec<RawFoul>) -> (res: bool)
    ensures
        res == (fouls_told(pos@, old(logs)@, fouls@, fouls@.len() as int) is Some),
        res ==> fouls_told(pos@, old(logs)@, fouls@, fouls@.len() as int) == Some(final(logs)@),
{
    let ghost first = logs@;
    let side = pos.turn();
    let mut i: usize = 0;
    while i < fouls.len()
        invariant
            i <= fouls@.len(),
            side == pos@.turn,
            first == old(logs)@,
            fouls_told(pos@, first, fouls@, i as int) == Some(logs@),
        decreases fouls@.len() - i,
    {
        let mv = match find_attempt(pos, &fouls[i]) {
            Some(mv) => mv,
            None => {
                proof {
                    assert(fouls_told(pos@, first, fouls@, i + 1) is None);
                    lemma_fouls_untold(pos@, first, fouls@, i + 1, fouls@.len() as int);
                }
                return false;
            },
        };
        logs.record(
            side,
            Observation::MyFoul { move_number: pos.move_number(), usi: mv.to_usi() },
        );
        logs.record(side.other(), Observation::OpponentFoul { count: 0 });
        i += 1;
    }
    true
}

fn is_playable(pos: &Position, mv: &ShogiMove) -> (res: bool)
    ensures
        res == (playable(pos@, *mv) && writable(*mv)),
{
    match *mv {
        ShogiMove::Board { from, to, promote: _ } => on_board(from) && on_board(to)
            && pos.piece_at(from).is_some(),
        ShogiMove::Drop { role, to } => on_board(to) && crate::board::drop_letter(role).is_some()
            && crate::protocol::hand_slot(role).is_some(),
    }
}

/// An event as it is told when fouls are not counted.
pub open spec fn uncounted(e: Event) -> Event {
    match e {
        Event::OpponentFoul { count } => Event::OpponentFoul { count: 0 },
        _ => e,
    }
}

/// What both sides have seen as it is told when fouls are not counted.
pub open spec fn all_uncounted(logs: SideEvents) -> SideEvents {
    SideEvents {
        sente: logs.sente.map_values(|e: Event| uncounted(e)),
        gote: logs.gote.map_values(|e: Event| uncounted(e)),
    }
}

proof fn lemma_told_push(logs: SideEvents, color: Color, e: Event)
    ensures
        all_uncounted(logs.push(color, e)) == all_uncounted(logs).push(color, uncounted(e)),
{
    assert(all_uncounted(logs.push(color, e)).sente =~= all_uncounted(logs).push(
        color,
        uncounted(e),
    ).sente);
    assert(all_uncounted(logs.push(color, e)).gote =~= all_uncounted(logs).push(
        color,
        uncounted(e),
    ).gote);
}

proof fn lemma_fouls_are_told(s: ReplayedModel, fouls: Seq<RawFoul>, n: int)
    requires
        0 <= n,
        after_raw_fouls(s, fouls, n) is Some,
    ensures
        after_raw_fouls(s, fouls, n)->0.pos == s.pos,
        fouls_told(s.pos, all_uncounted(s.logs), fouls, n) == Some(
            all_uncounted(after_raw_fouls(s, fouls, n)->0.logs),
        ),
    decreases n,
{
    if n > 0 {
        lemma_fouls_are_told(s, fouls, n - 1);
        let t = after_raw_fouls(s, fouls, n - 1)->0;
        let mv = attempted(t.pos, t.pos.turn, fouls[n - 1])->0;
        let count = raised(t.fouls, t.pos.turn)[side_place(t.pos.turn)];
        let own = Event::MyFoul { move_number: t.pos.move_number, usi: text_of_move(mv) };
        lemma_told_push(t.logs, t.pos.turn, own);
        lemma_told_push(
            t.logs.push(t.pos.turn, own),
            other_color(t.pos.turn),
            Event::OpponentFoul { count },
        );
    }
}

proof fn lemma_move_is_told(
    logs: SideEvents,
    side: Color,
    mv: ShogiMove,
    taken: Option<Role>,
    pos: PositionModel,
)
    ensures
        move_events(all_uncounted(logs), side, mv, taken, pos) == all_uncounted(
            move_events(logs, side, mv, taken, pos),
        ),
{
    let own = Event::MyMove {
        move_number: pos.move_number,
        usi: text_of_move(mv),
        captured: hand_role(taken),
    };
    let other = Event::OpponentMoved {
        move_number: pos.move_number,
        captured_at: match (taken, mv) {
            (Some(_), ShogiMove::Board { from, to, promote }) => Some(square_text(to)),
            _ => None,
        },
    };
    let check = Event::Check { in_check: pos.turn };
    let a = logs.push(side, own);
    let b = a.push(other_color(side), other);
    lemma_told_push(logs, side, own);
    lemma_told_push(a, other_color(side), other);
    lemma_told_push(b, Color::Sente, check);
    lemma_told_push(b.push(Color::Sente, check), Color::Gote, check);
}

/// A score that holds together is told as it was played: the position is that of the replay, and
/// both sides have seen the same but for the counts of fouls.
pub proof fn law_score_is_told_as_played(plies: Seq<Ply>, n: int)
    requires
        0 <= n <= plies.len(),
        score_run(plies, n) is Some,
    ensures
        score_told(plies, n) == Some(
            (score_run(plies, n)->0.pos, all_uncounted(score_run(plies, n)->0.logs)),
        ),
    decreases n,
{
    if n == 0 {
        let nothing = SideEvents::empty();
        assert(all_uncounted(nothing).sente =~= nothing.sente);
        assert(all_uncounted(nothing).gote =~= nothing.gote);
    } else {
        law_score_is_told_as_played(plies, n - 1);
        let s = score_run(plies, n - 1)->0;
        let ply = plies[n - 1];
        lemma_fouls_are_told(s, ply.fouls@, ply.fouls@.len() as int);
        let t = after_raw_fouls(s, ply.fouls@, ply.fouls@.len() as int)->0;
        lemma_legal_is_playable(t.pos, ply.mv);
        lemma_move_is_told(
            t.logs,
            t.pos.turn,
            ply.mv,
            taken_by(t.pos, ply.mv),
            after_move(t.pos, ply.mv),
        );
    }
}

/// What a score leads to: the true position, what the side to move has seen, and that side.
#[derive(Debug)]
pub struct Told {
    pub truth: Position,
    pub log: ObservationLog,
    pub side: Color,
}

/// Follows the first moves of a score and tells both sides of them.
pub fn replay_to(kifu: &Kifu, ply: usize) -> (res: Option<Told>)
    requires
        ply <= kifu.plies@.len(),
    ensures
        res is Some <==> score_told(kifu.plies@, ply as int) is Some,
        res matches Some(t) ==> {
            let (pos, logs) = score_told(kifu.plies@, ply as int)->0;
            &&& t.truth@ == pos
            &&& t.side == pos.turn
            &&& t.log@ == logs.of(pos.turn)
        },
{
    let mut pos = Position::initial();
    let mut logs = SideLogs::new();
    let mut i: usize = 0;
    while i < ply
        invariant
            i <= ply <= kifu.plies@.len(),
            score_told(kifu.plies@, i as int) == Some((pos@, logs@)),
        decreases ply - i,
    {
        let next = &kifu.plies[i];
        let ghost had = pos@;
        let ghost seen = logs@;
        let told = tell_fouls(&pos, &mut logs, &next.fouls);
        if !told || !is_playable(&pos, &next.mv) {
            proof {
                assert(score_told(kifu.plies@, i + 1) is None);
                lemma_stays_untold(kifu.plies@, i + 1, ply as int);
            }
            return None;
        }
        let side = pos.turn();
        let captured = pos.play_unchecked(&next.mv);
        add_move_obs(side, &next.mv, captured, &pos, &mut logs);
        i += 1;
    }
    let side = pos.turn();
    let log = logs.of(side).clone();
    Some(Told { truth: pos, log, side })
}

/// How many pieces of a side on the board have a role.
pub open spec fn role_count(m: PositionModel, color: Color, role: Role) -> nat {
    piece_list(m).filter(|x: (Coord, Piece)| x.1 == (Piece { color, role })).len()
}

/// Whether a table holds the numbers of pieces of a side by role.
pub open spec fn has_counts(counts: Seq<usize>, m: PositionModel, color: Color) -> bool {
    counts.len() == 14 && forall|role: Role|
        #[trigger] counts[role_place(role)] == role_count(m, color, role)
}

fn count_of_role(pos: &Position, color: Color, role: Role) -> (res: usize)
    ensures
        res == role_count(pos@, color, role),
{
    let pieces = pos.pieces();
    let ghost same = |x: (Coord, Piece)| x.1 == (Piece { color, role });
    let is_same = |x: &(Coord, Piece)| -> (b: bool)
        ensures
            b == (x.1 == (Piece { color, role })),
    { x.1.color == color && x.1.role == role };
    count_if(&pieces, is_same, Ghost(same))
}

/// Counts the pieces of a side on the board by their roles.
pub fn role_tally(pos: &Position, color: Color) -> (res: [usize; 14])
    ensures
        has_counts(res@, pos@, color),
{
    let res = [
        count_of_role(pos, color, Role::Pawn),
        count_of_role(pos, color, Role::Lance),
        count_of_role(pos, color, Role::Knight),
        count_of_role(pos, color, Role::Silver),
        count_of_role(pos, color, Role::Gold),
        count_of_role(pos, color, Role::Bishop),
        count_of_role(pos, color, Role::Rook),
        count_of_role(pos, color, Role::King),
        count_of_role(pos, color, Role::Tokin),
        count_of_role(pos, color, Role::Promotedlance),
        count_of_role(pos, color, Role::Promotedknight),
        count_of_role(pos, color, Role::Promotedsilver),
        count_of_role(pos, color, Role::Horse),
        count_of_role(pos, color, Role::Dragon),
    ];
    assert forall|role: Role| #[trigger] res@[role_place(role)] == role_count(pos@, color, role) by {
        match role {
            Role::Pawn => {},
            Role::Lance => {},
            Role::Knight => {},
            Role::Silver => {},
            Role::Gold => {},
            Role::Bishop => {},
            Role::Rook => {},
            Role::King => {},
            Role::Tokin => {},
            Role::Promotedlance => {},
            Role::Promotedknight => {},
            Role::Promotedsilver => {},
            Role::Horse => {},
            Role::Dragon => {},
        }
    }
    res
}

/// Whether a side has as many pieces of each role on one board as on another.
pub open spec fn same_roles(a: PositionModel, b: PositionModel, color: Color) -> bool {
    forall|role: Role| #[trigger] role_count(a, color, role) == role_count(b, color, role)
}

/// Whether a side has as many pieces of each role on one board as on another.
pub fn roles_agree(a: &Position, b: &Position, color: Color) -> (res: bool)
    ensures
        res == same_roles(a@, b@, color),
{
    let x = role_tally(a, color);
    let y = role_tally(b, color);
    let mut i: usize = 0;
    while i < 14
        invariant
            i <= 14,
            has_counts(x@, a@, color),
            has_counts(y@, b@, color),
            forall|k: int| 0 <= k < i ==> x@[k] == y@[k],
        decreases 14 - i,
    {
        if x[i] != y[i] {
            proof {
                let role = crate::check_votes::role_at(i as int);
                assert(role_place(role) == i);
                assert(x@[role_place(role)] == role_count(a@, color, role));
                assert(y@[role_place(role)] == role_count(b@, color, role));
            }
            return false;
        }
        i += 1;
    }
    proof {
        assert forall|role: Role| #[trigger]
            role_count(a@, color, role) == role_count(b@, color, role) by {
            assert(x@[role_place(role)] == role_count(a@, color, role));
            assert(y@[role_place(role)] == role_count(b@, color, role));
        }
    }
    true
}

/// Something that is known for certain of the opponent: one of some roles stands on a square.
#[derive(Debug)]
pub struct Mark {
    pub square: Coord,
    pub roles: Vec<Role>,
}

/// Whether a position bears a mark out.
pub open spec fn bears_out(m: PositionModel, opp: Color, mark: Mark) -> bool {
    m.at(mark.square) matches Some(p) && p.color == opp && mark.roles@.contains(p.role)
}

/// Whether a position bears a mark out.
pub fn shows(pos: &Position, opp: Color, mark: &Mark) -> (res: bool)
    ensures
        res == bears_out(pos@, opp, *mark),
{
    let p = match pos.piece_at(mark.square) {
        Some(p) => p,
        None => return false,
    };
    if p.color != opp {
        return false;
    }
    let mut i: usize = 0;
    while i < mark.roles.len()
        invariant
            i <= mark.roles@.len(),
            pos@.at(mark.square) == Some(p),
            p.color == opp,
            forall|k: int| 0 <= k < i ==> mark.roles@[k] != p.role,
        decreases mark.roles@.len() - i,
    {
        if mark.roles[i] == p.role {
            assert(mark.roles@[i as int] == p.role);
            return true;
        }
        i += 1;
    }
    false
}

/// How often made-up positions came out right.
#[derive(Debug)]
pub struct SynthTally {
    /// The positions that were made.
    pub made: u32,
    /// The attempts that came to nothing.
    pub failed: u32,
    /// The positions with as many pieces of each role as there really are.
    pub roles_right: u32,
    /// By mark: the positions that bear it out.
    pub marks: Vec<u32>,
    /// Where the opponent's king stood.
    pub kings: Tally,
}

/// A counter after one more case.
pub open spec fn plus_if(n: u32, b: bool) -> u32 {
    if b {
        bumped(n)
    } else {
        n
    }
}

fn raise_if(n: u32, b: bool) -> (res: u32)
    ensures
        res == plus_if(n, b),
{
    if b {
        bump(n)
    } else {
        n
    }
}

impl SynthTally {
    /// Nothing is counted yet.
    pub fn new(marks: usize) -> (res: SynthTally)
        ensures
            res.made == 0 && res.failed == 0 && res.roles_right == 0,
            res.marks@ == Seq::new(marks as nat, |i: int| 0u32),
            res.kings@ == Seq::<(Seq<char>, u32)>::empty(),
    {
        let mut zeros: Vec<u32> = Vec::new();
        let mut i: usize = 0;
        while i < marks
            invariant
                i <= marks,
                zeros@ == Seq::new(i as nat, |i: int| 0u32),
            decreases marks - i,
        {
            zeros.push(0);
            assert(zeros@ =~= Seq::new((i + 1) as nat, |i: int| 0u32));
            i += 1;
        }
        SynthTally { made: 0, failed: 0, roles_right: 0, marks: zeros, kings: Tally::new() }
    }

    /// Counts an attempt and the position that came of it.
    pub fn count(
        &mut self,
        sample: Option<&Position>,
        truth: &Position,
        opp: Color,
        marks: &Vec<Mark>,
    )
        requires
            old(self).marks@.len() == marks@.len(),
        ensures
            match sample {
                None => *final(self) == (SynthTally {
                    failed: bumped(old(self).failed),
                    ..*old(self)
                }),
                Some(pos) => {
                    &&& final(self).made == bumped(old(self).made)
                    &&& final(self).failed == old(self).failed
                    &&& final(self).roles_right == plus_if(
                        old(self).roles_right,
                        same_roles(pos@, truth@, opp),
                    )
                    &&& final(self).marks@.len() == marks@.len()
                    &&& forall|i: int|
                        0 <= i < marks@.len() ==> #[trigger] final(self).marks@[i] == plus_if(
                            old(self).marks@[i],
                            bears_out(pos@, opp, marks@[i]),
                        )
                    &&& final(self).kings@ == (match king_of(pos@, opp) {
                        Some(c) => counted(old(self).kings@, square_text(c)),
                        None => old(self).kings@,
                    })
                },
            },
    {
        let pos = match sample {
            Some(pos) => pos,
            None => {
                self.failed = bump(self.failed);
                return;
            },
        };
        self.made = bump(self.made);
        if let Some(c) = pos.king_square(opp) {
            proof {
                crate::check::lemma_king_on_board(pos@.cells, opp, 0);
            }
            self.kings.count(make_usi_square(c));
        }
        self.roles_right = raise_if(self.roles_right, roles_agree(pos, truth, opp));
        let ghost start = self.marks@;
        let mut i: usize = 0;
        while i < marks.len()
            invariant
                i <= marks@.len(),
                start == old(self).marks@,
                start.len() == marks@.len(),
                self.marks@.len() == marks@.len(),
                self.made == bumped(old(self).made),
                self.failed == old(self).failed,
                self.roles_right == plus_if(
                    old(self).roles_right,
                    same_roles(pos@, truth@, opp),
                ),
                self.kings@ == (match king_of(pos@, opp) {
                    Some(c) => counted(old(self).kings@, square_text(c)),
                    None => old(self).kings@,
                }),
                forall|k: int|
                    0 <= k < i ==> #[trigger] self.marks@[k] == plus_if(
                        start[k],
                        bears_out(pos@, opp, marks@[k]),
                    ),
                forall|k: int| i <= k < start.len() ==> #[trigger] self.marks@[k] == start[k],
            decreases marks@.len() - i,
        {
            let b = shows(pos, opp, &marks[i]);
            let n: u32 = self.marks[i];
            self.marks[i] = raise_if(n, b);
            i += 1;
        }
    }
}

} // verus!
