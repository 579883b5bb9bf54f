//! Shared definitions for studying what fouls cost while in check: the turns in check, the kinds of
//! attempts in them, and why an attempt failed.

use crate::board::{make_usi_square, parse_usi_square, square_of_text, square_text, Coord};
use crate::candidates::{all_candidates, candidate_list};
use crate::check::{solver_at, CheckSolver};
use crate::lists::lemma_filter_contains_iff;
use crate::model::{own_list, side_after, GameModel, OwnSide};
use crate::observation::{events_of, log_prefix, Event, Observation, ObservationLog};
use crate::protocol::{ClockState, Color, FoulCounts, GameStatus, PlayerView, Role, ViewModel};
use crate::replay::{side_idx, side_place, Replayed, SideEvents, SideLogs};
use crate::shogi::{
    after_move, attacks_from, checked, hand_counts, king_of, legal, move_of_text, parse_usi,
    piece_list, pseudo_legal, target_of, Piece, Position, PositionModel, ShogiMove,
};
use vstd::prelude::*;
use vstd::string::*;

verus! {

/// What a player is shown according to the own observations.
pub open spec fn model_view(
    color: Color,
    side: OwnSide,
    in_check: bool,
    move_number: u32,
) -> ViewModel {
    ViewModel {
        color,
        pieces: own_list(side.own),
        hand: hand_counts(side.own.hand(color)),
        turn: color,
        move_number,
        fouls: FoulCounts { you: side.my_fouls, opponent: side.opponent_fouls },
        you_in_check: in_check,
        opponent_in_check: false,
        status: GameStatus::Playing,
    }
}

/// Rebuilds the view of a decision from the observations that led to it. The move number is that
/// of the decision, since it decides which known enemy pieces still count.
pub fn view_from_model(model: &GameModel, in_check: bool, move_number: u32) -> (res: PlayerView)
    ensures
        res.game_id@ == "replay"@,
        res@ == model_view(model.side(), model@, in_check, move_number),
        res.clocks == (ClockState { sente_ms: 0, gote_ms: 0, running: None, server_time: 0 }),
{
    PlayerView {
        game_id: "replay".to_owned(),
        your_color: model.my_color(),
        your_pieces: model.my_pieces(),
        your_hand: model.my_hand(),
        turn: model.my_color(),
        move_number,
        clocks: ClockState { sente_ms: 0, gote_ms: 0, running: None, server_time: 0 },
        fouls: FoulCounts { you: model.my_fouls(), opponent: model.opponent_fouls() },
        you_in_check: in_check,
        opponent_in_check: false,
        status: GameStatus::Playing,
    }
}

/// What an attempt in check was meant to do, as the player saw it.
#[derive(Clone, Copy, Debug, PartialEq, Eq, Hash, Structural)]
pub enum CheckMoveKind {
    /// A move of the king.
    King,
    /// A board move of another piece onto a hypothesised checker.
    CheckerCapture,
    /// Any other board move.
    OtherBoard,
    /// A drop.
    Drop,
}

/// The coarse kinds by which turns are classed.
#[derive(Clone, Copy, Debug, PartialEq, Eq, Structural)]
pub enum CoarseKind {
    King,
    NonKingBoard,
    Drop,
}

/// The coarse kind of a kind.
pub open spec fn coarse_of(kind: CheckMoveKind) -> CoarseKind {
    match kind {
        CheckMoveKind::King => CoarseKind::King,
        CheckMoveKind::CheckerCapture | CheckMoveKind::OtherBoard => CoarseKind::NonKingBoard,
        CheckMoveKind::Drop => CoarseKind::Drop,
    }
}

impl CheckMoveKind {
    /// All kinds, in the order in which they are reported.
    pub fn all() -> (res: [CheckMoveKind; 4])
        ensures
            res@ == seq![
                CheckMoveKind::King,
                CheckMoveKind::CheckerCapture,
                CheckMoveKind::OtherBoard,
                CheckMoveKind::Drop,
            ],
    {
        let res = [
            CheckMoveKind::King,
            CheckMoveKind::CheckerCapture,
            CheckMoveKind::OtherBoard,
            CheckMoveKind::Drop,
        ];
        assert(res@ =~= seq![
            CheckMoveKind::King,
            CheckMoveKind::CheckerCapture,
            CheckMoveKind::OtherBoard,
            CheckMoveKind::Drop,
        ]);
        res
    }

    /// The name shown in reports.
    pub fn label(self) -> (res: &'static str)
        ensures
            res@ == (match self {
                CheckMoveKind::King => "玉の手"@,
                CheckMoveKind::CheckerCapture => "捕獲試み"@,
                CheckMoveKind::OtherBoard => "移動合駒/その他"@,
                CheckMoveKind::Drop => "打ち"@,
            }),
    {
        match self {
            CheckMoveKind::King => "玉の手",
            CheckMoveKind::CheckerCapture => "捕獲試み",
            CheckMoveKind::OtherBoard => "移動合駒/その他",
            CheckMoveKind::Drop => "打ち",
        }
    }

    /// The name used in data files.
    pub fn tag(self) -> (res: &'static str)
        ensures
            res@ == (match self {
                CheckMoveKind::King => "king"@,
                CheckMoveKind::CheckerCapture => "checker_capture"@,
                CheckMoveKind::OtherBoard => "other_board"@,
                CheckMoveKind::Drop => "drop"@,
            }),
    {
        match self {
            CheckMoveKind::King => "king",
            CheckMoveKind::CheckerCapture => "checker_capture",
            CheckMoveKind::OtherBoard => "other_board",
            CheckMoveKind::Drop => "drop",
        }
    }

    /// The coarse kind.
    pub fn coarse(self) -> (res: CoarseKind)
        ensures
            res == coarse_of(self),
    {
        match self {
            CheckMoveKind::King => CoarseKind::King,
            CheckMoveKind::CheckerCapture | CheckMoveKind::OtherBoard => CoarseKind::NonKingBoard,
            CheckMoveKind::Drop => CoarseKind::Drop,
        }
    }
}

/// Whether a square holds an enemy piece that attacks the side's king.
pub open spec fn is_true_checker(truth: PositionModel, bot: Color, c: Coord) -> bool {
    king_of(truth, bot) matches Some(king) && truth.at(c) matches Some(p) && p.color != bot
        && attacks_from(truth, c, king)
}

/// The enemy pieces that attack the side's king; in a double check both.
pub open spec fn checker_list(truth: PositionModel, bot: Color) -> Seq<(Coord, Role)> {
    piece_list(truth).filter(|x: (Coord, Piece)| is_true_checker(truth, bot, x.0)).map_values(
        |x: (Coord, Piece)| (x.0, x.1.role),
    )
}

/// The pieces that are really giving check.
pub fn true_checkers(truth: &Position, bot: Color) -> (res: Vec<(Coord, Role)>)
    ensures
        res@ == checker_list(truth@, bot),
{
    let pieces = truth.pieces();
    let ghost all = piece_list(truth@);
    let ghost hit = |x: (Coord, Piece)| is_true_checker(truth@, bot, x.0);
    let ghost pick = |x: (Coord, Piece)| (x.0, x.1.role);
    let mut out: Vec<(Coord, Role)> = Vec::new();
    let king = truth.king_square(bot);
    let mut n: usize = 0;
    assert(all.take(0).filter(hit) =~= Seq::<(Coord, Piece)>::empty()) by {
        reveal(Seq::filter);
    }
    assert(out@ =~= all.take(0).filter(hit).map_values(pick));
    while n < pieces.len()
        invariant
            pieces@ == all,
            all == piece_list(truth@),
            king == king_of(truth@, bot),
            n <= all.len(),
            hit == (|x: (Coord, Piece)| is_true_checker(truth@, bot, x.0)),
            pick == (|x: (Coord, Piece)| (x.0, x.1.role)),
            out@ == all.take(n as int).filter(hit).map_values(pick),
        decreases all.len() - n,
    {
        let (c, p) = pieces[n];
        proof {
            lemma_piece_list(truth@, n as int);
            assert(all.take(n + 1) =~= all.take(n as int).push((c, p)));
            all.take(n as int).lemma_filter_push((c, p), hit);
        }
        if let Some(k) = king {
            if p.color != bot && truth.attacks(c, k) {
                out.push((c, p.role));
                assert(out@ =~= all.take(n + 1).filter(hit).map_values(pick));
            }
        }
        n += 1;
    }
    assert(all.take(n as int) =~= all);
    out
}

/// A listed piece stands on its square.
pub proof fn lemma_piece_list(m: PositionModel, n: int)
    requires
        0 <= n < piece_list(m).len(),
    ensures
        m.at(piece_list(m)[n].0) == Some(piece_list(m)[n].1),
{
    let held = |c: Coord| m.at(c) is Some;
    crate::board::all_squares().lemma_filter_pred(held, n);
}

/// Every occupied square is listed.
pub proof fn lemma_piece_listed(m: PositionModel, c: Coord) -> (n: int)
    requires
        m.at(c) is Some,
    ensures
        0 <= n < piece_list(m).len(),
        piece_list(m)[n] == (c, m.at(c)->0),
{
    let held = |x: Coord| m.at(x) is Some;
    let all = crate::board::all_squares();
    crate::board::lemma_square_index(c, 0);
    assert(all[crate::board::square_index(c)] == c);
    lemma_filter_contains_iff(all, held, c);
    let kept = all.filter(held);
    let k = choose|k: int| 0 <= k < kept.len() && kept[k] == c;
    assert(piece_list(m)[k] == (c, m.at(c)->0));
    k
}

/// A checker is in the list if and only if it is one.
pub proof fn lemma_checker_list(truth: PositionModel, bot: Color, c: Coord)
    ensures
        (exists|i: int|
            0 <= i < checker_list(truth, bot).len() && (#[trigger] checker_list(truth, bot)[i]).0
                == c) <==> is_true_checker(truth, bot, c),
{
    let all = piece_list(truth);
    let hit = |x: (Coord, Piece)| is_true_checker(truth, bot, x.0);
    let pick = |x: (Coord, Piece)| (x.0, x.1.role);
    let kept = all.filter(hit);
    let list = checker_list(truth, bot);
    if exists|i: int| 0 <= i < list.len() && (#[trigger] list[i]).0 == c {
        let i = choose|i: int| 0 <= i < list.len() && (#[trigger] list[i]).0 == c;
        all.lemma_filter_pred(hit, i);
    }
    if is_true_checker(truth, bot, c) {
        let n = lemma_piece_listed(truth, c);
        lemma_filter_contains_iff(all, hit, all[n]);
        assert(all.contains(all[n]));
        let i = choose|i: int| 0 <= i < kept.len() && kept[i] == all[n];
        assert(list[i].0 == c);
    }
}

/// The square of the first king that a player is shown.
pub open spec fn shown_king(pieces: Seq<(Seq<char>, Role)>) -> Option<Coord>
    decreases pieces.len(),
{
    if pieces.len() == 0 {
        None
    } else if pieces[0].1 == Role::King {
        square_of_text(pieces[0].0)
    } else {
        shown_king(pieces.drop_first())
    }
}

/// The square of the own king as the view shows it.
pub fn king_in_view(view: &PlayerView) -> (res: Option<Coord>)
    ensures
        res == shown_king(view@.pieces),
{
    let mut i: usize = 0;
    assert(view@.pieces.skip(0) =~= view@.pieces);
    while i < view.your_pieces.len()
        invariant
            i <= view.your_pieces@.len(),
            shown_king(view@.pieces) == shown_king(view@.pieces.skip(i as int)),
        decreases view.your_pieces@.len() - i,
    {
        proof {
            let rest = view@.pieces.skip(i as int);
            assert(rest[0] == view.your_pieces@[i as int]@);
            assert(rest.drop_first() =~= view@.pieces.skip(i + 1));
        }
        if view.your_pieces[i].role == Role::King {
            return parse_usi_square(view.your_pieces[i].square.as_str());
        }
        i += 1;
    }
    None
}

/// The kind of an attempt, given the own king and whether it goes for a hypothesised checker.
pub open spec fn kind_of(mv: ShogiMove, king: Option<Coord>, takes_checker: bool) -> CheckMoveKind {
    match mv {
        ShogiMove::Drop { role, to } => CheckMoveKind::Drop,
        ShogiMove::Board { from, to, promote } => if king == Some(from) {
            CheckMoveKind::King
        } else if takes_checker {
            CheckMoveKind::CheckerCapture
        } else {
            CheckMoveKind::OtherBoard
        },
    }
}

/// The kind of an attempt in check. Whether it goes for the checker is decided by the hypotheses
/// that the player had, not by what was really there.
pub fn classify_move_kind(mv: &ShogiMove, view: &PlayerView, solver: Option<&CheckSolver>) -> (res:
    CheckMoveKind)
    requires
        solver matches Some(s) ==> s.inv(),
    ensures
        res == kind_of(
            *mv,
            shown_king(view@.pieces),
            solver matches Some(s) && s@.takes_checker(*mv),
        ),
{
    let king = king_in_view(view);
    match *mv {
        ShogiMove::Drop { role: _, to: _ } => CheckMoveKind::Drop,
        ShogiMove::Board { from, to: _, promote: _ } => {
            if let Some(k) = king {
                if k == from {
                    return CheckMoveKind::King;
                }
            }
            let takes = match solver {
                Some(s) => s.captures_checker(mv),
                None => false,
            };
            if takes {
                CheckMoveKind::CheckerCapture
            } else {
                CheckMoveKind::OtherBoard
            }
        },
    }
}

/// Why an attempt in check was a foul, with the truth known.
#[derive(Clone, Copy, Debug, PartialEq, Eq, Hash, Structural)]
pub enum CheckFoulReason {
    /// The checker still attacks the king.
    CheckerRemains,
    /// The checker was taken, but another piece guarded its square.
    DefendedCapture,
    /// The king went, or was left, under another enemy piece.
    HiddenAttack,
    /// The move was not even possible.
    Blocked,
    /// The drop was not possible there.
    DropOccupied,
    Other,
}

impl CheckFoulReason {
    /// The name shown in reports.
    pub fn label(self) -> (res: &'static str)
        ensures
            res@ == (match self {
                CheckFoulReason::CheckerRemains => "王手駒が残る（仮説違い）"@,
                CheckFoulReason::DefendedCapture => "捕獲先が支えられていた"@,
                CheckFoulReason::HiddenAttack => "別の敵駒の利き（見えない利き/ピン）"@,
                CheckFoulReason::Blocked => "経路が塞がれていた"@,
                CheckFoulReason::DropOccupied => "打ちマスに駒"@,
                CheckFoulReason::Other => "その他"@,
            }),
    {
        match self {
            CheckFoulReason::CheckerRemains => "王手駒が残る（仮説違い）",
            CheckFoulReason::DefendedCapture => "捕獲先が支えられていた",
            CheckFoulReason::HiddenAttack => "別の敵駒の利き（見えない利き/ピン）",
            CheckFoulReason::Blocked => "経路が塞がれていた",
            CheckFoulReason::DropOccupied => "打ちマスに駒",
            CheckFoulReason::Other => "その他",
        }
    }
}

/// Whether a piece that gave check before still does, on the same square.
pub open spec fn checker_stays(before: PositionModel, after: PositionModel, bot: Color) -> bool {
    exists|c: Coord| #[trigger] is_true_checker(after, bot, c) && is_true_checker(before, bot, c)
}

/// Whether a piece that gives check also guards a square.
pub open spec fn checker_guards(after: PositionModel, bot: Color, to: Coord) -> bool {
    exists|c: Coord| #[trigger] is_true_checker(after, bot, c) && attacks_from(after, c, to)
}

/// Why an attempt in check fails.
pub open spec fn foul_reason(truth: PositionModel, bot: Color, mv: ShogiMove) -> CheckFoulReason {
    let after = after_move(truth, mv);
    if !pseudo_legal(truth, mv) {
        if mv is Board {
            CheckFoulReason::Blocked
        } else {
            CheckFoulReason::DropOccupied
        }
    } else if !checked(after, bot) {
        CheckFoulReason::Other
    } else if checker_stays(truth, after, bot) {
        CheckFoulReason::CheckerRemains
    } else if is_true_checker(truth, bot, target_of(mv)) && checker_guards(
        after,
        bot,
        target_of(mv),
    ) {
        CheckFoulReason::DefendedCapture
    } else {
        CheckFoulReason::HiddenAttack
    }
}

/// Whether a square is among the checkers.
fn holds_checker(list: &Vec<(Coord, Role)>, c: Coord) -> (res: bool)
    ensures
        res == exists|i: int| 0 <= i < list@.len() && (#[trigger] list@[i]).0 == c,
{
    let mut i: usize = 0;
    while i < list.len()
        invariant
            i <= list@.len(),
            forall|k: int| 0 <= k < i ==> (#[trigger] list@[k]).0 != c,
        decreases list@.len() - i,
    {
        if list[i].0 == c {
            assert(list@[i as int].0 == c);
            return true;
        }
        i += 1;
    }
    false
}

/// Works out from the truth why an attempt in check was a foul.
pub fn classify_check_foul(truth: &Position, bot: Color, mv: &ShogiMove) -> (res: CheckFoulReason)
    ensures
        res == foul_reason(truth@, bot, *mv),
{
    if !truth.is_pseudo_legal(mv) {
        return match *mv {
            ShogiMove::Board { from: _, to: _, promote: _ } => CheckFoulReason::Blocked,
            ShogiMove::Drop { role: _, to: _ } => CheckFoulReason::DropOccupied,
        };
    }
    let before = true_checkers(truth, bot);
    let mut probe = *truth;
    probe.play_unchecked(mv);
    if !probe.in_check(bot) {
        return CheckFoulReason::Other;
    }
    let after = true_checkers(&probe, bot);
    let to = mv.target();
    let mut i: usize = 0;
    let mut guarded = false;
    while i < after.len()
        invariant
            i <= after@.len(),
            after@ == checker_list(probe@, bot),
            before@ == checker_list(truth@, bot),
            forall|k: int|
                0 <= k < i ==> !is_true_checker(truth@, bot, (#[trigger] after@[k]).0),
            guarded == exists|k: int|
                0 <= k < i && attacks_from(probe@, (#[trigger] after@[k]).0, to),
            probe@ == after_move(truth@, *mv),
            pseudo_legal(truth@, *mv),
            checked(probe@, bot),
        decreases after@.len() - i,
    {
        let c = after[i].0;
        proof {
            lemma_checker_list(truth@, bot, c);
            lemma_checker_list(probe@, bot, c);
            assert(checker_list(probe@, bot)[i as int].0 == c);
        }
        if holds_checker(&before, c) {
            assert(is_true_checker(probe@, bot, c) && is_true_checker(truth@, bot, c));
            return CheckFoulReason::CheckerRemains;
        }
        let bears = probe.attacks(c, to);
        proof {
            if bears {
                assert(attacks_from(probe@, after@[i as int].0, to));
            }
        }
        guarded = guarded || bears;
        i += 1;
    }
    proof {
        assert(!checker_stays(truth@, probe@, bot)) by {
            if checker_stays(truth@, probe@, bot) {
                let c = choose|c: Coord|
                    #[trigger] is_true_checker(probe@, bot, c) && is_true_checker(truth@, bot, c);
                lemma_checker_list(probe@, bot, c);
                let k = choose|k: int|
                    0 <= k < checker_list(probe@, bot).len() && (
                    #[trigger] checker_list(probe@, bot)[k]).0 == c;
                assert(!is_true_checker(truth@, bot, after@[k].0));
            }
        }
        assert(guarded == checker_guards(probe@, bot, to)) by {
            if guarded {
                let k = choose|k: int|
                    0 <= k < i && attacks_from(probe@, (#[trigger] after@[k]).0, to);
                lemma_checker_list(probe@, bot, after@[k].0);
                assert(checker_list(probe@, bot)[k].0 == after@[k].0);
                assert(is_true_checker(probe@, bot, after@[k].0));
            }
            if checker_guards(probe@, bot, to) {
                let c = choose|c: Coord|
                    #[trigger] is_true_checker(probe@, bot, c) && attacks_from(probe@, c, to);
                lemma_checker_list(probe@, bot, c);
                let k = choose|k: int|
                    0 <= k < checker_list(probe@, bot).len() && (
                    #[trigger] checker_list(probe@, bot)[k]).0 == c;
                assert(attacks_from(probe@, after@[k].0, to));
            }
        }
        lemma_checker_list(truth@, bot, to);
    }
    if holds_checker(&before, to) && guarded {
        CheckFoulReason::DefendedCapture
    } else {
        CheckFoulReason::HiddenAttack
    }
}

/// Whether a text is a move of the king that stands on `king`.
pub fn is_king_move(usi: &str, king: Option<Coord>) -> (res: bool)
    ensures
        res == (move_of_text(usi@) matches Some(ShogiMove::Board { from, to, promote }) && king
            == Some(from)),
{
    match parse_usi(usi) {
        Some(ShogiMove::Board { from, to: _, promote: _ }) => match king {
            Some(k) => k == from,
            None => false,
        },
        _ => false,
    }
}

/// The text of a square.
pub fn sq(c: Coord) -> (res: String)
    requires
        1 <= c.rank <= 9,
    ensures
        res@ == square_text(c),
{
    make_usi_square(c)
}

/// One attempt of a decision: the number of the move it was for, its place among the observations,
/// its text and whether it was accepted.
pub struct GroupItem {
    pub number: u32,
    pub index: int,
    pub usi: Seq<char>,
    pub accepted: bool,
}

/// The content of one attempt.
pub open spec fn item_of(t: (u32, usize, String, bool)) -> GroupItem {
    GroupItem { number: t.0, index: t.1 as int, usi: t.2@, accepted: t.3 }
}

/// The content of a list of attempts.
pub open spec fn items_of(g: Seq<(u32, usize, String, bool)>) -> Seq<GroupItem> {
    g.map_values(|t: (u32, usize, String, bool)| item_of(t))
}

/// The content of the groups.
pub open spec fn group_items(groups: Seq<Vec<(u32, usize, String, bool)>>) -> Seq<Seq<GroupItem>> {
    groups.map_values(|g: Vec<(u32, usize, String, bool)>| items_of(g@))
}

/// The attempts among the events. A foul carries the number of its decision; an accepted move
/// carries the number after it, so one is taken off.
pub open spec fn attempts_in(events: Seq<Event>) -> Seq<GroupItem>
    decreases events.len(),
{
    if events.len() == 0 {
        Seq::empty()
    } else {
        let rest = attempts_in(events.drop_last());
        let index = events.len() - 1;
        match events.last() {
            Event::MyFoul { move_number, usi } => rest.push(
                GroupItem { number: move_number, index, usi, accepted: false },
            ),
            Event::MyMove { move_number, usi, captured } => rest.push(
                GroupItem {
                    number: if move_number == 0 {
                        0
                    } else {
                        (move_number - 1) as u32
                    },
                    index,
                    usi,
                    accepted: true,
                },
            ),
            _ => rest,
        }
    }
}

/// Whether an attempt belongs to the decision of the last group: the same number, and the group is
/// not closed by an accepted move.
pub open spec fn joins(groups: Seq<Seq<GroupItem>>, x: GroupItem) -> bool {
    groups.len() > 0 && groups.last()[0].number == x.number && !groups.last().last().accepted
}

/// The attempts grouped by decision.
pub open spec fn grouped(items: Seq<GroupItem>) -> Seq<Seq<GroupItem>>
    decreases items.len(),
{
    if items.len() == 0 {
        Seq::empty()
    } else {
        let g = grouped(items.drop_last());
        let x = items.last();
        if joins(g, x) {
            g.drop_last().push(g.last().push(x))
        } else {
            g.push(seq![x])
        }
    }
}

/// No group is empty.
proof fn lemma_groups_not_empty(items: Seq<GroupItem>)
    ensures
        forall|i: int| 0 <= i < grouped(items).len() ==> (#[trigger] grouped(items)[i]).len() > 0,
    decreases items.len(),
{
    if items.len() > 0 {
        let g = grouped(items.drop_last());
        let all = grouped(items);
        lemma_groups_not_empty(items.drop_last());
        assert forall|i: int| 0 <= i < all.len() implies (#[trigger] all[i]).len() > 0 by {
            if i < g.len() {
                assert(g[i].len() > 0);
            }
        }
    }
}

/// Groups the own attempts into decisions: the fouls of a turn and the move that was accepted.
pub fn decision_groups(observations: &[Observation]) -> (res: Vec<Vec<(u32, usize, String, bool)>>)
    ensures
        group_items(res@) == grouped(attempts_in(events_of(observations@))),
{
    let mut out: Vec<Vec<(u32, usize, String, bool)>> = Vec::new();
    let ghost events = events_of(observations@);
    let mut i: usize = 0;
    assert(group_items(out@) =~= grouped(attempts_in(events.take(0))));
    while i < observations.len()
        invariant
            i <= observations@.len(),
            events == events_of(observations@),
            group_items(out@) == grouped(attempts_in(events.take(i as int))),
        decreases observations@.len() - i,
    {
        let ghost t = events.take(i + 1);
        proof {
            assert(t.drop_last() =~= events.take(i as int));
            assert(t.last() == observations@[i as int]@);
        }
        let item: Option<(u32, usize, String, bool)> = match &observations[i] {
            Observation::MyFoul { move_number, usi } => Some((*move_number, i, usi.clone(), false)),
            Observation::MyMove { move_number, usi, captured: _ } => Some(
                (
                    if *move_number == 0 {
                        0
                    } else {
                        *move_number - 1
                    },
                    i,
                    usi.clone(),
                    true,
                ),
            ),
            _ => None,
        };
        if let Some(x) = item {
            let ghost before = out@;
            let ghost model = group_items(before);
            proof {
                lemma_groups_not_empty(attempts_in(events.take(i as int)));
                let all = attempts_in(t);
                assert(all.last() == item_of(x));
                assert(all.drop_last() =~= attempts_in(events.take(i as int)));
            }
            let n: usize = out.len();
            let mut same = false;
            if n > 0 {
                proof {
                    assert(model[n - 1] == items_of(before[n - 1]@));
                    assert(model[n - 1].len() > 0);
                }
                let m: usize = out[n - 1].len();
                same = out[n - 1][0].0 == x.0 && !out[n - 1][m - 1].3;
            }
            assert(same == joins(model, item_of(x)));
            if same {
                let popped = out.pop();
                if let Some(mut g) = popped {
                    let ghost old_g = g@;
                    g.push(x);
                    assert(items_of(g@) =~= items_of(old_g).push(item_of(x)));
                    out.push(g);
                }
                assert(group_items(out@) =~= model.drop_last().push(model.last().push(item_of(x))));
            } else {
                let mut g: Vec<(u32, usize, String, bool)> = Vec::new();
                g.push(x);
                assert(items_of(g@) =~= seq![item_of(x)]);
                out.push(g);
                assert(group_items(out@) =~= model.push(seq![item_of(x)]));
            }
        }
        i += 1;
    }
    assert(events.take(i as int) =~= events);
    out
}

/// Grouping loses and reorders nothing: the groups one after the other are the attempts. Within a
/// group all attempts are for one move and only the last can be accepted.
pub proof fn law_groups_partition(items: Seq<GroupItem>)
    ensures
        grouped(items).flatten() == items,
        forall|i: int|
            0 <= i < grouped(items).len() ==> group_is_one_decision(#[trigger] grouped(items)[i]),
    decreases items.len(),
{
    if items.len() == 0 {
        assert(grouped(items).flatten() =~= items);
    } else {
        let front = items.drop_last();
        let g = grouped(front);
        let x = items.last();
        law_groups_partition(front);
        lemma_groups_not_empty(front);
        assert(items =~= front.push(x));
        if joins(g, x) {
            let head = g.drop_last();
            assert(g =~= head.push(g.last()));
            head.lemma_flatten_push(g.last());
            head.lemma_flatten_push(g.last().push(x));
            assert(head.flatten() + g.last().push(x) =~= (head.flatten() + g.last()).push(x));
            assert(group_is_one_decision(g[g.len() - 1]));
        } else {
            g.lemma_flatten_push(seq![x]);
            assert(g.flatten() + seq![x] =~= g.flatten().push(x));
        }
    }
}

/// Whether the attempts are for one move and only the last can be accepted.
pub open spec fn group_is_one_decision(g: Seq<GroupItem>) -> bool {
    &&& g.len() > 0
    &&& forall|k: int| 0 <= k < g.len() ==> (#[trigger] g[k]).number == g[0].number
    &&& forall|k: int| 0 <= k < g.len() - 1 ==> !(#[trigger] g[k]).accepted
}

/// One attempt of a turn in check.
#[derive(Debug)]
pub struct CheckAttempt {
    pub usi: String,
    pub mv: ShogiMove,
    pub kind: CheckMoveKind,
    /// The place within the turn, from zero.
    pub order: usize,
    pub was_legal: bool,
    /// Whether an enemy piece really stood on the target, and whether it was a checker.
    pub truth_enemy_at_to: bool,
    pub truth_checker_at_to: bool,
}

/// The content of an attempt.
pub struct AttemptModel {
    pub usi: Seq<char>,
    pub mv: ShogiMove,
    pub kind: CheckMoveKind,
    pub order: int,
    pub was_legal: bool,
    pub truth_enemy_at_to: bool,
    pub truth_checker_at_to: bool,
}

impl View for CheckAttempt {
    type V = AttemptModel;

    open spec fn view(&self) -> AttemptModel {
        AttemptModel {
            usi: self.usi@,
            mv: self.mv,
            kind: self.kind,
            order: self.order as int,
            was_legal: self.was_legal,
            truth_enemy_at_to: self.truth_enemy_at_to,
            truth_checker_at_to: self.truth_checker_at_to,
        }
    }
}

/// A turn in check, from its first attempt to the accepted move.
#[derive(Debug)]
pub struct CheckTurn {
    pub move_number: u32,
    /// The place of the true position of the decision.
    pub position_index: usize,
    /// The fouls that the player had spent when the turn began.
    pub fouls_before: u32,
    pub attempts: Vec<CheckAttempt>,
    /// The accepted attempt; none if the game ended in the turn.
    pub accepted: Option<usize>,
    /// Whether the accepted move was legal when the turn began. Fouls do not change the position,
    /// so this fails only for a record that does not fit its positions.
    pub accepted_legal_at_entry: Option<bool>,
    /// How many candidates were really legal when the turn began.
    pub legal_candidates_at_entry: usize,
    /// The rank of the best really legal candidate, once the candidates have been ranked.
    pub best_legal_rank_at_entry: Option<usize>,
    /// Whether there were hypotheses about the check when the turn began.
    pub solver_at_entry: bool,
    /// The rank of the accepted move, once the candidates have been ranked.
    pub accepted_rank_at_entry: Option<usize>,
    pub candidates_at_entry: usize,
    pub hypotheses_at_entry: usize,
}

/// The content of a turn in check, its ranks left aside.
pub struct TurnModel {
    pub move_number: u32,
    pub position_index: int,
    pub fouls_before: u32,
    pub attempts: Seq<AttemptModel>,
    pub accepted: Option<int>,
    pub accepted_legal_at_entry: Option<bool>,
    pub legal_candidates_at_entry: nat,
    pub solver_at_entry: bool,
    pub candidates_at_entry: nat,
    pub hypotheses_at_entry: nat,
}

/// The contents of a list of attempts.
pub open spec fn attempt_list(attempts: Seq<CheckAttempt>) -> Seq<AttemptModel> {
    attempts.map_values(|a: CheckAttempt| a@)
}

impl View for CheckTurn {
    type V = TurnModel;

    open spec fn view(&self) -> TurnModel {
        TurnModel {
            move_number: self.move_number,
            position_index: self.position_index as int,
            fouls_before: self.fouls_before,
            attempts: attempt_list(self.attempts@),
            accepted: match self.accepted {
                Some(i) => Some(i as int),
                None => None,
            },
            accepted_legal_at_entry: self.accepted_legal_at_entry,
            legal_candidates_at_entry: self.legal_candidates_at_entry as nat,
            solver_at_entry: self.solver_at_entry,
            candidates_at_entry: self.candidates_at_entry as nat,
            hypotheses_at_entry: self.hypotheses_at_entry as nat,
        }
    }
}

/// The classes of turns in check: the coarse kind of the first foul, then that of the accepted
/// move.
#[derive(Clone, Copy, Debug, PartialEq, Eq, Hash, Structural)]
pub enum TurnType {
    /// Accepted without a foul.
    NoFoul,
    /// No move was accepted: the game ended in the turn.
    Unfinished,
    NonKingThenKing,
    NonKingThenNonKing,
    KingThenKing,
    KingThenNonKing,
    /// The first foul was a drop.
    DropOrOther,
}

impl TurnType {
    /// All classes, in the order in which they are reported.
    pub fn all() -> (res: [TurnType; 7])
        ensures
            res@ == seq![
                TurnType::NonKingThenKing,
                TurnType::NonKingThenNonKing,
                TurnType::KingThenKing,
                TurnType::KingThenNonKing,
                TurnType::DropOrOther,
                TurnType::Unfinished,
                TurnType::NoFoul,
            ],
    {
        let res = [
            TurnType::NonKingThenKing,
            TurnType::NonKingThenNonKing,
            TurnType::KingThenKing,
            TurnType::KingThenNonKing,
            TurnType::DropOrOther,
            TurnType::Unfinished,
            TurnType::NoFoul,
        ];
        assert(res@ =~= seq![
            TurnType::NonKingThenKing,
            TurnType::NonKingThenNonKing,
            TurnType::KingThenKing,
            TurnType::KingThenNonKing,
            TurnType::DropOrOther,
            TurnType::Unfinished,
            TurnType::NoFoul,
        ]);
        res
    }

    /// The name shown in reports.
    pub fn label(self) -> (res: &'static str)
        ensures
            res@ == (match self {
                TurnType::NoFoul => "反則0で受理"@,
                TurnType::Unfinished => "受理手なし（その手番で終局）"@,
                TurnType::NonKingThenKing => "玉以外の盤上手で反則 → 玉の手で受理"@,
                TurnType::NonKingThenNonKing => "玉以外の盤上手で反則 → 玉以外で受理"@,
                TurnType::KingThenKing => "玉の手で反則 → 玉の手で受理"@,
                TurnType::KingThenNonKing => "玉の手で反則 → 玉以外で受理"@,
                TurnType::DropOrOther => "打ちで反則"@,
            }),
    {
        match self {
            TurnType::NoFoul => "反則0で受理",
            TurnType::Unfinished => "受理手なし（その手番で終局）",
            TurnType::NonKingThenKing => "玉以外の盤上手で反則 → 玉の手で受理",
            TurnType::NonKingThenNonKing => "玉以外の盤上手で反則 → 玉以外で受理",
            TurnType::KingThenKing => "玉の手で反則 → 玉の手で受理",
            TurnType::KingThenNonKing => "玉の手で反則 → 玉以外で受理",
            TurnType::DropOrOther => "打ちで反則",
        }
    }
}

/// The place of the first foul.
pub open spec fn first_foul_place(attempts: Seq<AttemptModel>, from: int) -> Option<int>
    decreases attempts.len() - from,
{
    if from < 0 || from >= attempts.len() {
        None
    } else if !attempts[from].was_legal {
        Some(from)
    } else {
        first_foul_place(attempts, from + 1)
    }
}

/// The class of a turn.
pub open spec fn type_of_turn(turn: TurnModel) -> TurnType {
    match first_foul_place(turn.attempts, 0) {
        None => TurnType::NoFoul,
        Some(first) => match turn.accepted {
            Some(acc) if 0 <= acc < turn.attempts.len() => match (
                coarse_of(turn.attempts[first].kind),
                coarse_of(turn.attempts[acc].kind),
            ) {
                (CoarseKind::Drop, _) => TurnType::DropOrOther,
                (CoarseKind::NonKingBoard, CoarseKind::King) => TurnType::NonKingThenKing,
                (CoarseKind::NonKingBoard, _) => TurnType::NonKingThenNonKing,
                (CoarseKind::King, CoarseKind::King) => TurnType::KingThenKing,
                (CoarseKind::King, _) => TurnType::KingThenNonKing,
            },
            _ => TurnType::Unfinished,
        },
    }
}

/// The mark of a kind in the summary of a turn.
pub open spec fn kind_mark(kind: CheckMoveKind) -> Seq<char> {
    match kind {
        CheckMoveKind::King => "[玉]"@,
        CheckMoveKind::CheckerCapture => "[捕]"@,
        CheckMoveKind::OtherBoard => "[移]"@,
        CheckMoveKind::Drop => "[打]"@,
    }
}

/// The summary of one attempt: its text, its kind and whether it was accepted.
pub open spec fn attempt_mark(a: AttemptModel) -> Seq<char> {
    a.usi + kind_mark(a.kind) + (if a.was_legal {
        "○"@
    } else {
        "×"@
    })
}

/// The summary of the attempts, one after the other.
pub open spec fn attempts_text(attempts: Seq<AttemptModel>) -> Seq<char>
    decreases attempts.len(),
{
    if attempts.len() == 0 {
        Seq::empty()
    } else if attempts.len() == 1 {
        attempt_mark(attempts[0])
    } else {
        attempts_text(attempts.drop_last()) + " "@ + attempt_mark(attempts.last())
    }
}

impl CheckTurn {
    /// How many attempts were fouls.
    pub fn fouls(&self) -> (res: usize)
        ensures
            res == self@.attempts.filter(|a: AttemptModel| !a.was_legal).len(),
    {
        let ghost all = self@.attempts;
        let ghost foul = |a: AttemptModel| !a.was_legal;
        let mut n: usize = 0;
        let mut i: usize = 0;
        assert(all.take(0).filter(foul) =~= Seq::<AttemptModel>::empty()) by {
            reveal(Seq::filter);
        }
        while i < self.attempts.len()
            invariant
                i <= self.attempts@.len(),
                all == attempt_list(self.attempts@),
                foul == (|a: AttemptModel| !a.was_legal),
                n == all.take(i as int).filter(foul).len(),
                n <= i,
            decreases self.attempts@.len() - i,
        {
            proof {
                assert(all.take(i + 1) =~= all.take(i as int).push(all[i as int]));
                all.take(i as int).lemma_filter_push(all[i as int], foul);
            }
            if !self.attempts[i].was_legal {
                n += 1;
            }
            i += 1;
        }
        assert(all.take(i as int) =~= all);
        n
    }

    /// The first foul of the turn.
    pub fn first_foul(&self) -> (res: Option<&CheckAttempt>)
        ensures
            res is Some <==> first_foul_place(self@.attempts, 0) is Some,
            res matches Some(a) ==> a@ == self@.attempts[first_foul_place(self@.attempts, 0)->0],
    {
        let mut i: usize = 0;
        while i < self.attempts.len()
            invariant
                i <= self.attempts@.len(),
                first_foul_place(self@.attempts, 0) == first_foul_place(self@.attempts, i as int),
            decreases self.attempts@.len() - i,
        {
            assert(self@.attempts[i as int] == self.attempts@[i as int]@);
            if !self.attempts[i].was_legal {
                return Some(&self.attempts[i]);
            }
            i += 1;
        }
        None
    }

    /// The attempt that was accepted.
    pub fn accepted_attempt(&self) -> (res: Option<&CheckAttempt>)
        ensures
            res is Some <==> (self.accepted matches Some(i) && i < self.attempts@.len()),
            res matches Some(a) ==> a@ == self@.attempts[self.accepted->0 as int],
    {
        match self.accepted {
            Some(i) => if i < self.attempts.len() {
                Some(&self.attempts[i])
            } else {
                None
            },
            None => None,
        }
    }

    /// The attempts of the turn in one line.
    pub fn sequence(&self) -> (res: String)
        ensures
            res@ == attempts_text(self@.attempts),
    {
        let ghost all = self@.attempts;
        let mut out = String::new();
        let mut i: usize = 0;
        assert(out@ =~= attempts_text(all.take(0)));
        while i < self.attempts.len()
            invariant
                i <= self.attempts@.len(),
                all == attempt_list(self.attempts@),
                out@ == attempts_text(all.take(i as int)),
            decreases self.attempts@.len() - i,
        {
            let ghost before = out@;
            let a = &self.attempts[i];
            proof {
                let t = all.take(i + 1);
                assert(t.drop_last() =~= all.take(i as int));
                assert(t.last() == a@);
            }
            if i > 0 {
                out.append(" ");
            }
            out.append(a.usi.as_str());
            out.append(
                match a.kind {
                    CheckMoveKind::King => "[玉]",
                    CheckMoveKind::CheckerCapture => "[捕]",
                    CheckMoveKind::OtherBoard => "[移]",
                    CheckMoveKind::Drop => "[打]",
                },
            );
            out.append(
                if a.was_legal {
                    "○"
                } else {
                    "×"
                },
            );
            proof {
                if i > 0 {
                    assert(out@ =~= before + " "@ + attempt_mark(a@));
                } else {
                    assert(out@ =~= attempt_mark(a@));
                }
            }
            i += 1;
        }
        assert(all.take(i as int) =~= all);
        out
    }

    /// The class of the turn.
    pub fn turn_type(&self) -> (res: TurnType)
        ensures
            res == type_of_turn(self@),
    {
        let first = match self.first_foul() {
            Some(a) => a.kind.coarse(),
            None => return TurnType::NoFoul,
        };
        let acc = match self.accepted_attempt() {
            Some(a) => a.kind.coarse(),
            None => return TurnType::Unfinished,
        };
        match (first, acc) {
            (CoarseKind::Drop, _) => TurnType::DropOrOther,
            (CoarseKind::NonKingBoard, CoarseKind::King) => TurnType::NonKingThenKing,
            (CoarseKind::NonKingBoard, _) => TurnType::NonKingThenNonKing,
            (CoarseKind::King, CoarseKind::King) => TurnType::KingThenKing,
            (CoarseKind::King, _) => TurnType::KingThenNonKing,
        }
    }
}

/// No guesses about the roles of known enemy pieces.
pub open spec fn no_guesses() -> Seq<Option<Role>> {
    Seq::new(81, |i: int| None::<Role>)
}

/// The true positions of a game.
pub open spec fn position_models(positions: Seq<Position>) -> Seq<PositionModel> {
    positions.map_values(|p: Position| p@)
}

/// The attempts of a turn as far as they have been gone through.
pub struct TurnProgress {
    pub attempts: Seq<AttemptModel>,
    pub fouls: Seq<ShogiMove>,
    pub accepted: Option<int>,
}

/// Whether an attempt goes for a hypothesised checker, given the fouls before it.
pub open spec fn goes_for_checker(
    view: ViewModel,
    events: Seq<Event>,
    prune: bool,
    fouls: Seq<ShogiMove>,
    mv: ShogiMove,
) -> bool {
    solver_at(view, events, no_guesses(), prune) matches Some(m) && m.all_fouled(fouls).takes_checker(
        mv,
    )
}

/// The attempts of a turn. One whose text does not read is passed over.
pub open spec fn turn_progress(
    view: ViewModel,
    events: Seq<Event>,
    prune: bool,
    truth: PositionModel,
    bot: Color,
    group: Seq<GroupItem>,
) -> TurnProgress
    decreases group.len(),
{
    if group.len() == 0 {
        TurnProgress { attempts: Seq::empty(), fouls: Seq::empty(), accepted: None }
    } else {
        let p = turn_progress(view, events, prune, truth, bot, group.drop_last());
        let x = group.last();
        match move_of_text(x.usi) {
            None => p,
            Some(mv) => TurnProgress {
                attempts: p.attempts.push(
                    AttemptModel {
                        usi: x.usi,
                        mv,
                        kind: kind_of(
                            mv,
                            shown_king(view.pieces),
                            goes_for_checker(view, events, prune, p.fouls, mv),
                        ),
                        order: group.len() - 1,
                        was_legal: x.accepted,
                        truth_enemy_at_to: truth.at(target_of(mv)) matches Some(q) && q.color != bot,
                        truth_checker_at_to: is_true_checker(truth, bot, target_of(mv)),
                    },
                ),
                fouls: if x.accepted {
                    p.fouls
                } else {
                    p.fouls.push(mv)
                },
                accepted: if x.accepted {
                    Some(p.attempts.len() as int)
                } else {
                    p.accepted
                },
            },
        }
    }
}

/// The place of the true position of a decision: move numbers count from one.
pub open spec fn position_place(number: u32) -> int {
    if number == 0 {
        0
    } else {
        number - 1
    }
}

/// The turn in check that a group of attempts makes up, if its position is known and in check.
pub open spec fn turn_of_group(
    events: Seq<Event>,
    positions: Seq<PositionModel>,
    bot: Color,
    prune: bool,
    group: Seq<GroupItem>,
) -> Option<TurnModel> {
    let place = position_place(group[0].number);
    let truth = positions[place];
    if place < positions.len() && checked(truth, bot) {
        let known = events.take(group[0].index);
        let side = side_after(bot, known);
        let view = model_view(bot, side, true, truth.move_number);
        let p = turn_progress(view, known, prune, truth, bot, group);
        let candidates = candidate_list(view.pieces, view.hand, bot);
        let solver = solver_at(view, known, no_guesses(), prune);
        Some(
            TurnModel {
                move_number: group[0].number,
                position_index: place,
                fouls_before: side.my_fouls,
                attempts: p.attempts,
                accepted: p.accepted,
                accepted_legal_at_entry: match p.accepted {
                    Some(i) => Some(legal(truth, p.attempts[i].mv)),
                    None => None,
                },
                legal_candidates_at_entry: candidates.filter(
                    |mv: ShogiMove| legal(truth, mv),
                ).len(),
                solver_at_entry: solver is Some,
                candidates_at_entry: candidates.len(),
                hypotheses_at_entry: match solver {
                    Some(m) => m.hypotheses.len(),
                    None => 0,
                },
            },
        )
    } else {
        None
    }
}

/// All turns in check of a game.
pub open spec fn turns_in_check(
    events: Seq<Event>,
    positions: Seq<PositionModel>,
    bot: Color,
    prune: bool,
) -> Seq<TurnModel> {
    grouped(attempts_in(events)).filter_map(
        |g: Seq<GroupItem>| turn_of_group(events, positions, bot, prune, g),
    )
}

/// The contents of a list of turns.
pub open spec fn turn_list(turns: Seq<CheckTurn>) -> Seq<TurnModel> {
    turns.map_values(|t: CheckTurn| t@)
}

/// How many of the moves are legal in a position.
fn count_legal(moves: &Vec<ShogiMove>, truth: &Position) -> (res: usize)
    ensures
        res == moves@.filter(|mv: ShogiMove| legal(truth@, mv)).len(),
{
    let ghost good = |mv: ShogiMove| legal(truth@, mv);
    let mut n: usize = 0;
    let mut i: usize = 0;
    assert(moves@.take(0).filter(good) =~= Seq::<ShogiMove>::empty()) by {
        reveal(Seq::filter);
    }
    while i < moves.len()
        invariant
            i <= moves@.len(),
            good == (|mv: ShogiMove| legal(truth@, mv)),
            n == moves@.take(i as int).filter(good).len(),
            n <= i,
        decreases moves@.len() - i,
    {
        proof {
            assert(moves@.take(i + 1) =~= moves@.take(i as int).push(moves@[i as int]));
            moves@.take(i as int).lemma_filter_push(moves@[i as int], good);
        }
        if truth.is_legal(&moves[i]) {
            n += 1;
        }
        i += 1;
    }
    assert(moves@.take(i as int) =~= moves@);
    n
}

/// Attempts stand in the observations before the end.
proof fn lemma_attempt_index(events: Seq<Event>)
    ensures
        forall|i: int|
            0 <= i < attempts_in(events).len() ==> 0 <= (#[trigger] attempts_in(events)[i]).index
                < events.len(),
    decreases events.len(),
{
    if events.len() > 0 {
        lemma_attempt_index(events.drop_last());
        let rest = attempts_in(events.drop_last());
        let all = attempts_in(events);
        assert forall|i: int| 0 <= i < all.len() implies 0 <= (#[trigger] all[i]).index
            < events.len() by {
            if i < rest.len() {
                assert(rest[i].index < events.len() - 1);
            }
        }
    }
}

/// The first attempt of a group is one of the attempts.
proof fn lemma_group_head(items: Seq<GroupItem>, i: int)
    requires
        0 <= i < grouped(items).len(),
    ensures
        grouped(items)[i].len() > 0,
        items.contains(grouped(items)[i][0]),
    decreases items.len(),
{
    lemma_groups_not_empty(items);
    if items.len() > 0 {
        let g = grouped(items.drop_last());
        lemma_groups_not_empty(items.drop_last());
        if i < g.len() {
            lemma_group_head(items.drop_last(), i);
            let h = g[i][0];
            assert(grouped(items)[i][0] == h);
            let k = choose|k: int| 0 <= k < items.drop_last().len() && items.drop_last()[k] == h;
            assert(items[k] == h);
        } else {
            assert(grouped(items)[i][0] == items[items.len() - 1]);
        }
    }
}

/// Works out one turn in check from its group of attempts.
fn check_turn(
    observations: &[Observation],
    truth: &Position,
    place: usize,
    bot: Color,
    prune: bool,
    group: &Vec<(u32, usize, String, bool)>,
) -> (res: CheckTurn)
    requires
        group@.len() > 0,
        group@[0].1 <= observations@.len(),
        place == position_place(group@[0].0),
        checked(truth@, bot),
    ensures
        res.best_legal_rank_at_entry is None,
        res.accepted_rank_at_entry is None,
        forall|positions: Seq<PositionModel>|
            place < positions.len() && positions[place as int] == truth@ ==> Some(res@)
                == #[trigger] turn_of_group(
                events_of(observations@),
                positions,
                bot,
                prune,
                items_of(group@),
            ),
{
    let ghost events = events_of(observations@);
    let ghost items = items_of(group@);
    let entry: usize = group[0].1;
    let log = log_prefix(observations, entry);
    let ghost known = events.take(entry as int);
    assert(log@ =~= known);
    let model = GameModel::from_log(bot, &log);
    let view = view_from_model(&model, true, truth.move_number());
    let candidates = all_candidates(&view);
    let guesses: [Option<Role>; 81] = [None; 81];
    assert(guesses@ =~= no_guesses());
    let no_fouls: Vec<ShogiMove> = Vec::new();
    let entry_solver = CheckSolver::new(&view, &guesses, no_fouls.as_slice(), &log, prune);
    let (solver_at_entry, hypotheses_at_entry): (bool, usize) = match &entry_solver {
        Some(s) => (true, s.hypothesis_count()),
        None => (false, 0),
    };
    let checkers = true_checkers(truth, bot);
    let mut attempts: Vec<CheckAttempt> = Vec::new();
    let mut accepted: Option<usize> = None;
    let mut fouls: Vec<ShogiMove> = Vec::new();
    let mut order: usize = 0;
    assert(attempt_list(attempts@) =~= Seq::<AttemptModel>::empty());
    while order < group.len()
        invariant
            order <= group@.len(),
            items == items_of(group@),
            guesses@ == no_guesses(),
            log@ == known,
            checkers@ == checker_list(truth@, bot),
            view@ == model_view(bot, side_after(bot, known), true, truth@.move_number),
            ({
                let p = turn_progress(
                    view@,
                    known,
                    prune,
                    truth@,
                    bot,
                    items.take(order as int),
                );
                &&& p.attempts == attempt_list(attempts@)
                &&& p.fouls == fouls@
                &&& p.accepted == (match accepted {
                    Some(i) => Some(i as int),
                    None => None,
                })
                &&& accepted matches Some(i) ==> i < attempts@.len()
            }),
        decreases group@.len() - order,
    {
        let ghost t = items.take(order + 1);
        proof {
            assert(t.drop_last() =~= items.take(order as int));
            assert(t.last() == item_of(group@[order as int]));
        }
        if let Some(mv) = parse_usi(group[order].2.as_str()) {
            let ghost before = attempts@;
            let solver = CheckSolver::new(&view, &guesses, fouls.as_slice(), &log, prune);
            let kind = classify_move_kind(&mv, &view, solver.as_ref());
            let to = mv.target();
            let enemy = match truth.piece_at(to) {
                Some(q) => q.color != bot,
                None => false,
            };
            proof {
                lemma_checker_list(truth@, bot, to);
            }
            let was_legal: bool = group[order].3;
            attempts.push(
                CheckAttempt {
                    usi: group[order].2.clone(),
                    mv,
                    kind,
                    order,
                    was_legal,
                    truth_enemy_at_to: enemy,
                    truth_checker_at_to: holds_checker(&checkers, to),
                },
            );
            if was_legal {
                accepted = Some(attempts.len() - 1);
            } else {
                fouls.push(mv);
            }
            assert(attempt_list(attempts@) =~= attempt_list(before).push(attempts@.last()@));
        }
        order += 1;
    }
    assert(items.take(order as int) =~= items);
    let accepted_legal: Option<bool> = match accepted {
        Some(i) => {
            assert(attempt_list(attempts@)[i as int] == attempts@[i as int]@);
            Some(truth.is_legal(&attempts[i].mv))
        },
        None => None,
    };
    let legal_candidates: usize = count_legal(&candidates, truth);
    CheckTurn {
        move_number: group[0].0,
        position_index: place,
        fouls_before: model.my_fouls(),
        attempts,
        accepted,
        accepted_legal_at_entry: accepted_legal,
        legal_candidates_at_entry: legal_candidates,
        best_legal_rank_at_entry: None,
        solver_at_entry,
        accepted_rank_at_entry: None,
        candidates_at_entry: candidates.len(),
        hypotheses_at_entry,
    }
}

/// Takes every turn in check out of a game, those without a foul too. The turns have no ranks yet:
/// those come from an evaluation of the candidates.
pub fn check_turns(
    observations: &[Observation],
    positions: &[Position],
    bot: Color,
    prune: bool,
) -> (res: Vec<CheckTurn>)
    ensures
        turn_list(res@) == turns_in_check(
            events_of(observations@),
            position_models(positions@),
            bot,
            prune,
        ),
        forall|k: int|
            0 <= k < res@.len() ==> (#[trigger] res@[k]).best_legal_rank_at_entry is None
                && res@[k].accepted_rank_at_entry is None,
{
    let groups = decision_groups(observations);
    let ghost events = events_of(observations@);
    let ghost models = position_models(positions@);
    let ghost all = grouped(attempts_in(events));
    let ghost pick = |g: Seq<GroupItem>| turn_of_group(events, models, bot, prune, g);
    let mut turns: Vec<CheckTurn> = Vec::new();
    let mut i: usize = 0;
    assert(all.take(0).filter_map(pick) =~= Seq::<TurnModel>::empty());
    assert(turn_list(turns@) =~= Seq::<TurnModel>::empty());
    while i < groups.len()
        invariant
            i <= groups@.len(),
            events == events_of(observations@),
            models == position_models(positions@),
            all == grouped(attempts_in(events)),
            group_items(groups@) == all,
            pick == (|g: Seq<GroupItem>| turn_of_group(events, models, bot, prune, g)),
            turn_list(turns@) == all.take(i as int).filter_map(pick),
            forall|k: int|
                0 <= k < turns@.len() ==> (#[trigger] turns@[k]).best_legal_rank_at_entry is None
                    && turns@[k].accepted_rank_at_entry is None,
        decreases groups@.len() - i,
    {
        let group = &groups[i];
        let ghost before = turns@;
        proof {
            assert(all[i as int] == items_of(group@));
            lemma_group_head(attempts_in(events), i as int);
            lemma_attempt_index(events);
            let head = all[i as int][0];
            let k = choose|k: int|
                0 <= k < attempts_in(events).len() && attempts_in(events)[k] == head;
            assert(attempts_in(events)[k].index < events.len());
            assert(head == item_of(group@[0]));
            all.lemma_filter_map_take_succ(pick, i as int);
        }
        let number: u32 = group[0].0;
        let place: usize = if number == 0 {
            0
        } else {
            (number - 1) as usize
        };
        if place < positions.len() {
            let truth = &positions[place];
            assert(models[place as int] == truth@);
            if truth.in_check(bot) {
                let turn = check_turn(observations, truth, place, bot, prune, group);
                assert(Some(turn@) == turn_of_group(events, models, bot, prune, all[i as int]));
                turns.push(turn);
                assert(turn_list(turns@) =~= turn_list(before).push(turn@));
            }
        }
        i += 1;
    }
    assert(all.take(i as int) =~= all);
    turns
}

/// The place of a text in a list, counted from one.
pub open spec fn rank_in(ranked: Seq<String>, usi: Seq<char>, from: int) -> Option<int>
    decreases ranked.len() - from,
{
    if from < 0 || from >= ranked.len() {
        None
    } else if ranked[from]@ == usi {
        Some(from + 1)
    } else {
        rank_in(ranked, usi, from + 1)
    }
}

/// The rank of a move in a list of candidates that was ordered from the best down.
pub fn rank_of(ranked: &Vec<String>, usi: &String) -> (res: Option<usize>)
    ensures
        res is Some <==> rank_in(ranked@, usi@, 0) is Some,
        res is Some ==> res->0 == rank_in(ranked@, usi@, 0)->0,
{
    let mut i: usize = 0;
    while i < ranked.len()
        invariant
            i <= ranked@.len(),
            rank_in(ranked@, usi@, 0) == rank_in(ranked@, usi@, i as int),
        decreases ranked@.len() - i,
    {
        if ranked[i] == *usi {
            return Some(i + 1);
        }
        i += 1;
    }
    None
}

/// The rank of the first text that names a legal move, counted from one.
pub open spec fn first_legal_rank(
    ranked: Seq<String>,
    truth: PositionModel,
    from: int,
) -> Option<int>
    decreases ranked.len() - from,
{
    if from < 0 || from >= ranked.len() {
        None
    } else if (move_of_text(ranked[from]@) matches Some(mv) && legal(truth, mv)) {
        Some(from + 1)
    } else {
        first_legal_rank(ranked, truth, from + 1)
    }
}

/// The rank of the best candidate that is really legal, in a list ordered from the best down.
pub fn best_legal_rank(ranked: &Vec<String>, truth: &Position) -> (res: Option<usize>)
    ensures
        res is Some <==> first_legal_rank(ranked@, truth@, 0) is Some,
        res is Some ==> res->0 == first_legal_rank(ranked@, truth@, 0)->0,
{
    let mut i: usize = 0;
    while i < ranked.len()
        invariant
            i <= ranked@.len(),
            first_legal_rank(ranked@, truth@, 0) == first_legal_rank(ranked@, truth@, i as int),
        decreases ranked@.len() - i,
    {
        if let Some(mv) = parse_usi(ranked[i].as_str()) {
            if truth.is_legal(&mv) {
                return Some(i + 1);
            }
        }
        i += 1;
    }
    None
}

impl CheckTurn {
    /// Fills in the ranks from the candidates of the turn's beginning, ordered from the best down.
    pub fn set_ranking(&mut self, ranked: &Vec<String>, truth: &Position)
        ensures
            final(self)@ == old(self)@,
            final(self).best_legal_rank_at_entry is Some <==> first_legal_rank(
                ranked@,
                truth@,
                0,
            ) is Some,
            final(self).best_legal_rank_at_entry matches Some(r) ==> r == first_legal_rank(
                ranked@,
                truth@,
                0,
            )->0,
            final(self).accepted_rank_at_entry == (match old(self).accepted {
                Some(i) if i < old(self).attempts@.len() => match rank_in(
                    ranked@,
                    old(self).attempts@[i as int].usi@,
                    0,
                ) {
                    Some(r) => Some(r as usize),
                    None => None,
                },
                _ => None,
            }),
    {
        self.best_legal_rank_at_entry = best_legal_rank(ranked, truth);
        self.accepted_rank_at_entry = match self.accepted_attempt_text() {
            Some(usi) => rank_of(ranked, &usi),
            None => None,
        };
    }

    fn accepted_attempt_text(&self) -> (res: Option<String>)
        ensures
            res is Some <==> (self.accepted matches Some(i) && i < self.attempts@.len()),
            res matches Some(t) ==> t@ == self.attempts@[self.accepted->0 as int].usi@,
    {
        match self.accepted {
            Some(i) => if i < self.attempts.len() {
                Some(self.attempts[i].usi.clone())
            } else {
                None
            },
            None => None,
        }
    }
}

/// Whether the last `n` events are fouls: own ones for the side that tried, reports of them for the
/// other.
pub open spec fn ends_in_fouls(events: Seq<Event>, n: int, own: bool) -> bool {
    &&& n <= events.len()
    &&& forall|i: int|
        events.len() - n <= i < events.len() ==> if own {
            (#[trigger] events[i]) is MyFoul
        } else {
            events[i] is OpponentFoul
        }
}

/// The state of a side's decision: the true position, both logs, the fouls and the moves made.
#[verifier::ext_equal]
pub struct ReplayedModel {
    pub pos: PositionModel,
    pub logs: SideEvents,
    pub fouls: Seq<u32>,
    pub plies: u32,
}

impl View for Replayed {
    type V = ReplayedModel;

    open spec fn view(&self) -> ReplayedModel {
        ReplayedModel {
            pos: self.pos@,
            logs: self.logs@,
            fouls: self.fouls@,
            plies: self.plies,
        }
    }
}

/// The events without the last `n`.
pub open spec fn without_last(events: Seq<Event>, n: int) -> Seq<Event> {
    events.take(events.len() - n)
}

/// The state at the beginning of a turn, from the state after `n` fouls in it.
pub open spec fn turn_entry(post: ReplayedModel, side: Color, n: u32) -> Option<ReplayedModel> {
    if ends_in_fouls(post.logs.sente, n as int, side == Color::Sente) && ends_in_fouls(
        post.logs.gote,
        n as int,
        side == Color::Gote,
    ) && post.fouls[side_place(side)] >= n {
        Some(
            ReplayedModel {
                pos: post.pos,
                logs: SideEvents {
                    sente: without_last(post.logs.sente, n as int),
                    gote: without_last(post.logs.gote, n as int),
                },
                fouls: post.fouls.update(
                    side_place(side),
                    (post.fouls[side_place(side)] - n) as u32,
                ),
                plies: post.plies,
            },
        )
    } else {
        None
    }
}

/// The log without its last `n` observations, if those are fouls.
fn log_before_fouls(log: &ObservationLog, n: usize, own: bool) -> (res: Option<ObservationLog>)
    ensures
        res is Some <==> ends_in_fouls(log@, n as int, own),
        res matches Some(l) ==> l@ == without_last(log@, n as int),
{
    let total: usize = log.events.len();
    if total < n {
        return None;
    }
    let keep: usize = total - n;
    let mut i: usize = keep;
    while i < total
        invariant
            total == log.events@.len(),
            n <= total,
            keep == total - n,
            keep <= i <= total,
            forall|k: int|
                keep <= k < i ==> if own {
                    (#[trigger] log@[k]) is MyFoul
                } else {
                    log@[k] is OpponentFoul
                },
        decreases total - i,
    {
        let fits = match &log.events[i] {
            Observation::MyFoul { move_number: _, usi: _ } => own,
            Observation::OpponentFoul { count: _ } => !own,
            _ => false,
        };
        assert(log@[i as int] == log.events@[i as int]@);
        if !fits {
            return None;
        }
        i += 1;
    }
    let res = log_prefix(log.events.as_slice(), keep);
    assert(res@ =~= without_last(log@, n as int));
    Some(res)
}

/// Goes back to the beginning of a turn from the state after its fouls: fouls leave the position
/// alone, so only their observations and their count are taken off. Nothing comes back if the logs
/// do not end in that many fouls.
pub fn entry_replayed(post: &Replayed, side: Color, fouls_this_turn: u32) -> (res: Option<Replayed>)
    ensures
        res is Some <==> turn_entry(post@, side, fouls_this_turn) is Some,
        res matches Some(r) ==> r@ == turn_entry(post@, side, fouls_this_turn)->0,
{
    let n: usize = fouls_this_turn as usize;
    let sente = log_before_fouls(&post.logs.sente, n, side == Color::Sente);
    let gote = log_before_fouls(&post.logs.gote, n, side == Color::Gote);
    let k: usize = side_idx(side);
    match (sente, gote) {
        (Some(sente), Some(gote)) => {
            if post.fouls[k] < fouls_this_turn {
                return None;
            }
            let mut fouls = post.fouls;
            fouls[k] = post.fouls[k] - fouls_this_turn;
            let res = Replayed {
                pos: post.pos,
                logs: SideLogs { sente, gote },
                fouls,
                plies: post.plies,
            };
            assert(res@ =~= turn_entry(post@, side, fouls_this_turn)->0);
            Some(res)
        },
        _ => None,
    }
}

/// The state after a side has tried several moves in vain, one foul each.
pub open spec fn after_fouls(s: ReplayedModel, side: Color, tried: Seq<Seq<char>>) -> ReplayedModel
    decreases tried.len(),
{
    if tried.len() == 0 {
        s
    } else {
        let p = after_fouls(s, side, tried.drop_last());
        let fouls = crate::replay::raised(p.fouls, side);
        ReplayedModel {
            pos: p.pos,
            logs: crate::replay::foul_events(
                p.logs,
                side,
                tried.last(),
                p.pos.move_number,
                fouls[side_place(side)],
            ),
            fouls,
            plies: p.plies,
        }
    }
}

proof fn lemma_after_fouls(s: ReplayedModel, side: Color, tried: Seq<Seq<char>>)
    requires
        s.fouls.len() == 2,
        s.fouls[side_place(side)] + tried.len() <= u32::MAX,
    ensures
        ({
            let p = after_fouls(s, side, tried);
            let other = crate::protocol::other_color(side);
            &&& p.pos == s.pos
            &&& p.plies == s.plies
            &&& p.fouls =~= s.fouls.update(
                side_place(side),
                (s.fouls[side_place(side)] + tried.len()) as u32,
            )
            &&& p.logs.of(side).len() == s.logs.of(side).len() + tried.len()
            &&& p.logs.of(other).len() == s.logs.of(other).len() + tried.len()
            &&& p.logs.of(side).take(s.logs.of(side).len() as int) =~= s.logs.of(side)
            &&& p.logs.of(other).take(s.logs.of(other).len() as int) =~= s.logs.of(other)
            &&& ends_in_fouls(p.logs.of(side), tried.len() as int, true)
            &&& ends_in_fouls(p.logs.of(other), tried.len() as int, false)
        }),
    decreases tried.len(),
{
    if tried.len() == 0 {
        assert(s.fouls =~= s.fouls.update(side_place(side), s.fouls[side_place(side)]));
    } else {
        lemma_after_fouls(s, side, tried.drop_last());
        let q = after_fouls(s, side, tried.drop_last());
        let p = after_fouls(s, side, tried);
        let other = crate::protocol::other_color(side);
        assert(p.logs.of(side).drop_last() =~= q.logs.of(side));
        assert(p.logs.of(other).drop_last() =~= q.logs.of(other));
        assert forall|i: int|
            p.logs.of(side).len() - tried.len() <= i < p.logs.of(side).len() implies (
        #[trigger] p.logs.of(side)[i]) is MyFoul by {
            if i < q.logs.of(side).len() {
                assert(q.logs.of(side)[i] is MyFoul);
            }
        }
        assert forall|i: int|
            p.logs.of(other).len() - tried.len() <= i < p.logs.of(other).len() implies (
        #[trigger] p.logs.of(other)[i]) is OpponentFoul by {
            if i < q.logs.of(other).len() {
                assert(q.logs.of(other)[i] is OpponentFoul);
            }
        }
    }
}

/// Going back to the beginning of a turn undoes exactly its fouls, however many there were.
pub proof fn law_entry_undoes_fouls(s: ReplayedModel, side: Color, tried: Seq<Seq<char>>)
    requires
        s.fouls.len() == 2,
        s.fouls[side_place(side)] + tried.len() <= u32::MAX,
    ensures
        turn_entry(after_fouls(s, side, tried), side, tried.len() as u32) == Some(s),
{
    lemma_after_fouls(s, side, tried);
    let p = after_fouls(s, side, tried);
    let back = turn_entry(p, side, tried.len() as u32)->0;
    assert(back.logs =~= s.logs);
    assert(back.fouls =~= s.fouls);
    assert(back =~= s);
}

} // verus!
