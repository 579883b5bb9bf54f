//! What the record of turns in check says: which pieces really gave check, which attempts belong
//! together, and why an attempt was a foul.

use crate::board::{is_on_board, Coord};
use crate::check_economy::{
    attempts_in, attempts_text, checker_list, coarse_of, first_legal_rank, foul_reason, goes_for_checker,
    grouped, is_true_checker, kind_mark, kind_of, model_view, no_guesses, rank_in, shown_king, turn_entry,
    turn_of_group, turn_progress, type_of_turn, AttemptModel, CheckFoulReason, CheckMoveKind, CoarseKind,
    GroupItem, ReplayedModel, TurnModel, TurnType,
};
use crate::candidates::candidate_list;
use crate::conservation::law_own_side_is_known;
use crate::lists::lemma_filter_contains_iff;
use crate::model::{own_list, side_after};
use crate::observation::Event;
use crate::protocol::{Color, FoulRecord, MoveRecord, Role};
use crate::replay::{only_side, shown, truth_run};
use crate::shogi::{
    after_move, attacks_from, checked, king_of, legal, move_of_text, piece_list, pseudo_legal, Piece,
    PositionModel, ShogiMove,
};
use vstd::prelude::*;
use vstd::string::*;

verus! {

/// The true checkers are exactly the enemy pieces that attack the king, each with its role.
pub proof fn law_true_checkers(truth: PositionModel, bot: Color, king: Coord, c: Coord, role: Role)
    requires
        truth.wf(),
        king_of(truth, bot) == Some(king),
    ensures
        checker_list(truth, bot).contains((c, role)) <==> is_on_board(c) && attacks_from(
            truth,
            c,
            king,
        ) && (truth.at(c) matches Some(p) && p.color != bot && p.role == role),
{
    let all = piece_list(truth);
    let hit = |x: (Coord, Piece)| is_true_checker(truth, bot, x.0);
    let pick = |x: (Coord, Piece)| (x.0, x.1.role);
    let kept = all.filter(hit);
    let list = checker_list(truth, bot);
    if list.contains((c, role)) {
        let k = choose|k: int| 0 <= k < list.len() && list[k] == (c, role);
        let x = kept[k];
        assert(kept.contains(x));
        lemma_filter_contains_iff(all, hit, x);
        let n = choose|n: int| 0 <= n < all.len() && all[n] == x;
        crate::check_economy::lemma_piece_list(truth, n);
    }
    if is_on_board(c) && attacks_from(truth, c, king) && (truth.at(c) matches Some(p) && p.color
        != bot && p.role == role) {
        let p = truth.at(c)->0;
        let n = crate::check_economy::lemma_piece_listed(truth, c);
        assert(all[n] == (c, p));
        assert(all.contains((c, p)));
        lemma_filter_contains_iff(all, hit, (c, p));
        let k = choose|k: int| 0 <= k < kept.len() && kept[k] == (c, p);
        assert(list[k] == (c, role));
    }
}

/// An attempt is of the king where the piece comes from the king's square, else a capture of the
/// checker where it is one, else another board move; a drop is a drop.
pub proof fn law_kinds_of_attempts(
    from: Coord,
    to: Coord,
    promote: bool,
    role: Role,
    king: Option<Coord>,
    takes: bool,
)
    ensures
        kind_of(ShogiMove::Drop { role, to }, king, takes) == CheckMoveKind::Drop,
        kind_of(ShogiMove::Board { from, to, promote }, king, takes) == CheckMoveKind::King <==> king
            == Some(from),
        kind_of(ShogiMove::Board { from, to, promote }, king, takes) == CheckMoveKind::CheckerCapture
            <==> king != Some(from) && takes,
        kind_of(ShogiMove::Board { from, to, promote }, king, takes) == CheckMoveKind::OtherBoard
            <==> king != Some(from) && !takes,
{
}

/// Why an attempt in check was a foul. Against the movement rules a board move was blocked and a drop
/// was on a piece. Else, where the king is still in check: a piece that gave check before gives it
/// still; or what was taken was a checker and a new one guards that square; or the attack came from
/// elsewhere.
pub proof fn law_reasons_of_fouls(truth: PositionModel, bot: Color, mv: ShogiMove, to: Coord)
    requires
        match mv {
            ShogiMove::Board { from, to: t, promote } => t == to,
            ShogiMove::Drop { role, to: t } => t == to,
        },
    ensures
        ({
            let after = after_move(truth, mv);
            let r = foul_reason(truth, bot, mv);
            let stays = exists|c: Coord|
                #[trigger] is_true_checker(after, bot, c) && is_true_checker(truth, bot, c);
            let guards = exists|c: Coord|
                #[trigger] is_true_checker(after, bot, c) && attacks_from(after, c, to);
            &&& r == CheckFoulReason::Blocked <==> !pseudo_legal(truth, mv) && mv is Board
            &&& r == CheckFoulReason::DropOccupied <==> !pseudo_legal(truth, mv) && mv is Drop
            &&& r == CheckFoulReason::Other <==> pseudo_legal(truth, mv) && !checked(after, bot)
            &&& r == CheckFoulReason::CheckerRemains <==> pseudo_legal(truth, mv) && checked(after, bot)
                && stays
            &&& r == CheckFoulReason::DefendedCapture <==> pseudo_legal(truth, mv) && checked(
                after,
                bot,
            ) && !stays && is_true_checker(truth, bot, to) && guards
            &&& r == CheckFoulReason::HiddenAttack <==> pseudo_legal(truth, mv) && checked(after, bot)
                && !stays && !(is_true_checker(truth, bot, to) && guards)
        }),
{
}

/// The attempts of a player are its own moves and fouls in order, each with the place of its event: a
/// foul under the number of its turn, an accepted move under the number before the one told.
pub proof fn law_attempts(events: Seq<Event>, e: Event)
    ensures
        ({
            let a = attempts_in(events);
            let b = attempts_in(events.push(e));
            match e {
                Event::MyFoul { move_number, usi } => {
                    &&& b.len() == a.len() + 1
                    &&& b.drop_last() == a
                    &&& b.last().usi == usi && !b.last().accepted && b.last().index == events.len()
                    &&& b.last().number == move_number
                },
                Event::MyMove { move_number, usi, captured } => {
                    &&& b.len() == a.len() + 1
                    &&& b.drop_last() == a
                    &&& b.last().usi == usi && b.last().accepted && b.last().index == events.len()
                    &&& move_number > 0 ==> b.last().number + 1 == move_number
                },
                _ => b == a,
            }
        }),
        attempts_in(Seq::empty()).len() == 0,
{
    let a = attempts_in(events);
    let b = attempts_in(events.push(e));
    assert(events.push(e).drop_last() =~= events);
    if e is MyFoul || e is MyMove {
        assert(b.drop_last() =~= a);
    }
}

/// How a turn in check went: without a foul, unfinished, or by what was tried first in vain and what
/// was accepted in the end.
pub proof fn law_types_of_turns(turn: TurnModel, first: int, acc: int)
    requires
        0 <= first < turn.attempts.len(),
        !turn.attempts[first].was_legal,
        forall|k: int| 0 <= k < first ==> (#[trigger] turn.attempts[k]).was_legal,
        0 <= acc < turn.attempts.len(),
    ensures
        turn.accepted is None ==> type_of_turn(turn) == TurnType::Unfinished,
        turn.accepted == Some(acc) ==> {
            let a = turn.attempts[first].kind;
            let b = turn.attempts[acc].kind;
            type_of_turn(turn) == (if a == CheckMoveKind::Drop {
                TurnType::DropOrOther
            } else if a == CheckMoveKind::King {
                if b == CheckMoveKind::King {
                    TurnType::KingThenKing
                } else {
                    TurnType::KingThenNonKing
                }
            } else {
                if b == CheckMoveKind::King {
                    TurnType::NonKingThenKing
                } else {
                    TurnType::NonKingThenNonKing
                }
            })
        },
{
    lemma_first_foul(turn.attempts, first, 0);
}

proof fn lemma_first_foul(attempts: Seq<AttemptModel>, first: int, from: int)
    requires
        0 <= from <= first < attempts.len(),
        !attempts[first].was_legal,
        forall|k: int| from <= k < first ==> (#[trigger] attempts[k]).was_legal,
    ensures
        crate::check_economy::first_foul_place(attempts, from) == Some(first),
    decreases first - from,
{
    if from < first {
        assert(attempts[from].was_legal);
        lemma_first_foul(attempts, first, from + 1);
    }
}

/// A turn without a foul is one in which every attempt was legal.
pub proof fn law_turn_without_foul(turn: TurnModel)
    ensures
        type_of_turn(turn) == TurnType::NoFoul <==> forall|k: int|
            0 <= k < turn.attempts.len() ==> (#[trigger] turn.attempts[k]).was_legal,
{
    if forall|k: int| 0 <= k < turn.attempts.len() ==> (#[trigger] turn.attempts[k]).was_legal {
        lemma_no_foul(turn.attempts, 0);
    } else {
        let k = choose|k: int|
            0 <= k < turn.attempts.len() && !(#[trigger] turn.attempts[k]).was_legal;
        lemma_some_foul(turn.attempts, 0, k);
    }
}

proof fn lemma_no_foul(attempts: Seq<AttemptModel>, from: int)
    requires
        0 <= from <= attempts.len(),
        forall|k: int| 0 <= k < attempts.len() ==> (#[trigger] attempts[k]).was_legal,
    ensures
        crate::check_economy::first_foul_place(attempts, from) is None,
    decreases attempts.len() - from,
{
    if from < attempts.len() {
        assert(attempts[from].was_legal);
        lemma_no_foul(attempts, from + 1);
    }
}

proof fn lemma_some_foul(attempts: Seq<AttemptModel>, from: int, k: int)
    requires
        0 <= from <= k < attempts.len(),
        !attempts[k].was_legal,
    ensures
        crate::check_economy::first_foul_place(attempts, from) is Some,
    decreases k - from,
{
    if attempts[from].was_legal {
        lemma_some_foul(attempts, from + 1, k);
    }
}

/// What a player's own reckoning shows in a real game is what the server shows: the same pieces and the
/// same hand.
pub proof fn law_reckoned_view_is_true(
    moves: Seq<MoveRecord>,
    records: Seq<FoulRecord>,
    k: int,
    me: Color,
    in_check: bool,
    number: u32,
)
    requires
        0 <= k <= moves.len(),
        truth_run(moves, records, k).ok,
    ensures
        ({
            let s = truth_run(moves, records, k).state;
            let v = model_view(me, side_after(me, s.logs.of(me)), in_check, number);
            let t = shown(s.pos, me, s.fouls);
            &&& v.pieces == t.pieces
            &&& v.hand == t.hand
            &&& v.color == me && v.turn == me
            &&& v.you_in_check == in_check && v.move_number == number
        }),
{
    let s = truth_run(moves, records, k).state;
    let side = side_after(me, s.logs.of(me));
    let own = only_side(s.pos, me);
    let corner = Coord { file: 1, rank: 1 };
    law_own_side_is_known(moves, records, k, me, corner);
    let f = |c: Coord| side.own.at(c) is Some;
    let g = |c: Coord| own.at(c) is Some;
    let p = |c: Coord| (crate::board::square_text(c), side.own.at(c)->0.role);
    let q = |c: Coord| (crate::board::square_text(c), own.at(c)->0.role);
    assert forall|c: Coord| side.own.at(c) == #[trigger] own.at(c) by {
        if is_on_board(c) {
            law_own_side_is_known(moves, records, k, me, c);
            crate::board::lemma_square_index(c, 0);
        }
    }
    assert(f =~= g);
    assert(p =~= q);
}

/// A turn in check is that of the true position before its first attempt, in which the own king is in
/// check; it counts the candidates there and those of them that are legal.
pub proof fn law_turns_in_check(
    events: Seq<Event>,
    positions: Seq<PositionModel>,
    bot: Color,
    prune: bool,
    group: Seq<GroupItem>,
)
    requires
        group.len() > 0,
        group[0].number > 0,
    ensures
        ({
            let t = turn_of_group(events, positions, bot, prune, group);
            let place = group[0].number - 1;
            &&& t is Some <==> place < positions.len() && checked(positions[place], bot)
            &&& t matches Some(turn) ==> {
                let side = side_after(bot, events.take(group[0].index));
                let moves = candidate_list(
                    own_list(side.own),
                    crate::shogi::hand_counts(side.own.hand(bot)),
                    bot,
                );
                &&& turn.move_number == group[0].number
                &&& turn.position_index == place
                &&& turn.fouls_before == side.my_fouls
                &&& turn.candidates_at_entry == moves.len()
                &&& turn.legal_candidates_at_entry == moves.filter(
                    |mv: ShogiMove| legal(positions[place], mv),
                ).len()
                &&& turn.accepted_legal_at_entry is Some <==> turn.accepted is Some
            }
        }),
{
}

/// The attempts of a turn are those of its group that can be read, in order: accepted or not, with the
/// place in the group, and with whether the target really held an enemy piece or a checker.
pub proof fn law_attempts_of_a_turn(
    view: crate::protocol::ViewModel,
    events: Seq<Event>,
    prune: bool,
    truth: PositionModel,
    bot: Color,
    group: Seq<GroupItem>,
    x: GroupItem,
    to: Coord,
)
    requires
        move_of_text(x.usi) matches Some(mv) && (match mv {
            ShogiMove::Board { from, to: t, promote } => t == to,
            ShogiMove::Drop { role, to: t } => t == to,
        }),
    ensures
        ({
            let p = turn_progress(view, events, prune, truth, bot, group);
            let q = turn_progress(view, events, prune, truth, bot, group.push(x));
            let a = q.attempts.last();
            &&& q.attempts.len() == p.attempts.len() + 1
            &&& q.attempts.drop_last() == p.attempts
            &&& a.usi == x.usi && Some(a.mv) == move_of_text(x.usi)
            &&& a.was_legal == x.accepted
            &&& a.order == group.len()
            &&& a.truth_enemy_at_to == (truth.at(to) matches Some(q) && q.color != bot)
            &&& a.truth_checker_at_to == is_true_checker(truth, bot, to)
            &&& x.accepted ==> q.accepted == Some(p.attempts.len() as int) && q.fouls == p.fouls
            &&& !x.accepted ==> q.accepted == p.accepted && q.fouls == p.fouls.push(a.mv)
        }),
{
    assert(group.push(x).drop_last() =~= group);
    let p = turn_progress(view, events, prune, truth, bot, group);
    let q = turn_progress(view, events, prune, truth, bot, group.push(x));
    assert(q.attempts.drop_last() =~= p.attempts);
}

/// The kinds that are told apart coarsely: of the king, of another piece on the board, and drops.
pub proof fn law_coarse_kinds(kind: CheckMoveKind)
    ensures
        coarse_of(kind) == CoarseKind::King <==> kind == CheckMoveKind::King,
        coarse_of(kind) == CoarseKind::Drop <==> kind == CheckMoveKind::Drop,
{
}

/// The kind of an attempt in a turn: of the king where it leaves the square on which the king is shown;
/// else at the checker where the suppositions left by the fouls before it say so.
pub proof fn law_kinds_in_a_turn(
    view: crate::protocol::ViewModel,
    events: Seq<Event>,
    prune: bool,
    truth: PositionModel,
    bot: Color,
    group: Seq<GroupItem>,
    x: GroupItem,
    from: Coord,
    to: Coord,
    promote: bool,
)
    requires
        move_of_text(x.usi) == Some(ShogiMove::Board { from, to, promote }),
    ensures
        ({
            let p = turn_progress(view, events, prune, truth, bot, group);
            let q = turn_progress(view, events, prune, truth, bot, group.push(x));
            let kind = q.attempts.last().kind;
            let mv = ShogiMove::Board { from, to, promote };
            let solver = crate::check::solver_at(view, events, no_guesses(), prune);
            let aimed = solver is Some && solver->0.all_fouled(p.fouls).takes_checker(mv);
            &&& kind == CheckMoveKind::King <==> shown_king(view.pieces) == Some(from)
            &&& kind == CheckMoveKind::CheckerCapture <==> shown_king(view.pieces) != Some(from) && aimed
            &&& kind == CheckMoveKind::OtherBoard <==> shown_king(view.pieces) != Some(from) && !aimed
            &&& goes_for_checker(view, events, prune, p.fouls, mv) == aimed
        }),
        forall|i: int| 0 <= i < 81 ==> (#[trigger] no_guesses()[i]) is None,
{
    assert(group.push(x).drop_last() =~= group);
}

/// A turn in check notes what the reckoning at its beginning supposes, and whether the move accepted in
/// the end was legal from the beginning.
pub proof fn law_turns_at_their_beginning(
    events: Seq<Event>,
    positions: Seq<PositionModel>,
    bot: Color,
    prune: bool,
    group: Seq<GroupItem>,
)
    requires
        group.len() > 0,
        group[0].number > 0,
        turn_of_group(events, positions, bot, prune, group) is Some,
    ensures
        ({
            let t = turn_of_group(events, positions, bot, prune, group)->0;
            let truth = positions[group[0].number - 1];
            let known = events.take(group[0].index);
            let view = model_view(bot, side_after(bot, known), true, truth.move_number);
            let solver = crate::check::solver_at(view, known, no_guesses(), prune);
            &&& t.solver_at_entry <==> solver is Some
            &&& t.hypotheses_at_entry == (if solver is Some {
                solver->0.hypotheses.len()
            } else {
                0
            })
            &&& t.attempts == turn_progress(view, known, prune, truth, bot, group).attempts
            &&& t.accepted matches Some(i) ==> t.accepted_legal_at_entry == Some(
                legal(truth, t.attempts[i].mv),
            )
        }),
{
}

/// An attempt goes on with the last turn where it has the number of that turn and the turn has not been
/// closed by an accepted move; else it begins a turn.
pub proof fn law_turns_go_on(items: Seq<GroupItem>, x: GroupItem)
    ensures
        ({
            let g = grouped(items);
            let h = grouped(items.push(x));
            let on = g.len() > 0 && g.last()[0].number == x.number && !g.last().last().accepted;
            &&& on ==> h.len() == g.len() && h.last() == g.last().push(x) && h.drop_last() == g.drop_last()
            &&& !on ==> h.len() == g.len() + 1 && h.last() == seq![x] && h.drop_last() == g
        }),
        grouped(Seq::empty()).len() == 0,
{
    assert(items.push(x).drop_last() =~= items);
    let g = grouped(items);
    let h = grouped(items.push(x));
    if g.len() > 0 && g.last()[0].number == x.number && !g.last().last().accepted {
        assert(h.drop_last() =~= g.drop_last());
    } else {
        assert(h.drop_last() =~= g);
    }
}

/// A rank counts from one: it is that of the first place with the text, or with a legal move.
pub proof fn law_ranks(ranked: Seq<String>, usi: Seq<char>, truth: PositionModel, from: int)
    requires
        0 <= from <= ranked.len(),
    ensures
        match rank_in(ranked, usi, from) {
            Some(r) => from < r <= ranked.len() && ranked[r - 1]@ == usi && forall|k: int|
                from <= k < r - 1 ==> (#[trigger] ranked[k])@ != usi,
            None => forall|k: int| from <= k < ranked.len() ==> (#[trigger] ranked[k])@ != usi,
        },
        match first_legal_rank(ranked, truth, from) {
            Some(r) => from < r <= ranked.len() && (move_of_text(ranked[r - 1]@) matches Some(mv) && legal(
                truth,
                mv,
            )) && forall|k: int|
                from <= k < r - 1 ==> !(move_of_text((#[trigger] ranked[k])@) matches Some(mv) && legal(
                    truth,
                    mv,
                )),
            None => forall|k: int|
                from <= k < ranked.len() ==> !(move_of_text((#[trigger] ranked[k])@) matches Some(mv)
                    && legal(truth, mv)),
        },
    decreases ranked.len() - from,
{
    if from < ranked.len() {
        law_ranks(ranked, usi, truth, from + 1);
    }
}

/// The beginning of a turn is restored where its fouls are the last events of both sides and are counted:
/// those events and that many fouls are taken back, and nothing else.
pub proof fn law_turn_entries(post: ReplayedModel, side: Color, n: u32)
    requires
        post.fouls.len() == 2,
    ensures
        ({
            let mine = post.logs.of(side);
            let theirs = post.logs.of(crate::protocol::other_color(side));
            let me: int = if side == Color::Sente {
                0
            } else {
                1
            };
            let fits = n <= mine.len() && n <= theirs.len() && post.fouls[me] >= n && (forall|i: int|
                mine.len() - n <= i < mine.len() ==> (#[trigger] mine[i]) is MyFoul) && (forall|i: int|
                theirs.len() - n <= i < theirs.len() ==> (#[trigger] theirs[i]) is OpponentFoul);
            &&& turn_entry(post, side, n) is Some <==> fits
            &&& turn_entry(post, side, n) matches Some(e) ==> {
                &&& e.pos == post.pos && e.plies == post.plies
                &&& e.logs.of(side) == mine.take(mine.len() - n)
                &&& e.logs.of(crate::protocol::other_color(side)) == theirs.take(theirs.len() - n)
                &&& e.fouls[me] == post.fouls[me] - n && e.fouls[1 - me] == post.fouls[1 - me]
            }
        }),
{
    let entry = turn_entry(post, side, n);
    let mine = post.logs.of(side);
    let theirs = post.logs.of(crate::protocol::other_color(side));
    if n <= mine.len() && n <= theirs.len() && (forall|i: int|
        mine.len() - n <= i < mine.len() ==> (#[trigger] mine[i]) is MyFoul) && (forall|i: int|
        theirs.len() - n <= i < theirs.len() ==> (#[trigger] theirs[i]) is OpponentFoul) {
        assert(crate::check_economy::ends_in_fouls(mine, n as int, true));
        assert(crate::check_economy::ends_in_fouls(theirs, n as int, false));
    }
    if entry is Some {
        assert(crate::check_economy::ends_in_fouls(mine, n as int, true));
        assert(crate::check_economy::ends_in_fouls(theirs, n as int, false));
    }
}

/// The summary of a turn puts its attempts one behind the other, each with its text first and a mark for
/// whether it was accepted last.
pub proof fn law_turn_summaries(attempts: Seq<AttemptModel>, a: AttemptModel)
    ensures
        ({
            let mark = a.usi + kind_mark(a.kind) + (if a.was_legal {
                "○"@
            } else {
                "×"@
            });
            &&& attempts.len() == 0 ==> attempts_text(attempts.push(a)) == mark
            &&& attempts.len() > 0 ==> attempts_text(attempts.push(a)) == attempts_text(attempts) + " "@ + mark
        }),
{
    assert(attempts.push(a).drop_last() =~= attempts);
}

} // verus!
