//! What trials, continuations and replayed scores do: how a choice changes a game, when it ends, and how
//! a scenario is put together.

use crate::board::{is_on_board, Coord};
use crate::check_economy::ReplayedModel;
use crate::continuation::{
    after_choice, broken_off, end_of_choice, forced_from, halves_for, refused, tried_at_end, EndReason, GameState,
};
use crate::kifu::{after_raw_fouls, attempted, fouled, moved, score_run, Ply, RawFoul};
use crate::lists::{
    lemma_filter_contains_iff, lemma_sorted_by_keeps, lemma_sorted_by_orders, lemma_sorted_by_stable,
};
use crate::observation::Event;
use crate::protocol::{other_color, promoted, Color, Role, MAX_FOULS};
use crate::scenario::{
    accepted, attack_count, by_count, chosen_desc, chosen_limit, chosen_ply, chosen_squares,
    chosen_target, comma_list, comma_parts, count_of, counts_for, directive_of, first_bad, flags_from,
    is_other, names_file, one_line, others_of, scenario_fault, trial_after, trial_end, FlagsModel, Flags,
    ScenarioError, TrialModel,
};
use crate::shogi::{
    after_move, attacks_from, checked, legal, move_of_text, piece_list, text_of_move,
    Piece, PositionModel, ShogiMove,
};
use crate::synthesis::{attempt_of, bears_out, plus_if, role_count, Mark};
use crate::text::{number_of, trimmed};
use vstd::prelude::*;
use vstd::string::*;

verus! {

/// The place of a side's counter.
pub open spec fn counter(side: Color) -> int {
    if side == Color::Sente {
        0
    } else {
        1
    }
}

/// An attempt named by where it goes from and to and by the role that arrives: it is a move where a piece
/// of the side stands there that has the role, or gets it by promoting. A drop needs a role that can be
/// held.
pub proof fn law_attempts_named(
    pos: PositionModel,
    side: Color,
    from: Coord,
    to: Coord,
    role: Role,
    p: Piece,
)
    requires
        is_on_board(to),
        pos.at(from) == Some(p),
    ensures
        attempted(pos, side, RawFoul::Board { from, to, role }) == (if p.color != side {
            None
        } else if p.role == role {
            Some(ShogiMove::Board { from, to, promote: false })
        } else if promoted(p.role) == Some(role) {
            Some(ShogiMove::Board { from, to, promote: true })
        } else {
            None
        }),
        attempted(pos, side, RawFoul::Drop { role, to }) == (if crate::protocol::slot_of(role) is Some {
            Some(ShogiMove::Drop { role, to })
        } else {
            None
        }),
        p.role == role ==> attempt_of(pos, RawFoul::Board { from, to, role }) == Some(
            ShogiMove::Board { from, to, promote: false },
        ),
        promoted(p.role) == Some(role) ==> attempt_of(pos, RawFoul::Board { from, to, role }) == Some(
            ShogiMove::Board { from, to, promote: true },
        ),
        attempt_of(pos, RawFoul::Drop { role, to }) == attempted(pos, side, RawFoul::Drop { role, to }),
{
}

/// A refused text leaves the position and the number of moves, and counts one foul for the side to move
/// only; it is told to both sides.
pub proof fn law_refused(s: ReplayedModel, usi: Seq<char>, mv: ShogiMove)
    requires
        s.fouls.len() == 2,
        s.fouls[counter(s.pos.turn)] < u32::MAX,
    ensures
        ({
            let t = refused(s, usi);
            let me = s.pos.turn;
            &&& t.pos == s.pos && t.plies == s.plies && t.fouls.len() == 2
            &&& t.fouls[counter(me)] == s.fouls[counter(me)] + 1
            &&& t.fouls[1 - counter(me)] == s.fouls[1 - counter(me)]
            &&& t.logs.of(me) == s.logs.of(me).push(
                Event::MyFoul { move_number: s.pos.move_number, usi },
            )
            &&& t.logs.of(other_color(me)) == s.logs.of(other_color(me)).push(
                Event::OpponentFoul { count: t.fouls[counter(me)] },
            )
        }),
        fouled(s, mv) == refused(s, text_of_move(mv)),
{
}

/// A move that is carried out is one move more, and the fouls stay; the other side is to move then.
pub proof fn law_moved(s: ReplayedModel, mv: ShogiMove)
    requires
        s.plies < u32::MAX,
    ensures
        moved(s, mv).pos == after_move(s.pos, mv),
        moved(s, mv).pos.turn == other_color(s.pos.turn),
        moved(s, mv).plies == s.plies + 1,
        moved(s, mv).fouls == s.fouls,
{
}

/// A score holds together where it does up to its last move and that one is legal behind its fouls, each
/// of which is an illegal attempt; the fouls add up.
pub proof fn law_score_steps(plies: Seq<Ply>, k: int)
    requires
        0 < k <= plies.len(),
        k < u32::MAX,
    ensures
        score_run(plies, k) matches Some(t) ==> (score_run(plies, k - 1) matches Some(s) && s.plies == k - 1
            && t.plies == k && legal(s.pos, plies[k - 1].mv) && t.pos == after_move(
            s.pos,
            plies[k - 1].mv,
        ) && (forall|j: int|
            0 <= j < plies[k - 1].fouls@.len() ==> (attempted(
                s.pos,
                s.pos.turn,
                #[trigger] plies[k - 1].fouls@[j],
            ) matches Some(mv) && !legal(s.pos, mv))) && (s.fouls.len() == 2 && t.fouls.len() == 2
            && t.fouls[1 - counter(s.pos.turn)] == s.fouls[1 - counter(s.pos.turn)] && (s.fouls[counter(
            s.pos.turn,
        )] + plies[k - 1].fouls@.len() <= u32::MAX ==> t.fouls[counter(s.pos.turn)] == s.fouls[counter(
            s.pos.turn,
        )] + plies[k - 1].fouls@.len()))),
    decreases k,
{
    if score_run(plies, k) is Some {
        let s = score_run(plies, k - 1)->0;
        if k > 1 {
            law_score_steps(plies, k - 1);
        }
        lemma_raw_fouls(s, plies[k - 1].fouls@, plies[k - 1].fouls@.len() as int);
    }
}

proof fn lemma_raw_fouls(s: ReplayedModel, fouls: Seq<RawFoul>, n: int)
    requires
        0 <= n <= fouls.len(),
        s.fouls.len() == 2,
    ensures
        after_raw_fouls(s, fouls, n) matches Some(t) ==> {
            let me = counter(s.pos.turn);
            &&& t.pos == s.pos && t.plies == s.plies && t.fouls.len() == 2
            &&& t.fouls[1 - me] == s.fouls[1 - me]
            &&& s.fouls[me] + n <= u32::MAX ==> t.fouls[me] == s.fouls[me] + n
            &&& forall|j: int|
                0 <= j < n ==> (attempted(s.pos, s.pos.turn, #[trigger] fouls[j]) matches Some(mv)
                    && !legal(s.pos, mv))
        },
    decreases n,
{
    if n > 0 {
        lemma_raw_fouls(s, fouls, n - 1);
    }
}

/// A choice in a game that is played on. A legal one is carried out, forgets what its side had tried, and
/// is remembered as the first move of the side that is watched; another one is refused and remembered as
/// tried. The other side's attempts stay; giving up changes nothing.
pub proof fn law_choices(g: GameState, usi: Seq<char>, t: Seq<char>)
    requires
        g.rep.fouls.len() == 2,
    ensures
        ({
            let side = g.rep.pos.turn;
            let next = after_choice(g, Some(usi));
            let fits = move_of_text(usi) matches Some(mv) && legal(g.rep.pos, mv);
            &&& next.me == g.me && next.limit == g.limit
            &&& next.tried(other_color(side)) == g.tried(other_color(side))
            &&& next.tried(side).contains(t) <==> !fits && (t == usi || g.tried(side).contains(t))
            &&& fits ==> next.rep.pos == after_move(g.rep.pos, move_of_text(usi)->0)
            &&& !fits ==> next.rep.pos == g.rep.pos && next.first_move == g.first_move
            &&& fits && side == g.me && g.first_move is None ==> next.first_move == Some(usi)
            &&& side != g.me || g.first_move is Some ==> next.first_move == g.first_move
        }),
        after_choice(g, None) == g,
{
}

/// How a game ends. Giving up loses; so does the last foul. A legal move ends it where it leaves the other
/// side without a legal move, and then wins. Anything else goes on.
pub proof fn law_ends(g: GameState, usi: Seq<char>)
    requires
        g.rep.fouls.len() == 2,
        g.rep.fouls[counter(g.rep.pos.turn)] < u32::MAX,
    ensures
        ({
            let side = g.rep.pos.turn;
            let fits = move_of_text(usi) matches Some(mv) && legal(g.rep.pos, mv);
            let next = after_move(g.rep.pos, move_of_text(usi)->0);
            let end = end_of_choice(g, Some(usi));
            &&& fits ==> (end is None <==> exists|r: ShogiMove| #[trigger] legal(next, r))
            &&& fits && end is Some ==> end->0.winner == Some(side) && end->0.reason == (if checked(
                next,
                next.turn,
            ) {
                EndReason::Checkmate
            } else {
                EndReason::Stalemate
            })
            &&& !fits ==> (end is Some <==> g.rep.fouls[counter(side)] + 1 >= MAX_FOULS)
            &&& !fits && end is Some ==> end->0.winner == Some(other_color(side)) && end->0.reason
                == EndReason::FoulLimit
            &&& end_of_choice(g, None) matches Some(e) && e.winner == Some(other_color(side)) && e.reason
                == EndReason::Resign
        }),
{
    if move_of_text(usi) is Some {
        let mv = move_of_text(usi)->0;
        let next = after_move(g.rep.pos, mv);
        assert(next.turn == other_color(g.rep.pos.turn));
        crate::rules::law_game_ends(next);
    }
}

/// A forced list of attempts: the first acceptable one is played and each before it was a foul. Without
/// one, all are fouls, or as many as the side had left.
pub proof fn law_forced(s: ReplayedModel, order: Seq<Seq<char>>, i: int)
    requires
        0 <= i <= order.len(),
        s.fouls.len() == 2,
        s.fouls[counter(s.pos.turn)] < MAX_FOULS,
    ensures
        ({
            let r = forced_from(s, order, i);
            let left = MAX_FOULS - s.fouls[counter(s.pos.turn)];
            &&& i <= r.forced_fouls <= order.len() && r.forced_fouls - i <= left
            &&& forall|k: int|
                i <= k < r.forced_fouls ==> !accepted(s.pos, #[trigger] order[k])
            &&& r.played matches Some(usi) ==> r.forced_fouls < order.len() && usi
                == order[r.forced_fouls as int] && (move_of_text(usi) matches Some(mv) && legal(
                s.pos,
                mv,
            ) && r.rep.pos == after_move(s.pos, mv))
            &&& r.played is None ==> r.rep.pos == s.pos && (r.forced_fouls == order.len()
                || r.forced_fouls - i == left)
            &&& r.foul_limit <==> r.forced_fouls - i == left
            &&& r.foul_limit ==> r.played is None
            &&& r.rep.fouls[counter(s.pos.turn)] == s.fouls[counter(s.pos.turn)] + (r.forced_fouls - i)
        }),
    decreases order.len() - i,
{
    if i < order.len() && !accepted(s.pos, order[i]) {
        law_refused(s, order[i], ShogiMove::Drop { role: Role::Pawn, to: Coord { file: 1, rank: 1 } });
        let t = refused(s, order[i]);
        if t.fouls[counter(s.pos.turn)] < MAX_FOULS {
            law_forced(t, order, i + 1);
        }
    }
}

/// The attempts at the end of a log: behind anything but a foul there is none to add; a foul adds its own
/// while there is room, and one already found takes none.
pub proof fn law_tried_at_end(events: Seq<Event>, e: Event, n: int, found: Set<Seq<char>>, size: int)
    ensures
        tried_at_end(events.push(e), n, found, size) == (match e {
            Event::MyFoul { move_number, usi } => if size >= n {
                found
            } else if found.contains(usi) {
                tried_at_end(events, n, found, size)
            } else {
                tried_at_end(events, n, found.insert(usi), size + 1)
            },
            _ => found,
        }),
{
    assert(events.push(e).drop_last() =~= events);
    if let Event::MyFoul { move_number, usi } = e {
        if found.contains(usi) {
            assert(found.insert(usi) =~= found);
        }
    }
}

/// A scenario is named by its file where there is a slash in the name or it ends in `.kif`.
pub proof fn law_file_names(stem: Seq<char>, dir: Seq<char>, name: Seq<char>, s: Seq<char>)
    ensures
        names_file(stem + ".kif"@),
        names_file(dir + seq!['/'] + name),
        names_file(s) ==> s.contains('/') || ".kif"@.is_suffix_of(s),
{
    reveal_strlit(".kif");
    assert(".kif"@.len() == 4);
    let a = stem + ".kif"@;
    assert(a.skip(a.len() - 4) =~= ".kif"@);
    let b = dir + seq!['/'] + name;
    assert(b[dir.len() as int] == '/');
    if s.len() >= 4 && s.skip(s.len() - 4) == ".kif"@ {
        assert(s.subrange(s.len() - 4, s.len() as int) =~= ".kif"@);
    }
}

/// What a score says under a name is what stands there first; a later line of the name does not count.
pub proof fn law_directives(directives: Seq<(String, String)>, name: Seq<char>, i: int)
    ensures
        0 <= i < directives.len() && directives[i].0@ == name && (forall|k: int|
            0 <= k < i ==> (#[trigger] directives[k]).0@ != name) ==> directive_of(directives, name, 0)
            == Some(directives[i].1@),
        (forall|k: int| 0 <= k < directives.len() ==> (#[trigger] directives[k]).0@ != name)
            ==> directive_of(directives, name, 0) is None,
{
    if 0 <= i < directives.len() && directives[i].0@ == name && (forall|k: int|
        0 <= k < i ==> (#[trigger] directives[k]).0@ != name) {
        lemma_directive(directives, name, i, 0);
    }
    if forall|k: int| 0 <= k < directives.len() ==> (#[trigger] directives[k]).0@ != name {
        lemma_no_directive(directives, name, 0);
    }
}

proof fn lemma_directive(directives: Seq<(String, String)>, name: Seq<char>, i: int, n: int)
    requires
        0 <= n <= i < directives.len(),
        directives[i].0@ == name,
        forall|k: int| 0 <= k < i ==> (#[trigger] directives[k]).0@ != name,
    ensures
        directive_of(directives, name, n) == Some(directives[i].1@),
    decreases i - n,
{
    if n < i {
        assert(directives[n].0@ != name);
        lemma_directive(directives, name, i, n + 1);
    }
}

proof fn lemma_no_directive(directives: Seq<(String, String)>, name: Seq<char>, n: int)
    requires
        0 <= n <= directives.len(),
        forall|k: int| 0 <= k < directives.len() ==> (#[trigger] directives[k]).0@ != name,
    ensures
        directive_of(directives, name, n) is None,
    decreases directives.len() - n,
{
    if n < directives.len() {
        assert(directives[n].0@ != name);
        lemma_no_directive(directives, name, n + 1);
    }
}

/// A text without a comma is one part, and a part put behind a comma is one part more.
pub proof fn law_comma_parts(s: Seq<char>, t: Seq<char>)
    requires
        !t.contains(','),
    ensures
        comma_parts(t) == seq![t],
        comma_parts(s + seq![','] + t) == comma_parts(s).push(t),
        comma_parts(s).len() > 0,
    decreases t.len(),
{
    lemma_parts_some(s);
    if t.len() == 0 {
        assert(t =~= Seq::empty());
        assert(comma_parts(t) =~= seq![t]);
        assert(s + seq![','] + t =~= s.push(','));
        assert(s.push(',').drop_last() =~= s);
    } else {
        let head = t.drop_last();
        let c = t.last();
        assert(t[t.len() - 1] == c);
        assert(t.contains(c));
        assert forall|x: char| head.contains(x) implies t.contains(x) by {
            let k = choose|k: int| 0 <= k < head.len() && head[k] == x;
            assert(t[k] == x);
        }
        law_comma_parts(s, head);
        assert(comma_parts(t) =~= seq![t]) by {
            assert(head.push(c) =~= t);
        }
        let whole = s + seq![','] + t;
        assert(whole.drop_last() =~= s + seq![','] + head);
        assert(whole.last() == c);
        assert(head.push(c) =~= t);
        assert(comma_parts(whole) =~= comma_parts(s).push(t));
    }
}

proof fn lemma_parts_some(s: Seq<char>)
    ensures
        comma_parts(s).len() > 0,
    decreases s.len(),
{
    if s.len() > 0 {
        lemma_parts_some(s.drop_last());
    }
}

/// What a text lists are its parts with something besides white space in them, trimmed.
pub proof fn law_comma_list(s: Seq<char>, x: Seq<char>)
    ensures
        comma_list(s).contains(x) <==> x.len() > 0 && exists|i: int|
            0 <= i < comma_parts(s).len() && trimmed(#[trigger] comma_parts(s)[i]) == x,
{
    let cut = comma_parts(s).map_values(|p: Seq<char>| trimmed(p));
    lemma_filter_contains_iff(cut, |p: Seq<char>| p.len() > 0, x);
    if cut.contains(x) {
        let i = choose|i: int| 0 <= i < cut.len() && cut[i] == x;
        assert(trimmed(comma_parts(s)[i]) == x);
    }
    if exists|i: int| 0 <= i < comma_parts(s).len() && trimmed(#[trigger] comma_parts(s)[i]) == x {
        let i = choose|i: int| 0 <= i < comma_parts(s).len() && trimmed(#[trigger] comma_parts(s)[i]) == x;
        assert(cut[i] == x);
    }
}

proof fn lemma_first_bad(texts: Seq<Seq<char>>, n: int)
    requires
        0 <= n <= texts.len(),
    ensures
        match first_bad(texts, n) {
            Some(i) => n <= i < texts.len() && crate::board::square_of_text(texts[i]) is None && forall|k: int|
                n <= k < i ==> crate::board::square_of_text(#[trigger] texts[k]) is Some,
            None => forall|k: int|
                n <= k < texts.len() ==> crate::board::square_of_text(#[trigger] texts[k]) is Some,
        },
    decreases texts.len() - n,
{
    if n < texts.len() {
        lemma_first_bad(texts, n + 1);
    }
}

/// A score makes a scenario where a number of moves is asked for or given that it has, and every square
/// to look at is one.
pub proof fn law_faults(plies: int, directives: Seq<(String, String)>, flags: Flags)
    requires
        0 <= plies <= usize::MAX,
        chosen_squares(directives, flags.diag).len() <= usize::MAX,
    ensures
        ({
            let squares = chosen_squares(directives, flags.diag);
            let asked = if flags.ply is Some {
                flags.ply
            } else {
                count_of(directive_of(directives, "ply"@, 0))
            };
            let fault = scenario_fault(plies, directives, flags);
            &&& fault is None <==> asked is Some && asked->0 <= plies && forall|k: int|
                0 <= k < squares.len() ==> crate::board::square_of_text(#[trigger] squares[k]) is Some
            &&& fault == Some(ScenarioError::NoPly) <==> asked is None
            &&& fault matches Some(ScenarioError::BeyondScore { ply, plies: n }) ==> asked == Some(ply)
                && n == plies && ply > n
            &&& fault matches Some(ScenarioError::BadSquare { place }) ==> asked is Some && asked->0
                <= plies && place < squares.len() && crate::board::square_of_text(
                squares[place as int],
            ) is None
        }),
{
    lemma_first_bad(chosen_squares(directives, flags.diag), 0);
}

/// What is asked for counts before what the score says, and that before what follows from the score.
pub proof fn law_choice_of_settings(
    plies: Seq<Ply>,
    directives: Seq<(String, String)>,
    flag: Option<String>,
    ply: usize,
)
    requires
        ply < usize::MAX,
    ensures
        chosen_ply(directives, Some(ply)) == Some(ply),
        flag matches Some(t) ==> chosen_target(plies, directives, flag, ply as int) == t@
            && chosen_squares(directives, flag) == comma_list(t@),
        flag is None ==> match directive_of(directives, "target"@, 0) {
            Some(t) => chosen_target(plies, directives, flag, ply as int) == t,
            None => ply < plies.len() ==> move_of_text(
                chosen_target(plies, directives, flag, ply as int),
            ) == move_of_text(text_of_move(plies[ply as int].mv)),
        },
        flag is None && directive_of(directives, "target"@, 0) is None && ply >= plies.len()
            ==> chosen_target(plies, directives, flag, ply as int).len() == 0,
        flag is None ==> match directive_of(directives, "diag"@, 0) {
            Some(t) => chosen_squares(directives, flag) == comma_list(t),
            None => chosen_squares(directives, flag).len() == 0,
        },
        match directive_of(directives, "limit"@, 0) {
            Some(t) => match number_of(t) {
                Some(n) => chosen_limit(directives) == n || (n > u32::MAX && chosen_limit(directives)
                    == 200),
                None => chosen_limit(directives) == 200,
            },
            None => chosen_limit(directives) == 200,
        },
        match (directive_of(directives, "desc"@, 0), count_of(directive_of(directives, "ply"@, 0))) {
            (Some(t), Some(n)) => if n == ply {
                chosen_desc(directives, ply) == t
            } else {
                crate::text::decimal(ply as nat).is_prefix_of(chosen_desc(directives, ply))
            },
            _ => crate::text::decimal(ply as nat).is_prefix_of(chosen_desc(directives, ply)),
        },
{
    assert(crate::text::decimal(ply as nat).is_prefix_of(
        crate::text::decimal(ply as nat) + "手目まで再生し、"@ + crate::text::decimal((ply + 1) as nat)
            + "手目を考えさせる"@,
    ));
}

/// A tally in order lists the same texts with the same counts, the frequent ones first.
pub proof fn law_tally_in_order(t: Seq<(Seq<char>, u32)>, i: int, j: int)
    ensures
        by_count(t).to_multiset() == t.to_multiset(),
        by_count(t).len() == t.len(),
        0 <= i < j < t.len() ==> by_count(t)[i].1 >= by_count(t)[j].1,
{
    let le = |a: (Seq<char>, u32), b: (Seq<char>, u32)| a.1 >= b.1;
    lemma_sorted_by_keeps(t, le);
    lemma_sorted_by_orders(t, le);
    crate::lists::lemma_sorted_by_len(t, le);
    if 0 <= i < j < t.len() {
        assert(le(crate::lists::sorted_by(t, le)[i], crate::lists::sorted_by(t, le)[j]));
    }
}

/// A trial ends with the first legal choice, with giving up, or with the foul that is one too many; any
/// other foul is noted, counted for the side to move, and the turn goes on.
pub proof fn law_trials(t: TrialModel, pos: PositionModel, usi: Seq<char>, x: Seq<char>)
    requires
        t.fouls.len() == 2,
        t.fouls[counter(pos.turn)] < u32::MAX,
    ensures
        ({
            let fits = move_of_text(usi) matches Some(mv) && legal(pos, mv);
            let next = trial_after(t, pos, Some(usi));
            let end = trial_end(t, pos, Some(usi));
            &&& fits ==> next == t && end == Some(usi)
            &&& !fits ==> {
                &&& next.fouls[counter(pos.turn)] == t.fouls[counter(pos.turn)] + 1
                &&& next.fouls[1 - counter(pos.turn)] == t.fouls[1 - counter(pos.turn)]
                &&& next.events == t.events.push(Event::MyFoul { move_number: pos.move_number, usi })
                &&& next.tried.contains(x) <==> x == usi || t.tried.contains(x)
                &&& next.foul_seq == t.foul_seq.push(usi)
                &&& end is Some <==> t.fouls[counter(pos.turn)] + 1 >= MAX_FOULS
                &&& end is Some ==> end->0 == "foul_limit"@
            }
        }),
        trial_after(t, pos, None) == t,
        trial_end(t, pos, None) == Some("resign"@),
{
}

/// A square is attacked where some piece of the side attacks it, and the king counts only where asked for.
pub proof fn law_attacks_are_counted(pos: PositionModel, side: Color, sq: Coord, with_king: bool)
    requires
        pos.wf(),
    ensures
        attack_count(pos, side, sq, with_king) > 0 <==> exists|c: Coord|
            is_on_board(c) && #[trigger] attacks_from(pos, c, sq) && (pos.at(c) matches Some(p)
                && p.color == side && (p.role != Role::King || with_king)),
        attack_count(pos, side, sq, false) <= attack_count(pos, side, sq, true),
{
    let all = piece_list(pos);
    let hit = |x: (Coord, Piece)| counts_for(pos, side, sq, with_king, x);
    let kept = all.filter(hit);
    if kept.len() > 0 {
        assert(kept.contains(kept[0]));
        lemma_filter_contains_iff(all, hit, kept[0]);
        let n = choose|n: int| 0 <= n < all.len() && all[n] == kept[0];
        crate::check_economy::lemma_piece_list(pos, n);
        assert(attacks_from(pos, kept[0].0, sq));
    }
    if exists|c: Coord|
        is_on_board(c) && #[trigger] attacks_from(pos, c, sq) && (pos.at(c) matches Some(p) && p.color
            == side && (p.role != Role::King || with_king)) {
        let c = choose|c: Coord|
            is_on_board(c) && #[trigger] attacks_from(pos, c, sq) && (pos.at(c) matches Some(p)
                && p.color == side && (p.role != Role::King || with_king));
        let n = crate::check_economy::lemma_piece_listed(pos, c);
        let x = (c, pos.at(c)->0);
        assert(all[n] == x);
        assert(all.contains(x));
        lemma_filter_contains_iff(all, hit, x);
    }
    crate::lists::lemma_filter_fewer(
        all,
        |x: (Coord, Piece)| counts_for(pos, side, sq, false, x),
        |x: (Coord, Piece)| counts_for(pos, side, sq, true, x),
    );
}

/// A text on one line is as long, has a blank for each line end, and is otherwise the same.
pub proof fn law_one_line(s: Seq<char>, i: int)
    requires
        0 <= i < s.len(),
    ensures
        one_line(s).len() == s.len(),
        one_line(s)[i] != '\n',
        s[i] != '\n' ==> one_line(s)[i] == s[i],
        s[i] == '\n' ==> one_line(s)[i] == ' ',
{
}

/// The other moves are those that are not the one looked out for: all of them up to three, in order.
pub proof fn law_others(t: Seq<(Seq<char>, u32)>, target: Seq<char>, x: (Seq<char>, u32))
    ensures
        others_of(t, target).contains(x) ==> t.contains(x) && x.0 != target,
        others_of(t, target).len() <= 3,
        others_of(t, target).len() < 3 && t.contains(x) && x.0 != target ==> others_of(
            t,
            target,
        ).contains(x),
        others_of(t, target).is_prefix_of(t.filter(|e: (Seq<char>, u32)| is_other(e, target))),
{
    let good = |e: (Seq<char>, u32)| is_other(e, target);
    let rest = t.filter(good);
    lemma_filter_contains_iff(t, good, x);
    let out = others_of(t, target);
    if out.contains(x) {
        let i = choose|i: int| 0 <= i < out.len() && out[i] == x;
        assert(rest[i] == x);
    }
}

/// An argument that is no flag stays among the others in its order; a flag takes the next argument as its
/// value, and a later one of a kind counts.
pub proof fn law_flags(args: Seq<Seq<char>>, i: int, found: FlagsModel)
    requires
        0 <= i < args.len(),
    ensures
        args[i] != "--ply"@ && args[i] != "--target"@ && args[i] != "--diag"@ ==> flags_from(args, i, found)
            == flags_from(args, i + 1, FlagsModel { rest: found.rest.push(args[i]), ..found }),
        args[i] == "--ply"@ && i + 1 < args.len() && (number_of(args[i + 1]) matches Some(n) && n
            <= usize::MAX) ==> flags_from(args, i, found) == flags_from(
            args,
            i + 2,
            FlagsModel { ply: Some(number_of(args[i + 1])->0 as usize), ..found },
        ),
        args[i] == "--target"@ && i + 1 < args.len() && move_of_text(args[i + 1]) is Some ==> flags_from(
            args,
            i,
            found,
        ) == flags_from(args, i + 2, FlagsModel { target: Some(args[i + 1]), ..found }),
        args[i] == "--diag"@ && i + 1 < args.len() ==> flags_from(args, i, found) == flags_from(
            args,
            i + 2,
            FlagsModel { diag: Some(args[i + 1]), ..found },
        ),
        (args[i] == "--ply"@ || args[i] == "--target"@ || args[i] == "--diag"@) && i + 1 == args.len()
            ==> flags_from(args, i, found) is Err,
        args[i] == "--ply"@ && i + 1 < args.len() && number_of(args[i + 1]) is None ==> flags_from(
            args,
            i,
            found,
        ) is Err,
        args[i] == "--target"@ && i + 1 < args.len() && move_of_text(args[i + 1]) is None ==> flags_from(
            args,
            i,
            found,
        ) is Err,
        flags_from(args, args.len() as int, found) == Ok::<FlagsModel, crate::scenario::FlagError>(found),
{
    reveal_strlit("--ply");
    reveal_strlit("--target");
    reveal_strlit("--diag");
    assert("--ply"@.len() == 5 && "--target"@.len() == 8 && "--diag"@.len() == 6);
}

/// A mark is borne out where an enemy piece of one of its roles stands on its square.
pub proof fn law_marks(m: PositionModel, opp: Color, mark: Mark, role: Role)
    ensures
        m.at(mark.square) is None ==> !bears_out(m, opp, mark),
        m.at(mark.square) == Some(Piece { color: opp, role }) ==> (bears_out(m, opp, mark)
            <==> mark.roles@.contains(role)),
        m.at(mark.square) == Some(Piece { color: other_color(opp), role }) ==> !bears_out(m, opp, mark),
{
}

/// A count of cases grows by one with each that holds, as far as the counter goes.
pub proof fn law_cases(n: u32)
    ensures
        plus_if(n, false) == n,
        n < u32::MAX ==> plus_if(n, true) == n + 1,
{
}

/// A side has a piece of a role on the board where the count of the role is not zero.
pub proof fn law_role_counts(m: PositionModel, color: Color, role: Role)
    requires
        m.wf(),
    ensures
        role_count(m, color, role) > 0 <==> exists|c: Coord|
            is_on_board(c) && #[trigger] m.at(c) == Some(Piece { color, role }),
{
    let all = piece_list(m);
    let hit = |x: (Coord, Piece)| x.1 == (Piece { color, role });
    let kept = all.filter(hit);
    if kept.len() > 0 {
        assert(kept.contains(kept[0]));
        lemma_filter_contains_iff(all, hit, kept[0]);
        let n = choose|n: int| 0 <= n < all.len() && all[n] == kept[0];
        crate::check_economy::lemma_piece_list(m, n);
        assert(m.at(kept[0].0) == Some(Piece { color, role }));
    }
    if exists|c: Coord| is_on_board(c) && #[trigger] m.at(c) == Some(Piece { color, role }) {
        let c = choose|c: Coord| is_on_board(c) && #[trigger] m.at(c) == Some(Piece { color, role });
        let n = crate::check_economy::lemma_piece_listed(m, c);
        let x = (c, Piece { color, role });
        assert(all[n] == x);
        assert(all.contains(x));
        lemma_filter_contains_iff(all, hit, x);
    }
}

/// A game gives two halves of a point, to the winner or one to each side.
pub proof fn law_points(winner: Option<Color>, side: Color)
    ensures
        halves_for(winner, side) + halves_for(winner, other_color(side)) == 2,
        halves_for(Some(side), side) == 2,
        halves_for(None, side) == 1,
{
}

/// A game is broken off where its last move has been made, without a winner; before that it goes on.
pub proof fn law_broken_off(g: GameState)
    ensures
        broken_off(g) is None <==> g.limit > g.rep.plies,
        broken_off(g) matches Some(e) ==> e.winner is None && e.reason == EndReason::Limit,
{
}

/// The strategy thinks before its own attempts and before nothing else.
pub proof fn law_thinks_before(e: Event)
    ensures
        crate::scenario::thinks_before(e) <==> match e {
            Event::MyMove { move_number, usi, captured } => true,
            Event::MyFoul { move_number, usi } => true,
            Event::OpponentMoved { move_number, captured_at } => false,
            Event::OpponentFoul { count } => false,
            Event::Check { in_check } => false,
        },
{
}

/// Texts that were counted as often stand in the order in which they were met.
pub proof fn law_tally_keeps_ties(t: Seq<(Seq<char>, u32)>, n: u32)
    ensures
        by_count(t).filter(|e: (Seq<char>, u32)| e.1 == n) == t.filter(|e: (Seq<char>, u32)| e.1 == n),
{
    lemma_sorted_by_stable(
        t,
        |a: (Seq<char>, u32), b: (Seq<char>, u32)| a.1 >= b.1,
        |e: (Seq<char>, u32)| e.1 == n,
    );
}

} // verus!
