//! What a replayed game tells each side, and in which order its records are used.

use crate::board::square_text;
use crate::lists::lemma_filter_push;
use crate::observation::Event;
use crate::protocol::{other_color, promoted, Color, FoulRecord, MoveRecord, Role};
use crate::replay::{
    by_number, foul_events, foul_is_next, move_taken, placed, truth_run, turn_fouls, SideEvents,
    TruthState,
};
use crate::shogi::{after_move, checked, legal, move_of_text, text_of_move, ShogiMove};
use vstd::prelude::*;

verus! {

/// A foul is one event for each side: the side that tried learns its own attempt and the number of the
/// turn, the other side how many fouls there are now. What was told before stays.
pub proof fn law_news_of_a_foul(
    logs: SideEvents,
    side: Color,
    usi: Seq<char>,
    move_number: u32,
    count: u32,
)
    ensures
        foul_events(logs, side, usi, move_number, count).of(side) == logs.of(side).push(
            Event::MyFoul { move_number, usi },
        ),
        foul_events(logs, side, usi, move_number, count).of(other_color(side)) == logs.of(
            other_color(side),
        ).push(Event::OpponentFoul { count }),
{
}

/// An accepted move tells the mover its own move and what went to its hand, the other side only that
/// there was a move, and where it lost a piece. A check is told to both.
pub proof fn law_news_of_a_move(s: TruthState, mv: ShogiMove)
    requires
        s.pos.wf(),
        legal(s.pos, mv),
    ensures
        ({
            let side = s.pos.turn;
            let t = move_taken(s, mv);
            let mine = t.logs.of(side);
            let theirs = t.logs.of(other_color(side));
            let n = s.logs.of(side).len() as int;
            let m = s.logs.of(other_color(side)).len() as int;
            let told: int = if checked(t.pos, other_color(side)) {
                2
            } else {
                1
            };
            &&& t.pos == after_move(s.pos, mv) && t.fouls == s.fouls && t.used == s.used
            &&& mine.len() == n + told && theirs.len() == m + told
            &&& mine.take(n) == s.logs.of(side) && theirs.take(m) == s.logs.of(other_color(side))
            &&& mine[n] matches Event::MyMove { move_number, usi, captured } && move_number
                == t.pos.move_number && usi == text_of_move(mv)
            &&& theirs[m] matches Event::OpponentMoved { move_number, captured_at } && move_number
                == t.pos.move_number
            &&& told == 2 ==> mine[n + 1] == (Event::Check { in_check: other_color(side) })
            &&& told == 2 ==> theirs[m + 1] == (Event::Check { in_check: other_color(side) })
        }),
{
    let side = s.pos.turn;
    let t = move_taken(s, mv);
    assert(t.pos.turn == other_color(side));
    assert(t.logs.of(side).take(s.logs.of(side).len() as int) =~= s.logs.of(side));
    assert(t.logs.of(other_color(side)).take(s.logs.of(other_color(side)).len() as int)
        =~= s.logs.of(other_color(side)));
}

/// A capture is told to both sides: the role that goes to the mover's hand, and to the other side the
/// square of its loss. A move without a capture tells of none.
pub proof fn law_news_of_a_capture(s: TruthState, mv: ShogiMove)
    requires
        s.pos.wf(),
        legal(s.pos, mv),
    ensures
        ({
            let side = s.pos.turn;
            let t = move_taken(s, mv);
            let mine = t.logs.of(side)[s.logs.of(side).len() as int];
            let theirs = t.logs.of(other_color(side))[s.logs.of(other_color(side)).len() as int];
            match mv {
                ShogiMove::Drop { role, to } => mine->captured is None && theirs->captured_at is None,
                ShogiMove::Board { from, to, promote } => match s.pos.at(to) {
                    None => mine->captured is None && theirs->captured_at is None,
                    Some(p) => {
                        &&& theirs->captured_at == Some(square_text(to))
                        &&& mine->captured matches Some(held) && (promoted(held) == Some(p.role) || (
                        held == p.role && forall|r: Role| promoted(r) != Some(p.role)))
                    },
                },
            }
        }),
{
    let side = s.pos.turn;
    let t = move_taken(s, mv);
    assert(t.pos.turn == other_color(side));
    if let ShogiMove::Board { from, to, promote } = mv {
        if let Some(p) = s.pos.at(to) {
            assert(promoted(Role::Pawn) == Some(Role::Tokin));
            assert(promoted(Role::Lance) == Some(Role::Promotedlance));
            assert(promoted(Role::Knight) == Some(Role::Promotedknight));
            assert(promoted(Role::Silver) == Some(Role::Promotedsilver));
            assert(promoted(Role::Bishop) == Some(Role::Horse));
            assert(promoted(Role::Rook) == Some(Role::Dragon));
        }
    }
}

proof fn lemma_placed(sorted: Seq<FoulRecord>, f: FoulRecord, n: u32)
    requires
        forall|i: int, j: int|
            0 <= i < j < sorted.len() ==> (#[trigger] sorted[i]).move_number <= (
            #[trigger] sorted[j]).move_number,
    ensures
        ({
            let p = placed(sorted, f);
            &&& p.len() == sorted.len() + 1
            &&& forall|i: int, j: int|
                0 <= i < j < p.len() ==> (#[trigger] p[i]).move_number <= (
                #[trigger] p[j]).move_number
            &&& forall|i: int|
                0 <= i < p.len() ==> (#[trigger] p[i]).move_number <= f.move_number || (sorted.len()
                    > 0 && p[i].move_number <= sorted.last().move_number)
            &&& p.filter(|x: FoulRecord| x.move_number == n) == sorted.push(f).filter(
                |x: FoulRecord| x.move_number == n,
            )
            &&& p.to_multiset() == sorted.push(f).to_multiset()
        }),
    decreases sorted.len(),
{
    broadcast use vstd::seq_lib::group_to_multiset_ensures;

    let p = placed(sorted, f);
    let of = |x: FoulRecord| x.move_number == n;
    if sorted.len() == 0 || sorted.last().move_number <= f.move_number {
    } else {
        let head = sorted.drop_last();
        let last = sorted.last();
        lemma_placed(head, f, n);
        let q = placed(head, f);
        assert(p == q.push(last));
        assert forall|i: int| 0 <= i < q.len() implies (#[trigger] q[i]).move_number
            <= last.move_number by {
            if head.len() > 0 {
                assert(sorted[head.len() - 1].move_number <= sorted[head.len() as int].move_number);
            }
        }
        lemma_filter_push(q, last, of);
        lemma_filter_push(head.push(f), last, of);
        lemma_filter_push(head, f, of);
        lemma_filter_push(head, last, of);
        assert(head.push(last) =~= sorted);
        lemma_filter_push(sorted, f, of);
        assert(p.to_multiset() =~= q.to_multiset().insert(last));
        assert(sorted.to_multiset() =~= head.to_multiset().insert(last));
        assert(sorted.push(f).to_multiset() =~= sorted.to_multiset().insert(f));
        assert(head.push(f).to_multiset() =~= head.to_multiset().insert(f));
    }
}

/// The foul records are put in the order of their move numbers: none is lost or added, and those of one
/// number keep the order in which they were recorded.
pub proof fn law_records_by_number(fouls: Seq<FoulRecord>, n: u32)
    ensures
        ({
            let sorted = by_number(fouls);
            &&& sorted.to_multiset() == fouls.to_multiset()
            &&& forall|i: int, j: int|
                0 <= i < j < sorted.len() ==> (#[trigger] sorted[i]).move_number <= (
                #[trigger] sorted[j]).move_number
            &&& sorted.filter(|x: FoulRecord| x.move_number == n) == fouls.filter(
                |x: FoulRecord| x.move_number == n,
            )
        }),
    decreases fouls.len(),
{
    broadcast use vstd::seq_lib::group_to_multiset_ensures;

    let of = |x: FoulRecord| x.move_number == n;
    if fouls.len() > 0 {
        let head = fouls.drop_last();
        let last = fouls.last();
        law_records_by_number(head, n);
        lemma_placed(by_number(head), last, n);
        lemma_filter_push(by_number(head), last, of);
        lemma_filter_push(head, last, of);
        assert(head.push(last) =~= fouls);
    }
}

/// The fouls of a turn are the next records of the side to move under the number of the turn, all of
/// them. The position stays, the count of the side grows with each, that of the other does not.
pub proof fn law_fouls_of_a_turn(s: TruthState, records: Seq<FoulRecord>)
    requires
        0 <= s.used <= records.len(),
        s.fouls.len() == 2,
    ensures
        ({
            let t = turn_fouls(s, records);
            let mine: int = if s.pos.turn == Color::Sente {
                0
            } else {
                1
            };
            let taken = t.used - s.used;
            &&& t.pos == s.pos
            &&& s.used <= t.used <= records.len()
            &&& forall|i: int|
                s.used <= i < t.used ==> (#[trigger] records[i]).move_number == s.pos.move_number
                    && records[i].by_color == s.pos.turn
            &&& t.used < records.len() ==> records[t.used].move_number != s.pos.move_number
                || records[t.used].by_color != s.pos.turn
            &&& t.fouls.len() == 2 && t.fouls[1 - mine] == s.fouls[1 - mine]
            &&& s.fouls[mine] + taken <= u32::MAX ==> t.fouls[mine] == s.fouls[mine] + taken
            &&& t.logs.of(s.pos.turn).len() == s.logs.of(s.pos.turn).len() + taken
            &&& t.logs.of(other_color(s.pos.turn)).len() == s.logs.of(other_color(s.pos.turn)).len()
                + taken
            &&& forall|i: int|
                0 <= i < taken ==> (#[trigger] t.logs.of(s.pos.turn)[s.logs.of(s.pos.turn).len() + i])
                    == (Event::MyFoul {
                    move_number: s.pos.move_number,
                    usi: records[s.used + i].usi@,
                })
            &&& forall|i: int|
                0 <= i < s.logs.of(s.pos.turn).len() ==> (#[trigger] t.logs.of(s.pos.turn)[i])
                    == s.logs.of(s.pos.turn)[i]
        }),
    decreases records.len() - s.used,
{
    if foul_is_next(s, records) {
        let next = crate::replay::foul_taken(s, records[s.used]);
        law_fouls_of_a_turn(next, records);
        let t = turn_fouls(s, records);
        let side = s.pos.turn;
        let n = s.logs.of(side).len();
        assert(next.logs.of(side)[n as int] == (Event::MyFoul {
            move_number: s.pos.move_number,
            usi: records[s.used].usi@,
        }));
        assert forall|i: int| 0 <= i < t.used - s.used implies (#[trigger] t.logs.of(side)[n + i]) == (
        Event::MyFoul { move_number: s.pos.move_number, usi: records[s.used + i].usi@ }) by {
            if i == 0 {
                assert(t.logs.of(side)[n as int] == next.logs.of(side)[n as int]);
            } else {
                assert(t.logs.of(side)[next.logs.of(side).len() + (i - 1)] == (Event::MyFoul {
                    move_number: s.pos.move_number,
                    usi: records[next.used + (i - 1)].usi@,
                }));
            }
        }
        assert forall|i: int| 0 <= i < n implies (#[trigger] t.logs.of(side)[i]) == s.logs.of(
            side,
        )[i] by {
            assert(t.logs.of(side)[i] == next.logs.of(side)[i]);
        }
    }
}

/// A replay that gets through its moves has one decision for each: that of the side which made it, in
/// the position where it was made, with the fouls of the turn already known. The record is a legal
/// move there.
pub proof fn law_decisions(moves: Seq<MoveRecord>, records: Seq<FoulRecord>, k: int, i: int)
    requires
        0 <= i < k <= moves.len(),
        truth_run(moves, records, k).ok,
        k < u32::MAX,
    ensures
        ({
            let r = truth_run(moves, records, k);
            let d = r.decisions[i];
            &&& r.decisions.len() == k
            &&& d.plies == i
            &&& d.side == d.pos.turn && d.side == moves[i].by_color
            &&& d.side == (if i % 2 == 0 {
                Color::Sente
            } else {
                Color::Gote
            })
            &&& d.pos == truth_run(moves, records, i).state.pos
            &&& move_of_text(moves[i].usi@) matches Some(mv) && legal(d.pos, mv) && after_move(
                d.pos,
                mv,
            ) == truth_run(moves, records, i + 1).state.pos
        }),
    decreases k,
{
    let r = truth_run(moves, records, k - 1);
    let s = turn_fouls(r.state, records);
    lemma_turn_keeps(r.state, records);
    lemma_sides_alternate(moves, records, k - 1);
    if i < k - 1 {
        law_decisions(moves, records, k - 1, i);
    } else if k > 1 {
        law_decisions(moves, records, k - 1, 0);
    }
}

proof fn lemma_turn_keeps(s: TruthState, records: Seq<FoulRecord>)
    ensures
        turn_fouls(s, records).pos == s.pos,
    decreases records.len() - s.used,
{
    if foul_is_next(s, records) {
        lemma_turn_keeps(crate::replay::foul_taken(s, records[s.used]), records);
    }
}

proof fn lemma_sides_alternate(moves: Seq<MoveRecord>, records: Seq<FoulRecord>, k: int)
    requires
        0 <= k <= moves.len(),
        truth_run(moves, records, k).ok,
    ensures
        truth_run(moves, records, k).state.pos.turn == (if k % 2 == 0 {
            Color::Sente
        } else {
            Color::Gote
        }),
    decreases k,
{
    if k > 0 {
        let r = truth_run(moves, records, k - 1);
        lemma_sides_alternate(moves, records, k - 1);
        lemma_turn_keeps(r.state, records);
    }
}

} // verus!
