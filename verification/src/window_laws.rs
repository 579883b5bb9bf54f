//! What the search through a window of a game takes into account: which pieces can have come to a square,
//! what explains a capture, and what each side learns of the other's moves.

use crate::board::{is_on_board, Coord};
use crate::kifu::{Ply, RawFoul};
use crate::lists::{lemma_filter_contains_iff, lemma_flat_map_contains, lemma_sorted_by_orders};
use crate::protocol::{other_color, promoted, unpromoted, Color, Role};
use crate::reach::{least, out_of_reach, reaches, sees};
use crate::scenario::{count_of, directive_of};
use crate::shogi::{
    after_move, attacks_from, checked, king_of, piece_list, Piece, PositionModel, ShogiMove,
};
use crate::window_search::{
    arrival_as, arrivals_of, attack_post, attackers_of, capture_stretch, combined, defender_at, explained_by,
    explanations, king_refused, learnt, lemma_attackers, movers_of, not_behind, own_side, place_on, raw_fact,
    replaced, search_step, side_of, side_searching, tempo, tried, without, ArrivalModel, FactModel, OppModel,
    RawFactModel, SearchModel,
};
use vstd::prelude::*;
use vstd::string::*;

verus! {

/// A piece of the opponent comes to a square in time, as it is or promoted on its way: the number of moves
/// is the least that brings it there, and where a role was taken there the piece is of that role.
pub open spec fn comes_as(
    st: OppModel,
    opp: Color,
    target: Coord,
    budget: u32,
    required: Option<Role>,
    p: int,
    up: bool,
    a: ArrivalModel,
) -> bool {
    let role = st.board[p].1;
    &&& 0 <= p < st.board.len()
    &&& up ==> promoted(role) is Some
    &&& required is Some ==> unpromoted(role) == required->0
    &&& a.tempo <= budget
    &&& reaches(role, opp, st.board[p].0, (target, up), a.tempo as nat)
    &&& forall|k: nat| #![trigger reaches(role, opp, st.board[p].0, (target, up), k)]
        reaches(role, opp, st.board[p].0, (target, up), k) ==> a.tempo <= k
    &&& a.state == replaced(
        st,
        p,
        target,
        if up {
            promoted(role)->0
        } else {
            role
        },
    )
    &&& a.place == place_on(a.state.board, target, 0)
}

proof fn lemma_least(role: Role, opp: Color, from: Coord, to: (Coord, bool), budget: u32, n: nat)
    requires
        n <= budget,
        reaches(role, opp, from, to, n),
    ensures
        exists|k: u32| k <= budget && #[trigger] least(role, opp, from, to, k as nat),
    decreases n,
{
    if exists|k: nat| k < n && #[trigger] reaches(role, opp, from, to, k) {
        let k = choose|k: nat| k < n && #[trigger] reaches(role, opp, from, to, k);
        lemma_least(role, opp, from, to, budget, k);
    } else {
        assert(least(role, opp, from, to, n));
        assert(least(role, opp, from, to, (n as u32) as nat));
    }
}

proof fn lemma_tempo_is_least(
    role: Role,
    opp: Color,
    from: Coord,
    to: Coord,
    arrive_promoted: bool,
    budget: u32,
)
    requires
        !(crate::kifu::is_promoted(role) && !arrive_promoted),
    ensures
        ({
            let way = arrive_promoted && !crate::kifu::is_promoted(role);
            match tempo(role, opp, from, to, arrive_promoted, budget) {
                Some(d) => d <= budget && least(role, opp, from, (to, way), d as nat),
                None => out_of_reach(role, opp, from, (to, way), budget as int),
            }
        }),
{
    let way = arrive_promoted && !crate::kifu::is_promoted(role);
    if !out_of_reach(role, opp, from, (to, way), budget as int) {
        let n = choose|n: nat| n <= budget as int && #[trigger] reaches(role, opp, from, (to, way), n);
        lemma_least(role, opp, from, (to, way), budget, n);
    }
}

proof fn lemma_arrival(
    st: OppModel,
    opp: Color,
    target: Coord,
    budget: u32,
    required: Option<Role>,
    p: int,
    a: ArrivalModel,
)
    requires
        0 <= p < st.board.len(),
    ensures
        arrivals_of(st, opp, target, budget, required, p).contains(a) <==> comes_as(
            st,
            opp,
            target,
            budget,
            required,
            p,
            false,
            a,
        ) || comes_as(st, opp, target, budget, required, p, true, a),
{
    let role = st.board[p].1;
    let from = st.board[p].0;
    let list = arrivals_of(st, opp, target, budget, required, p);
    lemma_tempo_is_least(role, opp, from, target, crate::kifu::is_promoted(role), budget);
    lemma_tempo_is_least(role, opp, from, target, true, budget);
    let plain = arrival_as(st, opp, target, budget, p, crate::kifu::is_promoted(role), role);
    let fits = required is Some ==> unpromoted(role) == required->0;
    if list.contains(a) {
        let n = choose|n: int| 0 <= n < list.len() && list[n] == a;
        if fits && n < plain.len() {
            assert(a == plain[0]);
            assert(comes_as(st, opp, target, budget, required, p, false, a));
        } else {
            let up = promoted(role)->0;
            assert(promoted(role) is Some);
            assert(a == arrival_as(st, opp, target, budget, p, true, up)[0]);
            assert(comes_as(st, opp, target, budget, required, p, true, a));
        }
    }
    if comes_as(st, opp, target, budget, required, p, false, a) {
        assert(!out_of_reach(role, opp, from, (target, false), budget as int));
        let d = tempo(role, opp, from, target, crate::kifu::is_promoted(role), budget)->0;
        assert(least(role, opp, from, (target, false), d as nat));
        assert(reaches(role, opp, from, (target, false), d as nat));
        assert(a.tempo == d);
        assert(plain[0] == a);
        assert(list[0] == a);
    }
    if comes_as(st, opp, target, budget, required, p, true, a) {
        assert(!out_of_reach(role, opp, from, (target, true), budget as int));
        let up = promoted(role)->0;
        let d = tempo(role, opp, from, target, true, budget)->0;
        assert(least(role, opp, from, (target, true), d as nat));
        assert(reaches(role, opp, from, (target, true), d as nat));
        assert(a.tempo == d);
        let part = arrival_as(st, opp, target, budget, p, true, up);
        assert(part[0] == a);
        assert(list[list.len() - 1] == a);
    }
}

/// The pieces that can have come to a square are exactly those that can be there in time.
pub proof fn law_arrivals(
    st: OppModel,
    opp: Color,
    target: Coord,
    budget: u32,
    required: Option<Role>,
    a: ArrivalModel,
)
    ensures
        movers_of(st, opp, target, budget, required).contains(a) <==> exists|p: int, up: bool|
            #[trigger] comes_as(st, opp, target, budget, required, p, up, a),
{
    let all = Seq::new(st.board.len(), |i: int| i);
    let ways = |i: int| arrivals_of(st, opp, target, budget, required, i);
    lemma_flat_map_contains(all, ways, a);
    if movers_of(st, opp, target, budget, required).contains(a) {
        let k = choose|k: int| 0 <= k < all.len() && #[trigger] ways(all[k]).contains(a);
        lemma_arrival(st, opp, target, budget, required, k, a);
    }
    if exists|p: int, up: bool| #[trigger] comes_as(st, opp, target, budget, required, p, up, a) {
        let (p, up) = choose|p: int, up: bool|
            #[trigger] comes_as(st, opp, target, budget, required, p, up, a);
        lemma_arrival(st, opp, target, budget, required, p, a);
        assert(ways(all[p]).contains(a));
    }
}

/// Where a piece stands on a square is the first place with that square.
pub proof fn law_places(board: Seq<(Coord, Role)>, target: Coord, i: int)
    requires
        0 <= i <= board.len(),
    ensures
        match place_on(board, target, i) {
            Some(p) => i <= p < board.len() && board[p].0 == target && forall|k: int|
                i <= k < p ==> (#[trigger] board[k]).0 != target,
            None => forall|k: int| i <= k < board.len() ==> (#[trigger] board[k]).0 != target,
        },
    decreases board.len() - i,
{
    if i < board.len() {
        law_places(board, target, i + 1);
    }
}

/// A capture that the own king could take back has to be explained further. Either another piece of the
/// opponent already bears on the square, or one has come to do so with the moves that the arrival has
/// left over; the piece that arrived does not guard itself. Elsewhere the arrival is enough.
pub proof fn law_explanations(
    a: ArrivalModel,
    own: PositionModel,
    opp: Color,
    target: Coord,
    budget: u32,
    x: OppModel,
)
    ensures
        explained_by(a, own, opp, target, budget, false, x) <==> x == a.state,
        explained_by(a, own, opp, target, budget, true, x) <==> (x == a.state && exists|c: Coord|
            c != target && #[trigger] attacks_from(combined(own, a.state, opp, opp), c, target) && (combined(
                own,
                a.state,
                opp,
                opp,
            ).at(c) matches Some(p) && p.color == opp)) || (a.tempo < budget && exists|
            p: int,
            sq: Coord,
            n: nat,
        |
            0 <= p < a.state.board.len() && a.place != Some(p) && is_on_board(sq) && sq != target && n
                + a.tempo <= budget && sees(a.state.board[p].1, opp, sq, target) && #[trigger] reaches(
                a.state.board[p].1,
                opp,
                a.state.board[p].0,
                (sq, false),
                n,
            ) && x == #[trigger] replaced(a.state, p, sq, a.state.board[p].1)),
{
    let pos = combined(own, a.state, opp, opp);
    if exists|c: Coord| #[trigger] defender_at(pos, opp, target, c) {
        let c = choose|c: Coord| #[trigger] defender_at(pos, opp, target, c);
        assert(attacks_from(pos, c, target));
    }
    if exists|c: Coord|
        c != target && #[trigger] attacks_from(pos, c, target) && (pos.at(c) matches Some(p) && p.color
            == opp) {
        let c = choose|c: Coord|
            c != target && #[trigger] attacks_from(pos, c, target) && (pos.at(c) matches Some(p) && p.color
                == opp);
        assert(defender_at(pos, opp, target, c));
    }
    if a.tempo < budget {
        let left = (budget - a.tempo) as u32;
        let st = a.state;
        lemma_attackers(st, a.place, opp, left, target, x);
        if attackers_of(st, a.place, opp, left, target).contains(x) {
            let (p, sq) = choose|p: int, sq: Coord|
                0 <= p < st.board.len() && a.place != Some(p) && is_on_board(sq) && #[trigger] attack_post(
                    st,
                    opp,
                    left,
                    target,
                    p,
                    sq,
                ) && x == replaced(st, p, sq, st.board[p].1);
            let n = choose|n: nat|
                n <= left as int && #[trigger] reaches(st.board[p].1, opp, st.board[p].0, (sq, false), n);
            assert(reaches(st.board[p].1, opp, st.board[p].0, (sq, false), n));
            assert(x == replaced(st, p, sq, st.board[p].1));
        }
        if exists|p: int, sq: Coord, n: nat|
            0 <= p < st.board.len() && a.place != Some(p) && is_on_board(sq) && sq != target && n + a.tempo
                <= budget && sees(st.board[p].1, opp, sq, target) && #[trigger] reaches(
                st.board[p].1,
                opp,
                st.board[p].0,
                (sq, false),
                n,
            ) && x == #[trigger] replaced(st, p, sq, st.board[p].1) {
            let (p, sq, n) = choose|p: int, sq: Coord, n: nat|
                0 <= p < st.board.len() && a.place != Some(p) && is_on_board(sq) && sq != target && n
                    + a.tempo <= budget && sees(st.board[p].1, opp, sq, target) && #[trigger] reaches(
                    st.board[p].1,
                    opp,
                    st.board[p].0,
                    (sq, false),
                    n,
                ) && x == #[trigger] replaced(st, p, sq, st.board[p].1);
            assert(attack_post(st, opp, left, target, p, sq));
        }
    }
}

proof fn lemma_stretch(
    states: Set<OppModel>,
    own: PositionModel,
    opp: Color,
    target: Coord,
    budget: u32,
    guarded: bool,
    required: Option<Role>,
    x: OppModel,
)
    ensures
        capture_stretch(states, own, opp, target, budget, guarded, required).contains(x) <==> exists|
            st: OppModel,
            a: ArrivalModel,
        |
            states.contains(st) && #[trigger] movers_of(st, opp, target, budget, required).contains(a)
                && explained_by(a, own, opp, target, budget, guarded, x),
{
    let all = capture_stretch(states, own, opp, target, budget, guarded, required);
    if all.contains(x) {
        let st = choose|st: OppModel|
            #[trigger] states.contains(st) && explanations(
                st,
                own,
                opp,
                target,
                budget,
                guarded,
                required,
                movers_of(st, opp, target, budget, required).len() as int,
            ).contains(x);
        let list = movers_of(st, opp, target, budget, required);
        let k = choose|k: int|
            0 <= k < list.len() && explained_by(
                #[trigger] movers_of(st, opp, target, budget, required)[k],
                own,
                opp,
                target,
                budget,
                guarded,
                x,
            );
        assert(list.contains(list[k]));
        assert(movers_of(st, opp, target, budget, required).contains(list[k]));
    }
    if exists|st: OppModel, a: ArrivalModel|
        states.contains(st) && #[trigger] movers_of(st, opp, target, budget, required).contains(a)
            && explained_by(a, own, opp, target, budget, guarded, x) {
        let (st, a) = choose|st: OppModel, a: ArrivalModel|
            states.contains(st) && #[trigger] movers_of(st, opp, target, budget, required).contains(a)
                && explained_by(a, own, opp, target, budget, guarded, x);
        let list = movers_of(st, opp, target, budget, required);
        let k = choose|k: int| 0 <= k < list.len() && list[k] == a;
        assert(movers_of(st, opp, target, budget, required)[k] == a);
        assert(explanations(st, own, opp, target, budget, guarded, required, list.len() as int).contains(x));
        assert(states.contains(st));
    }
}

/// A capture of the opponent is one move more, and the sides that are possible behind it are those that
/// explain it from one that was possible, with the moves made by then, and in which the own king is in
/// check exactly where that was told. It has to be explained further where the king then failed to
/// take back.
pub proof fn law_their_captures(
    facts: Seq<FactModel>,
    me: Color,
    m: SearchModel,
    i: int,
    target: Coord,
    gives_check: bool,
    own: PositionModel,
    x: OppModel,
)
    requires
        m.opp_moves < u32::MAX,
        facts[i] == (FactModel::Theirs { captured_at: Some(target), gives_check }),
        own_side(facts, me, i + 1) == Some(own),
    ensures
        search_step(facts, me, m, i) matches Some(next) && next.opp_moves == m.opp_moves + 1 && (
        next.states.contains(x) <==> checked(combined(own, x, other_color(me), me), me) == gives_check
            && exists|st: OppModel, a: ArrivalModel|
            m.states.contains(st) && #[trigger] movers_of(
                st,
                other_color(me),
                target,
                (m.opp_moves + 1) as u32,
                None,
            ).contains(a) && explained_by(
                a,
                own,
                other_color(me),
                target,
                (m.opp_moves + 1) as u32,
                king_refused(facts, i, me, own, target),
                x,
            )),
{
    lemma_stretch(
        m.states,
        own,
        other_color(me),
        target,
        (m.opp_moves + 1) as u32,
        king_refused(facts, i, me, own, target),
        None,
        x,
    );
}

/// An own capture is no move of the opponent. The sides that are possible behind it are those in which a
/// piece of the role that was taken had come to the square, without that piece, and in which the
/// opponent's king is in check exactly where that was told.
pub proof fn law_my_captures(
    facts: Seq<FactModel>,
    me: Color,
    m: SearchModel,
    i: int,
    fouls: Seq<ShogiMove>,
    from: Coord,
    to: Coord,
    promote: bool,
    taken: Role,
    gives_check: bool,
    before: PositionModel,
    own: PositionModel,
    x: OppModel,
)
    requires
        facts[i] == (FactModel::Mine {
            fouls,
            mv: ShogiMove::Board { from, to, promote },
            captured: Some(taken),
            gives_check,
        }),
        own_side(facts, me, i) == Some(before),
        own_side(facts, me, i + 1) == Some(own),
    ensures
        search_step(facts, me, m, i) matches Some(next) && next.opp_moves == m.opp_moves && (
        next.states.contains(x) <==> checked(
            combined(own, x, other_color(me), other_color(me)),
            other_color(me),
        ) == gives_check && exists|st: OppModel, a: ArrivalModel|
            m.states.contains(st) && #[trigger] movers_of(st, other_color(me), to, m.opp_moves, Some(taken)).contains(
                a,
            ) && x == without(a.state, to)),
{
    let opp = other_color(me);
    let all = capture_stretch(m.states, before, opp, to, m.opp_moves, false, Some(taken));
    let next = search_step(facts, me, m, i)->0;
    if next.states.contains(x) {
        let y = choose|y: OppModel| #[trigger] all.contains(y) && x == without(y, to);
        lemma_stretch(m.states, before, opp, to, m.opp_moves, false, Some(taken), y);
    }
    if exists|st: OppModel, a: ArrivalModel|
        m.states.contains(st) && #[trigger] movers_of(st, opp, to, m.opp_moves, Some(taken)).contains(a) && x
            == without(a.state, to) {
        let (st, a) = choose|st: OppModel, a: ArrivalModel|
            m.states.contains(st) && #[trigger] movers_of(st, opp, to, m.opp_moves, Some(taken)).contains(a)
                && x == without(a.state, to);
        lemma_stretch(m.states, before, opp, to, m.opp_moves, false, Some(taken), a.state);
        assert(explained_by(a, before, opp, to, m.opp_moves, false, a.state));
        assert(all.contains(a.state));
    }
}

/// The king failed to take on a square where the very next turn is an own one and one of its fouls was
/// the king's move there.
pub proof fn law_refused_kings(
    facts: Seq<FactModel>,
    i: int,
    me: Color,
    side: PositionModel,
    king: Coord,
    target: Coord,
    fouls: Seq<ShogiMove>,
    mv: ShogiMove,
    captured: Option<Role>,
    gives_check: bool,
    k: int,
    promote: bool,
)
    requires
        0 <= i,
        king_of(side, me) == Some(king),
    ensures
        i + 1 < facts.len() && facts[i + 1] == (FactModel::Mine { fouls, mv, captured, gives_check }) && 0 <= k
            < fouls.len() && fouls[k] == (ShogiMove::Board { from: king, to: target, promote }) ==> king_refused(
            facts,
            i,
            me,
            side,
            target,
        ),
        i + 1 >= facts.len() || facts[i + 1] is Theirs ==> !king_refused(facts, i, me, side, target),
        i + 1 < facts.len() && facts[i + 1] == (FactModel::Mine { fouls, mv, captured, gives_check }) && (forall|
            j: int,
        |
            0 <= j < fouls.len() ==> !(#[trigger] fouls[j] matches ShogiMove::Board { from, to, promote } && from
                == king && to == target)) ==> !king_refused(facts, i, me, side, target),
{
    if i + 1 < facts.len() && facts[i + 1] == (FactModel::Mine { fouls, mv, captured, gives_check }) && 0 <= k
        < fouls.len() && fouls[k] == (ShogiMove::Board { from: king, to: target, promote }) {
        assert(facts[i + 1]->fouls[k] == fouls[k]);
        assert(crate::window_search::king_takes(facts[i + 1]->fouls[k], king_of(side, me), target));
    }
}

/// What a side learns: of its own move everything that concerns it, of the other's only where it took a
/// piece and whether it gave check.
pub proof fn law_learnt(f: RawFactModel, me: Color)
    ensures
        f.side == me ==> (learnt(f, me) matches FactModel::Mine { fouls, mv, captured, gives_check } && fouls
            == f.fouls && mv == f.mv && captured == f.captured && gives_check == f.gives_check),
        f.side != me ==> (learnt(f, me) matches FactModel::Theirs { captured_at, gives_check } && captured_at
            == f.captured_at && gives_check == f.gives_check),
{
}

/// What happens at a move: who made it, where it took a piece and which role that gives in hand, and
/// whether the side that is then to move is in check.
pub proof fn law_facts(pos: PositionModel, ply: Ply, from: Coord, to: Coord, promote: bool, p: Piece)
    requires
        ply.mv == (ShogiMove::Board { from, to, promote }),
    ensures
        ({
            let f = raw_fact(pos, ply);
            &&& f.side == pos.turn && f.mv == ply.mv && f.fouls.len() == ply.fouls@.len()
            &&& f.gives_check == checked(after_move(pos, ply.mv), other_color(pos.turn))
            &&& pos.at(to) is None ==> f.captured is None && f.captured_at is None
            &&& pos.at(to) == Some(p) ==> f.captured_at == Some(to) && f.captured is Some && (f.captured
                == Some(p.role) || promoted(f.captured->0) == Some(p.role)) && (forall|r: Role|
                promoted(r) != f.captured)
        }),
{
    assert(after_move(pos, ply.mv).turn == other_color(pos.turn));
}

/// A foul of a score is a move of what stands on its first square, and promotes where the role named is
/// what the piece promotes to.
pub proof fn law_tried_moves(pos: PositionModel, from: Coord, to: Coord, role: Role, p: Piece)
    ensures
        pos.at(from) == Some(p) && p.role == role ==> tried(pos, RawFoul::Board { from, to, role }) == Some(
            ShogiMove::Board { from, to, promote: false },
        ),
        pos.at(from) == Some(p) && promoted(p.role) == Some(role) ==> tried(
            pos,
            RawFoul::Board { from, to, role },
        ) == Some(ShogiMove::Board { from, to, promote: true }),
        pos.at(from) is None ==> tried(pos, RawFoul::Board { from, to, role }) is None,
        tried(pos, RawFoul::Drop { role, to }) is Some <==> crate::protocol::slot_of(role) is Some,
        tried(pos, RawFoul::Drop { role, to }) matches Some(mv) ==> mv == (ShogiMove::Drop { role, to }),
{
}

/// The opponent's side of a position are its pieces, each with its role and square, and its hand.
pub proof fn law_sides(pos: PositionModel, opp: Color, c: Coord, role: Role)
    requires
        pos.wf(),
    ensures
        side_of(pos, opp).board.contains((c, role)) <==> is_on_board(c) && pos.at(c) == Some(
            Piece { color: opp, role },
        ),
        side_of(pos, opp).hand == pos.hand(opp),
{
    let all = piece_list(pos);
    let hit = |x: (Coord, Piece)| x.1.color == opp;
    let kept = all.filter(hit);
    let list = side_of(pos, opp).board;
    if list.contains((c, role)) {
        let k = choose|k: int| 0 <= k < list.len() && list[k] == (c, role);
        let x = kept[k];
        assert(kept.contains(x));
        lemma_filter_contains_iff(all, hit, x);
        let n = choose|n: int| 0 <= n < all.len() && all[n] == x;
        crate::check_economy::lemma_piece_list(pos, n);
    }
    if is_on_board(c) && pos.at(c) == Some(Piece { color: opp, role }) {
        let n = crate::check_economy::lemma_piece_listed(pos, c);
        let x = (c, Piece { color: opp, role });
        assert(all[n] == x);
        assert(all.contains(x));
        lemma_filter_contains_iff(all, hit, x);
        let k = choose|k: int| 0 <= k < kept.len() && kept[k] == x;
        assert(list[k] == (c, role));
    }
}

/// Without what stands on a square a side keeps all its other pieces and its hand.
pub proof fn law_without(st: OppModel, target: Coord, x: (Coord, Role))
    ensures
        without(st, target).board.contains(x) <==> st.board.contains(x) && x.0 != target,
        without(st, target).hand == st.hand,
{
    lemma_filter_contains_iff(
        st.board,
        |x: (Coord, Role)| crate::window_search::elsewhere(x, target),
        x,
    );
}

/// A side lists its pieces file by file and rank by rank, also where one has moved.
pub proof fn law_pieces_in_order(st: OppModel, p: int, sq: Coord, role: Role, i: int, j: int)
    requires
        0 <= p < st.board.len(),
        0 <= i < j < st.board.len(),
    ensures
        ({
            let b = replaced(st, p, sq, role).board;
            b[i].0.file < b[j].0.file || (b[i].0.file == b[j].0.file && b[i].0.rank <= b[j].0.rank)
        }),
{
    let le = |a: (Coord, Role), b: (Coord, Role)| not_behind(a, b);
    let moved = st.board.update(p, (sq, role));
    lemma_sorted_by_orders(moved, le);
    crate::lists::lemma_sorted_by_len(moved, le);
    assert(le(crate::lists::sorted_by(moved, le)[i], crate::lists::sorted_by(moved, le)[j]));
}

/// A search is made for the side whose decision the score speaks of, else for the one to move at the end
/// of the window, else for the one that moved last.
pub proof fn law_searching_side(
    directives: Seq<(String, String)>,
    raw: Seq<RawFactModel>,
    win_end: int,
    n: usize,
)
    requires
        raw.len() > 0,
        0 <= win_end,
    ensures
        count_of(directive_of(directives, "ply"@, 0)) == Some(n) && n < raw.len() ==> side_searching(
            directives,
            raw,
            win_end,
        ) == raw[n as int].side,
        (count_of(directive_of(directives, "ply"@, 0)) is None || (count_of(
            directive_of(directives, "ply"@, 0),
        ) == Some(n) && n >= raw.len())) ==> side_searching(directives, raw, win_end) == (if win_end
            < raw.len() {
            raw[win_end].side
        } else {
            raw[raw.len() - 1].side
        }),
{
}

} // verus!
