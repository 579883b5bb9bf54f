//! Where the opponent's pieces may stand: a search that follows only what is revealed. A silent move
//! of the opponent is counted; where something is taken or a check is declared, the pieces that can
//! explain it within the moves counted are set up.

use crate::board::{
    all_squares, coord_at, is_on_board, lemma_square_index, on_board, square_at, square_index, Coord,
};
use crate::check_economy::{lemma_piece_list, lemma_piece_listed};
use crate::kifu::{is_promoted, Kifu, Ply, RawFoul};
use crate::lists::{lemma_flat_map_contains, lemma_placed_by, lemma_sorted_by_keeps, lemma_sorted_by_len, sorted_by};
use crate::protocol::{
    other_color, promoted, slot_of, slot_role, unpromoted, Color, Role,
};
use crate::reach::{distances, least, out_of_reach, piece_attacks_square, reaches, sees, tells};
use crate::replay::{hand_role, only_side, side_only};
use crate::scenario::{count_in, count_of, directive, directive_of};
use crate::shogi::{
    after_move, arriving_role, attacks_from, checked, hand_gain, hand_loss, initial_model, king_of,
    legal, piece_list, playable, promote_role, taken_by, unpromote_role, Piece, Position,
    PositionModel, ShogiMove,
};
use vstd::prelude::*;

verus! {

/// The opponent's side: its pieces on the board, file by file, and in hand.
#[derive(Debug)]
pub struct OppState {
    pub board: Vec<(Coord, Role)>,
    pub hand: [u8; 7],
}

/// The mathematical content of an `OppState`.
#[verifier::ext_equal]
pub struct OppModel {
    pub board: Seq<(Coord, Role)>,
    pub hand: Seq<u8>,
}

impl View for OppState {
    type V = OppModel;

    open spec fn view(&self) -> OppModel {
        OppModel { board: self.board@, hand: self.hand@ }
    }
}

impl OppModel {
    /// Whether all pieces stand on the board.
    pub open spec fn wf(self) -> bool {
        &&& self.hand.len() == 7
        &&& forall|i: int| 0 <= i < self.board.len() ==> is_on_board((#[trigger] self.board[i]).0)
    }
}

/// The opponent's side of a position.
pub open spec fn side_of(pos: PositionModel, opp: Color) -> OppModel {
    OppModel {
        board: piece_list(pos).filter(|x: (Coord, Piece)| x.1.color == opp).map_values(
            |x: (Coord, Piece)| (x.0, x.1.role),
        ),
        hand: pos.hand(opp),
    }
}

/// Takes the opponent's side out of a position.
pub fn to_opp_state(pos: &Position, opp: Color) -> (res: OppState)
    ensures
        res@ == side_of(pos@, opp),
        res@.wf(),
{
    let pieces = pos.pieces();
    let ghost good = |x: (Coord, Piece)| x.1.color == opp;
    let ghost pick = |x: (Coord, Piece)| (x.0, x.1.role);
    let mut board: Vec<(Coord, Role)> = Vec::new();
    let mut i: usize = 0;
    assert(pieces@.take(0).filter(good) =~= Seq::<(Coord, Piece)>::empty()) by {
        reveal(Seq::filter);
    }
    assert(board@ =~= pieces@.take(0).filter(good).map_values(pick));
    while i < pieces.len()
        invariant
            i <= pieces@.len(),
            pieces@ == piece_list(pos@),
            good == (|x: (Coord, Piece)| x.1.color == opp),
            pick == (|x: (Coord, Piece)| (x.0, x.1.role)),
            board@ == pieces@.take(i as int).filter(good).map_values(pick),
            forall|k: int| 0 <= k < board@.len() ==> is_on_board((#[trigger] board@[k]).0),
        decreases pieces@.len() - i,
    {
        let x = pieces[i];
        let ghost kept = pieces@.take(i as int).filter(good);
        proof {
            assert(pieces@.take(i + 1) =~= pieces@.take(i as int).push(x));
            pieces@.take(i as int).lemma_filter_push(x, good);
            lemma_piece_list(pos@, i as int);
        }
        if x.1.color == opp {
            board.push((x.0, x.1.role));
            assert(kept.push(x).map_values(pick) =~= kept.map_values(pick).push((x.0, x.1.role)));
        }
        i += 1;
    }
    assert(pieces@.take(i as int) =~= pieces@);
    let mut hand: [u8; 7] = [0; 7];
    let mut j: usize = 0;
    while j < 7
        invariant
            j <= 7,
            forall|k: int| 0 <= k < j ==> #[trigger] hand@[k] == pos@.hand(opp)[k],
        decreases 7 - j,
    {
        hand[j] = pos.hand_count(opp, slot_role(j));
        j += 1;
    }
    assert(hand@ =~= pos@.hand(opp));
    OppState { board, hand }
}

/// A position with some pieces of a side put on it, one after the other.
pub open spec fn with_pieces(
    pos: PositionModel,
    board: Seq<(Coord, Role)>,
    color: Color,
) -> PositionModel
    decreases board.len(),
{
    if board.len() == 0 {
        pos
    } else {
        with_pieces(pos, board.drop_last(), color).with_cell(
            board.last().0,
            Some(Piece { color, role: board.last().1 }),
        )
    }
}

/// A position made of the own side and the opponent's.
pub open spec fn combined(
    my_side: PositionModel,
    st: OppModel,
    opp: Color,
    turn: Color,
) -> PositionModel {
    PositionModel { turn, ..with_pieces(my_side, st.board, opp).with_hand(opp, st.hand) }
}

/// Makes a position of the own side and the opponent's.
pub fn combine(my_side: &Position, st: &OppState, opp: Color, turn: Color) -> (res: Position)
    requires
        st@.wf(),
    ensures
        res@ == combined(my_side@, st@, opp, turn),
{
    let mut pos = *my_side;
    let mut i: usize = 0;
    assert(st.board@.take(0) =~= Seq::<(Coord, Role)>::empty());
    while i < st.board.len()
        invariant
            i <= st.board@.len(),
            st@.wf(),
            pos@ == with_pieces(my_side@, st.board@.take(i as int), opp),
        decreases st.board@.len() - i,
    {
        let (sq, role) = st.board[i];
        proof {
            assert(st@.board[i as int].0 == sq);
            let t = st.board@.take(i + 1);
            assert(t.drop_last() =~= st.board@.take(i as int));
            assert(t.last() == st.board@[i as int]);
        }
        pos.set(sq, Some(Piece { color: opp, role }));
        i += 1;
    }
    assert(st.board@.take(i as int) =~= st.board@);
    let ghost placed = pos@;
    let mut j: usize = 0;
    assert(pos@ =~= placed.with_hand(opp, placed.hand(opp)));
    while j < 7
        invariant
            j <= 7,
            placed.hand(opp).len() == 7,
            pos@ == placed.with_hand(opp, st.hand@.take(j as int) + placed.hand(opp).skip(j as int)),
        decreases 7 - j,
    {
        pos.set_hand(opp, slot_role(j), st.hand[j]);
        proof {
            let before_ = st.hand@.take(j as int) + placed.hand(opp).skip(j as int);
            assert(before_.update(j as int, st.hand@[j as int]) =~= st.hand@.take(j + 1)
                + placed.hand(opp).skip(j + 1));
            assert(pos@ =~= placed.with_hand(
                opp,
                st.hand@.take(j + 1) + placed.hand(opp).skip(j + 1),
            ));
        }
        j += 1;
    }
    assert(st.hand@.take(7) + placed.hand(opp).skip(7) =~= st.hand@);
    pos.set_turn(turn);
    pos
}

/// Whether a square does not stand behind another, file by file.
pub open spec fn not_behind(a: (Coord, Role), b: (Coord, Role)) -> bool {
    a.0.file < b.0.file || (a.0.file == b.0.file && a.0.rank <= b.0.rank)
}

/// The opponent's side with one of its pieces somewhere else.
pub open spec fn replaced(st: OppModel, i: int, sq: Coord, role: Role) -> OppModel {
    OppModel {
        board: sorted_by(
            st.board.update(i, (sq, role)),
            |a: (Coord, Role), b: (Coord, Role)| not_behind(a, b),
        ),
        ..st
    }
}

/// Puts one of the opponent's pieces somewhere else.
pub fn place_piece(st: &OppState, idx: usize, new_sq: Coord, new_role: Role) -> (res: OppState)
    requires
        idx < st.board@.len(),
        st@.wf(),
        is_on_board(new_sq),
    ensures
        res@ == replaced(st@, idx as int, new_sq, new_role),
        res@.wf(),
{
    let ghost le = |a: (Coord, Role), b: (Coord, Role)| not_behind(a, b);
    let ghost list = st.board@.update(idx as int, (new_sq, new_role));
    let mut out: Vec<(Coord, Role)> = Vec::new();
    let mut i: usize = 0;
    assert(out@ =~= Seq::<(Coord, Role)>::empty());
    while i < st.board.len()
        invariant
            i <= st.board@.len(),
            idx < st.board@.len(),
            st@.wf(),
            is_on_board(new_sq),
            le == (|a: (Coord, Role), b: (Coord, Role)| not_behind(a, b)),
            list == st.board@.update(idx as int, (new_sq, new_role)),
            out@ == sorted_by(list.take(i as int), le),
            forall|k: int| 0 <= k < out@.len() ==> is_on_board((#[trigger] out@[k]).0),
        decreases st.board@.len() - i,
    {
        let x: (Coord, Role) = if i == idx {
            (new_sq, new_role)
        } else {
            st.board[i]
        };
        assert(st@.board[i as int] == st.board@[i as int]);
        let ghost sorted = out@;
        let mut n: usize = out.len();
        while n > 0 && !(out[n - 1].0.file < x.0.file || (out[n - 1].0.file == x.0.file
            && out[n - 1].0.rank <= x.0.rank))
            invariant
                n <= out@.len(),
                sorted == out@,
                le == (|a: (Coord, Role), b: (Coord, Role)| not_behind(a, b)),
                forall|k: int| n <= k < sorted.len() ==> !le(#[trigger] sorted[k], x),
            decreases n,
        {
            n -= 1;
        }
        proof {
            lemma_placed_by(sorted, x, le, n as int);
            let t = list.take(i + 1);
            assert(t.drop_last() =~= list.take(i as int));
            assert(t.last() == x);
        }
        out.insert(n, x);
        i += 1;
    }
    assert(list.take(i as int) =~= list);
    OppState { board: out, hand: st.hand }
}

/// Whether a piece does not stand on a square.
pub open spec fn elsewhere(x: (Coord, Role), target: Coord) -> bool {
    x.0 != target
}

/// The opponent's side without what stands on a square.
pub open spec fn without(st: OppModel, target: Coord) -> OppModel {
    OppModel { board: st.board.filter(|x: (Coord, Role)| elsewhere(x, target)), ..st }
}

/// Takes what stands on a square off the opponent's side.
pub fn remove_piece_at(st: &OppState, target: Coord) -> (res: OppState)
    requires
        st@.wf(),
    ensures
        res@ == without(st@, target),
        res@.wf(),
{
    let ghost good = |x: (Coord, Role)| elsewhere(x, target);
    let mut out: Vec<(Coord, Role)> = Vec::new();
    let mut i: usize = 0;
    assert(st.board@.take(0).filter(good) =~= Seq::<(Coord, Role)>::empty()) by {
        reveal(Seq::filter);
    }
    while i < st.board.len()
        invariant
            i <= st.board@.len(),
            st@.wf(),
            good == (|x: (Coord, Role)| elsewhere(x, target)),
            out@ == st.board@.take(i as int).filter(good),
            forall|k: int| 0 <= k < out@.len() ==> is_on_board((#[trigger] out@[k]).0),
        decreases st.board@.len() - i,
    {
        let x = st.board[i];
        proof {
            assert(st@.board[i as int] == x);
            assert(st.board@.take(i + 1) =~= st.board@.take(i as int).push(x));
            st.board@.take(i as int).lemma_filter_push(x, good);
        }
        if x.0 != target {
            out.push(x);
        }
        i += 1;
    }
    assert(st.board@.take(i as int) =~= st.board@);
    let res = OppState { board: out, hand: st.hand };
    assert(res@ =~= without(st@, target));
    res
}

/// The least number of moves that brings a piece to a square on an empty board, if it is within a
/// budget. A piece that has been promoted stays so; the others arrive as is asked.
pub open spec fn tempo(
    role: Role,
    color: Color,
    from: Coord,
    to: Coord,
    arrive_promoted: bool,
    budget: u32,
) -> Option<u32> {
    let way = arrive_promoted && !is_promoted(role);
    if (is_promoted(role) && !arrive_promoted) || out_of_reach(
        role,
        color,
        from,
        (to, way),
        budget as int,
    ) {
        None
    } else {
        Some(choose|k: u32| k <= budget && #[trigger] least(role, color, from, (to, way), k as nat))
    }
}

proof fn lemma_tempo(
    role: Role,
    color: Color,
    from: Coord,
    to: (Coord, bool),
    budget: u32,
    found: Option<u32>,
)
    requires
        tells(found, role, color, from, to, budget as int),
    ensures
        found is None <==> out_of_reach(role, color, from, to, budget as int),
        found matches Some(k) ==> k == (choose|n: u32|
            n <= budget && #[trigger] least(role, color, from, to, n as nat)),
{
    if let Some(k) = found {
        assert(reaches(role, color, from, to, k as nat));
        let n = choose|n: u32| n <= budget && #[trigger] least(role, color, from, to, n as nat);
        assert(least(role, color, from, to, k as nat));
        assert(least(role, color, from, to, n as nat));
        if n < k {
            assert(reaches(role, color, from, to, n as nat));
        }
        if k < n {
            assert(reaches(role, color, from, to, k as nat));
        }
    }
}

/// The least number of moves that brings a piece to a square on an empty board, if it is within a
/// budget.
pub fn tempo_to(
    role: Role,
    color: Color,
    from: Coord,
    to: Coord,
    arrive_promoted: bool,
    budget: u32,
) -> (res: Option<u32>)
    requires
        is_on_board(from),
        is_on_board(to),
    ensures
        res == tempo(role, color, from, to, arrive_promoted, budget),
        res matches Some(k) ==> k <= budget,
{
    let is_up = role != unpromote_role(role);
    if is_up && !arrive_promoted {
        return None;
    }
    let way = arrive_promoted && !is_up;
    let d = distances(role, color, from, budget);
    let found = d.get(to, way);
    proof {
        assert(tells(d.at((to, way)), role, color, from, (to, way), budget as int));
        lemma_tempo(role, color, from, (to, way), budget, found);
    }
    found
}

/// Two sides of the opponent are the same.
fn same_state(a: &OppState, b: &OppState) -> (res: bool)
    ensures
        res == (a@ == b@),
{
    if a.board.len() != b.board.len() {
        return false;
    }
    let mut i: usize = 0;
    while i < a.board.len()
        invariant
            a.board@.len() == b.board@.len(),
            i <= a.board@.len(),
            forall|k: int| 0 <= k < i ==> a.board@[k] == b.board@[k],
        decreases a.board@.len() - i,
    {
        let x = a.board[i];
        let y = b.board[i];
        if x.0 != y.0 || x.1 != y.1 {
            assert(a@.board[i as int] != b@.board[i as int]);
            return false;
        }
        i += 1;
    }
    let mut j: usize = 0;
    while j < 7
        invariant
            j <= 7,
            forall|k: int| 0 <= k < j ==> a.hand@[k] == b.hand@[k],
        decreases 7 - j,
    {
        if a.hand[j] != b.hand[j] {
            assert(a@.hand[j as int] != b@.hand[j as int]);
            return false;
        }
        j += 1;
    }
    assert(a@ =~= b@);
    true
}

/// The sides of the opponent that a list holds.
pub open spec fn state_set(states: Seq<OppState>) -> Set<OppModel> {
    Set::new(|m: OppModel| exists|i: int| 0 <= i < states.len() && (#[trigger] states[i])@ == m)
}

/// Whether all sides of a list stand on the board.
pub open spec fn all_wf(states: Seq<OppState>) -> bool {
    forall|i: int| 0 <= i < states.len() ==> (#[trigger] states[i])@.wf()
}

/// Whether a list holds a side of the opponent.
pub fn holds_state(states: &Vec<OppState>, st: &OppState) -> (res: bool)
    ensures
        res == state_set(states@).contains(st@),
{
    let mut i: usize = 0;
    while i < states.len()
        invariant
            i <= states@.len(),
            forall|k: int| 0 <= k < i ==> (#[trigger] states@[k])@ != st@,
        decreases states@.len() - i,
    {
        if same_state(&states[i], st) {
            assert(states@[i as int]@ == st@);
            return true;
        }
        i += 1;
    }
    false
}

fn insert_state(states: &mut Vec<OppState>, st: OppState)
    requires
        all_wf(old(states)@),
        st@.wf(),
    ensures
        state_set(final(states)@) == state_set(old(states)@).insert(st@),
        all_wf(final(states)@),
{
    let ghost start = states@;
    if holds_state(states, &st) {
        assert(state_set(states@) =~= state_set(start).insert(st@));
        return;
    }
    let ghost m = st@;
    states.push(st);
    proof {
        assert(states@.last()@ == m);
        assert forall|x: OppModel| state_set(states@).contains(x) <==> state_set(start).insert(
            m,
        ).contains(x) by {
            if state_set(start).contains(x) {
                let k = choose|k: int| 0 <= k < start.len() && (#[trigger] start[k])@ == x;
                assert(states@[k]@ == x);
            }
            if x == m {
                assert(states@[start.len() as int]@ == m);
            }
            if state_set(states@).contains(x) && x != m {
                let k = choose|k: int| 0 <= k < states@.len() && (#[trigger] states@[k])@ == x;
                assert(start[k]@ == x);
            }
        }
        assert(state_set(states@) =~= state_set(start).insert(m));
        assert forall|i: int| 0 <= i < states@.len() implies (#[trigger] states@[i])@.wf() by {
            if i < start.len() {
                assert(start[i]@.wf());
            }
        }
    }
}

/// The first place from `i` on at which a piece stands on a square.
pub open spec fn place_on(board: Seq<(Coord, Role)>, target: Coord, i: int) -> Option<int>
    decreases board.len() - i,
{
    if i < 0 || i >= board.len() {
        None
    } else if board[i].0 == target {
        Some(i)
    } else {
        place_on(board, target, i + 1)
    }
}

fn find_on(st: &OppState, target: Coord) -> (res: Option<usize>)
    ensures
        match res {
            Some(i) => place_on(st@.board, target, 0) == Some(i as int),
            None => place_on(st@.board, target, 0) is None,
        },
{
    let mut i: usize = 0;
    while i < st.board.len()
        invariant
            i <= st.board@.len(),
            place_on(st@.board, target, 0) == place_on(st@.board, target, i as int),
        decreases st.board@.len() - i,
    {
        if st.board[i].0 == target {
            return Some(i);
        }
        i += 1;
    }
    None
}

/// A piece that has come to a square: the opponent's side then, the moves it took, and its place.
#[derive(Debug)]
pub struct Arrival {
    pub state: OppState,
    pub tempo: u32,
    pub place: Option<usize>,
}

/// The mathematical content of an `Arrival`.
pub struct ArrivalModel {
    pub state: OppModel,
    pub tempo: u32,
    pub place: Option<int>,
}

impl View for Arrival {
    type V = ArrivalModel;

    open spec fn view(&self) -> ArrivalModel {
        ArrivalModel {
            state: self.state@,
            tempo: self.tempo,
            place: match self.place {
                Some(i) => Some(i as int),
                None => None,
            },
        }
    }
}

/// The contents of a list of arrivals.
pub open spec fn arrival_list(list: Seq<Arrival>) -> Seq<ArrivalModel> {
    list.map_values(|a: Arrival| a@)
}

/// A piece that comes to a square as a role, if it can be there in time.
pub open spec fn arrival_as(
    st: OppModel,
    opp: Color,
    target: Coord,
    budget: u32,
    i: int,
    arrive_promoted: bool,
    role: Role,
) -> Seq<ArrivalModel> {
    match tempo(st.board[i].1, opp, st.board[i].0, target, arrive_promoted, budget) {
        Some(d) => {
            let state = replaced(st, i, target, role);
            seq![ArrivalModel { state, tempo: d, place: place_on(state.board, target, 0) }]
        },
        None => Seq::empty(),
    }
}

/// The ways in which a piece can come to a square in time: as it is, or promoted on its way. Where
/// the piece that was taken there is known, only its kind counts.
pub open spec fn arrivals_of(
    st: OppModel,
    opp: Color,
    target: Coord,
    budget: u32,
    required: Option<Role>,
    i: int,
) -> Seq<ArrivalModel> {
    let role = st.board[i].1;
    let plain = if required matches Some(r) ==> r == unpromoted(role) {
        arrival_as(st, opp, target, budget, i, is_promoted(role), role)
    } else {
        Seq::empty()
    };
    let up = match promoted(role) {
        Some(pr) => if !is_promoted(role) && (required matches Some(r) ==> r == role) {
            arrival_as(st, opp, target, budget, i, true, pr)
        } else {
            Seq::empty()
        },
        None => Seq::empty(),
    };
    plain + up
}

/// All ways in which one of the opponent's pieces can come to a square in time.
pub open spec fn movers_of(
    st: OppModel,
    opp: Color,
    target: Coord,
    budget: u32,
    required: Option<Role>,
) -> Seq<ArrivalModel> {
    Seq::new(st.board.len(), |i: int| i).flat_map(
        |i: int| arrivals_of(st, opp, target, budget, required, i),
    )
}

fn push_arrival(
    out: &mut Vec<Arrival>,
    st: &OppState,
    opp: Color,
    target: Coord,
    budget: u32,
    i: usize,
    arrive_promoted: bool,
    role: Role,
)
    requires
        i < st.board@.len(),
        st@.wf(),
        is_on_board(target),
        forall|k: int| 0 <= k < old(out)@.len() ==> (#[trigger] old(out)@[k]).state@.wf(),
    ensures
        arrival_list(final(out)@) == arrival_list(old(out)@) + arrival_as(
            st@,
            opp,
            target,
            budget,
            i as int,
            arrive_promoted,
            role,
        ),
        forall|k: int| 0 <= k < final(out)@.len() ==> (#[trigger] final(out)@[k]).state@.wf(),
{
    let ghost start = out@;
    let (sq, own) = st.board[i];
    assert(is_on_board(st@.board[i as int].0));
    match tempo_to(own, opp, sq, target, arrive_promoted, budget) {
        Some(d) => {
            let state = place_piece(st, i, target, role);
            let place = find_on(&state, target);
            let a = Arrival { state, tempo: d, place };
            out.push(a);
            assert(arrival_list(out@) =~= arrival_list(start).push(a@));
        },
        None => {},
    }
    assert(arrival_list(out@) =~= arrival_list(start) + arrival_as(
        st@,
        opp,
        target,
        budget,
        i as int,
        arrive_promoted,
        role,
    ));
}

/// Sets up every way in which one of the opponent's pieces can have come to a square in time.
pub fn candidate_movers(
    st: &OppState,
    opp: Color,
    target: Coord,
    budget: u32,
    required: Option<Role>,
) -> (res: Vec<Arrival>)
    requires
        st@.wf(),
        is_on_board(target),
    ensures
        arrival_list(res@) == movers_of(st@, opp, target, budget, required),
        forall|k: int| 0 <= k < res@.len() ==> (#[trigger] res@[k]).state@.wf(),
{
    let ghost all = Seq::new(st@.board.len(), |i: int| i);
    let ghost ways = |i: int| arrivals_of(st@, opp, target, budget, required, i);
    let mut out: Vec<Arrival> = Vec::new();
    let mut i: usize = 0;
    assert(arrival_list(out@) =~= all.take(0).flat_map(ways));
    while i < st.board.len()
        invariant
            i <= st.board@.len(),
            st@.wf(),
            is_on_board(target),
            all == Seq::new(st@.board.len(), |i: int| i),
            ways == (|i: int| arrivals_of(st@, opp, target, budget, required, i)),
            arrival_list(out@) == all.take(i as int).flat_map(ways),
            forall|k: int| 0 <= k < out@.len() ==> (#[trigger] out@[k]).state@.wf(),
        decreases st.board@.len() - i,
    {
        let ghost start = arrival_list(out@);
        let role = st.board[i].1;
        let base = unpromote_role(role);
        let is_up = role != base;
        let plain_fits = match required {
            Some(r) => r == base,
            None => true,
        };
        let up_fits = match required {
            Some(r) => r == role,
            None => true,
        };
        proof {
            all.lemma_flat_map_take_append(ways, i as int);
        }
        if plain_fits {
            push_arrival(&mut out, st, opp, target, budget, i, is_up, role);
        }
        if !is_up && up_fits {
            if let Some(pr) = promote_role(role) {
                push_arrival(&mut out, st, opp, target, budget, i, true, pr);
            }
        }
        assert(arrival_list(out@) =~= start + ways(i as int));
        i += 1;
    }
    assert(all.take(i as int) =~= all);
    out
}

/// Whether a square is one from which a role attacks another on an empty board, and the piece can be
/// there in time.
pub open spec fn attack_post(
    st: OppModel,
    opp: Color,
    budget: u32,
    attacked: Coord,
    i: int,
    sq: Coord,
) -> bool {
    let role = st.board[i].1;
    &&& sq != attacked
    &&& sees(role, opp, sq, attacked)
    &&& !out_of_reach(role, opp, st.board[i].0, (sq, false), budget as int)
}

/// The sides of the opponent in which a piece has come to attack a square.
pub open spec fn posts_of(st: OppModel, opp: Color, budget: u32, attacked: Coord, i: int) -> Seq<
    OppModel,
> {
    all_squares().filter(|sq: Coord| attack_post(st, opp, budget, attacked, i, sq)).map_values(
        |sq: Coord| replaced(st, i, sq, st.board[i].1),
    )
}

/// All sides of the opponent in which one of its pieces, but for one, has come to attack a square.
pub open spec fn attackers_of(
    st: OppModel,
    exclude: Option<int>,
    opp: Color,
    budget: u32,
    attacked: Coord,
) -> Seq<OppModel> {
    Seq::new(st.board.len(), |i: int| i).flat_map(
        |i: int|
            if exclude == Some(i) {
                Seq::empty()
            } else {
                posts_of(st, opp, budget, attacked, i)
            },
    )
}

/// The contents of a list of states.
pub open spec fn state_list(states: Seq<OppState>) -> Seq<OppModel> {
    states.map_values(|s: OppState| s@)
}

fn push_posts(
    out: &mut Vec<OppState>,
    st: &OppState,
    opp: Color,
    budget: u32,
    attacked: Coord,
    i: usize,
)
    requires
        i < st.board@.len(),
        st@.wf(),
        all_wf(old(out)@),
    ensures
        state_list(final(out)@) == state_list(old(out)@) + posts_of(
            st@,
            opp,
            budget,
            attacked,
            i as int,
        ),
        all_wf(final(out)@),
{
    let ghost start = state_list(out@);
    let ghost all = all_squares();
    let ghost good = |sq: Coord| attack_post(st@, opp, budget, attacked, i as int, sq);
    let ghost pick = |sq: Coord| replaced(st@, i as int, sq, st@.board[i as int].1);
    let (from, role) = st.board[i];
    assert(is_on_board(st@.board[i as int].0));
    let d = distances(role, opp, from, budget);
    let mut k: usize = 0;
    assert(all.take(0).filter(good) =~= Seq::<Coord>::empty()) by {
        reveal(Seq::filter);
    }
    assert(state_list(out@) =~= start + all.take(0).filter(good).map_values(pick));
    while k < 81
        invariant
            k <= 81,
            i < st.board@.len(),
            st@.wf(),
            all_wf(out@),
            all == all_squares(),
            good == (|sq: Coord| attack_post(st@, opp, budget, attacked, i as int, sq)),
            pick == (|sq: Coord| replaced(st@, i as int, sq, st@.board[i as int].1)),
            (from, role) == st@.board[i as int],
            is_on_board(from),
            d.wf(),
            forall|p: (Coord, bool)|
                is_on_board(p.0) ==> tells(#[trigger] d.at(p), role, opp, from, p, budget as int),
            state_list(out@) == start + all.take(k as int).filter(good).map_values(pick),
        decreases 81 - k,
    {
        let sq = coord_at(k);
        let ghost before_ = out@;
        let ghost kept = all.take(k as int).filter(good);
        proof {
            assert(all.take(k + 1) =~= all.take(k as int).push(sq));
            all.take(k as int).lemma_filter_push(sq, good);
            assert(tells(d.at((sq, false)), role, opp, from, (sq, false), budget as int));
            lemma_tempo(role, opp, from, (sq, false), budget, d.at((sq, false)));
        }
        if sq != attacked && piece_attacks_square(role, opp, sq, attacked) && d.get(
            sq,
            false,
        ).is_some() {
            let next = place_piece(st, i, sq, role);
            out.push(next);
            proof {
                assert(state_list(out@) =~= state_list(before_).push(next@));
                assert(kept.push(sq).map_values(pick) =~= kept.map_values(pick).push(next@));
                assert forall|j: int| 0 <= j < out@.len() implies (#[trigger] out@[j])@.wf() by {
                    if j < before_.len() {
                        assert(before_[j]@.wf());
                    }
                }
            }
        }
        assert(state_list(out@) =~= start + all.take(k + 1).filter(good).map_values(pick));
        k += 1;
    }
    assert(all.take(81) =~= all);
}

/// Sets up every way in which one of the opponent's pieces, but for one, can have come to attack a
/// square in time. A piece that attacks it from where it stands has come in no moves.
pub fn candidate_attackers(
    st: &OppState,
    exclude: Option<usize>,
    opp: Color,
    budget: u32,
    attacked: Coord,
) -> (res: Vec<OppState>)
    requires
        st@.wf(),
    ensures
        state_list(res@) == attackers_of(
            st@,
            (match exclude {
                Some(i) => Some(i as int),
                None => None,
            }),
            opp,
            budget,
            attacked,
        ),
        all_wf(res@),
{
    let ghost ex = match exclude {
        Some(i) => Some(i as int),
        None => None,
    };
    let ghost all = Seq::new(st@.board.len(), |i: int| i);
    let ghost ways = |i: int|
        if ex == Some(i) {
            Seq::empty()
        } else {
            posts_of(st@, opp, budget, attacked, i)
        };
    let mut out: Vec<OppState> = Vec::new();
    let mut i: usize = 0;
    assert(state_list(out@) =~= all.take(0).flat_map(ways));
    while i < st.board.len()
        invariant
            i <= st.board@.len(),
            st@.wf(),
            ex == (match exclude {
                Some(i) => Some(i as int),
                None => None,
            }),
            all == Seq::new(st@.board.len(), |i: int| i),
            ways == (|i: int|
                if ex == Some(i) {
                    Seq::empty()
                } else {
                    posts_of(st@, opp, budget, attacked, i)
                }),
            state_list(out@) == all.take(i as int).flat_map(ways),
            all_wf(out@),
        decreases st.board@.len() - i,
    {
        let ghost start = state_list(out@);
        proof {
            all.lemma_flat_map_take_append(ways, i as int);
        }
        let skip = match exclude {
            Some(x) => x == i,
            None => false,
        };
        if !skip {
            push_posts(&mut out, st, opp, budget, attacked, i);
        }
        assert(state_list(out@) =~= start + ways(i as int));
        i += 1;
    }
    assert(all.take(i as int) =~= all);
    out
}

/// Whether another of the opponent's pieces attacks a square.
pub open spec fn defender_at(pos: PositionModel, opp: Color, target: Coord, c: Coord) -> bool {
    c != target && (pos.at(c) matches Some(p) && p.color == opp) && attacks_from(pos, c, target)
}

/// Whether a square of the opponent is defended by another of its pieces.
pub fn is_defended(pos: &Position, opp: Color, target: Coord) -> (res: bool)
    ensures
        res == exists|c: Coord| #[trigger] defender_at(pos@, opp, target, c),
{
    let pieces = pos.pieces();
    let mut i: usize = 0;
    while i < pieces.len()
        invariant
            i <= pieces@.len(),
            pieces@ == piece_list(pos@),
            forall|k: int| 0 <= k < i ==> !defender_at(pos@, opp, target, (#[trigger] pieces@[k]).0),
        decreases pieces@.len() - i,
    {
        let (c, p) = pieces[i];
        proof {
            lemma_piece_list(pos@, i as int);
        }
        if p.color == opp && c != target && pos.attacks(c, target) {
            assert(defender_at(pos@, opp, target, c));
            return true;
        }
        i += 1;
    }
    assert forall|c: Coord| !#[trigger] defender_at(pos@, opp, target, c) by {
        if defender_at(pos@, opp, target, c) {
            let n = lemma_piece_listed(pos@, c);
            assert(pieces@[n].0 == c);
        }
    }
    false
}

/// Whether a side of the opponent explains what happened on a square by the arrival of a piece: where
/// the square has to be defended, another piece does so already or has come to do so in the moves that
/// are left.
pub open spec fn explained_by(
    a: ArrivalModel,
    my_side: PositionModel,
    opp: Color,
    target: Coord,
    budget: u32,
    needs_defense: bool,
    x: OppModel,
) -> bool {
    if !needs_defense {
        x == a.state
    } else {
        ||| x == a.state && exists|c: Coord| #[trigger]
            defender_at(combined(my_side, a.state, opp, opp), opp, target, c)
        ||| a.tempo < budget && attackers_of(
            a.state,
            a.place,
            opp,
            (budget - a.tempo) as u32,
            target,
        ).contains(x)
    }
}

/// The sides of the opponent that explain what happened on a square, from one side.
pub open spec fn explanations(
    st: OppModel,
    my_side: PositionModel,
    opp: Color,
    target: Coord,
    budget: u32,
    needs_defense: bool,
    required: Option<Role>,
    n: int,
) -> Set<OppModel> {
    Set::new(
        |x: OppModel|
            exists|k: int|
                0 <= k < n && explained_by(
                    #[trigger] movers_of(st, opp, target, budget, required)[k],
                    my_side,
                    opp,
                    target,
                    budget,
                    needs_defense,
                    x,
                ),
    )
}

/// The sides of the opponent that explain what happened on a square, from any of several.
pub open spec fn capture_stretch(
    states: Set<OppModel>,
    my_side: PositionModel,
    opp: Color,
    target: Coord,
    budget: u32,
    needs_defense: bool,
    required: Option<Role>,
) -> Set<OppModel> {
    Set::new(
        |x: OppModel|
            exists|st: OppModel|
                #[trigger] states.contains(st) && explanations(
                    st,
                    my_side,
                    opp,
                    target,
                    budget,
                    needs_defense,
                    required,
                    movers_of(st, opp, target, budget, required).len() as int,
                ).contains(x),
    )
}

fn add_states(out: &mut Vec<OppState>, more: Vec<OppState>)
    requires
        all_wf(old(out)@),
        all_wf(more@),
    ensures
        state_set(final(out)@) == state_set(old(out)@).union(state_list(more@).to_set()),
        all_wf(final(out)@),
{
    let ghost start = state_set(out@);
    let ghost list = state_list(more@);
    let mut i: usize = 0;
    assert(state_set(out@) =~= start.union(list.take(0).to_set()));
    while i < more.len()
        invariant
            i <= more@.len(),
            all_wf(out@),
            all_wf(more@),
            list == state_list(more@),
            state_set(out@) == start.union(list.take(i as int).to_set()),
        decreases more@.len() - i,
    {
        let st = OppState { board: copy_board(&more[i].board), hand: more[i].hand };
        let ghost m = more@[i as int]@;
        assert(st@ == m);
        assert(list[i as int] == m);
        insert_state(out, st);
        proof {
            let a = list.take(i as int);
            let b = list.take(i + 1);
            assert forall|x: OppModel| b.contains(x) <==> a.contains(x) || x == m by {
                if a.contains(x) {
                    let k = choose|k: int| 0 <= k < a.len() && a[k] == x;
                    assert(b[k] == x);
                }
                if x == m {
                    assert(b[i as int] == m);
                }
                if b.contains(x) && x != m {
                    let k = choose|k: int| 0 <= k < b.len() && b[k] == x;
                    assert(a[k] == x);
                }
            }
            assert(state_set(out@) =~= start.union(b.to_set()));
        }
        i += 1;
    }
    assert(list.take(i as int) =~= list);
}

fn copy_board(board: &Vec<(Coord, Role)>) -> (res: Vec<(Coord, Role)>)
    ensures
        res@ == board@,
{
    let mut out: Vec<(Coord, Role)> = Vec::new();
    let mut i: usize = 0;
    while i < board.len()
        invariant
            i <= board@.len(),
            out@ == board@.take(i as int),
        decreases board@.len() - i,
    {
        out.push(board[i]);
        assert(out@ =~= board@.take(i + 1));
        i += 1;
    }
    assert(board@.take(i as int) =~= board@);
    out
}

fn copy_state(st: &OppState) -> (res: OppState)
    ensures
        res@ == st@,
{
    OppState { board: copy_board(&st.board), hand: st.hand }
}

fn add_explained(
    out: &mut Vec<OppState>,
    a: &Arrival,
    my_side: &Position,
    opp: Color,
    target: Coord,
    budget: u32,
    needs_defense: bool,
)
    requires
        all_wf(old(out)@),
        a.state@.wf(),
    ensures
        all_wf(final(out)@),
        forall|x: OppModel|
            #[trigger] state_set(final(out)@).contains(x) <==> state_set(old(out)@).contains(x)
                || explained_by(a@, my_side@, opp, target, budget, needs_defense, x),
{
    if !needs_defense {
        insert_state(out, copy_state(&a.state));
        return;
    }
    let whole = combine(my_side, &a.state, opp, opp);
    if is_defended(&whole, opp, target) {
        insert_state(out, copy_state(&a.state));
    }
    if a.tempo < budget {
        let more = candidate_attackers(&a.state, a.place, opp, budget - a.tempo, target);
        add_states(out, more);
    }
}

fn add_explanations(
    out: &mut Vec<OppState>,
    st: &OppState,
    my_side: &Position,
    opp: Color,
    target: Coord,
    budget: u32,
    needs_defense: bool,
    required: Option<Role>,
)
    requires
        all_wf(old(out)@),
        st@.wf(),
        is_on_board(target),
    ensures
        all_wf(final(out)@),
        forall|x: OppModel|
            #[trigger] state_set(final(out)@).contains(x) <==> state_set(old(out)@).contains(x)
                || explanations(
                st@,
                my_side@,
                opp,
                target,
                budget,
                needs_defense,
                required,
                movers_of(st@, opp, target, budget, required).len() as int,
            ).contains(x),
{
    let movers = candidate_movers(st, opp, target, budget, required);
    let ghost list = movers_of(st@, opp, target, budget, required);
    let ghost start = state_set(out@);
    let mut k: usize = 0;
    while k < movers.len()
        invariant
            k <= movers@.len(),
            all_wf(out@),
            st@.wf(),
            list == movers_of(st@, opp, target, budget, required),
            arrival_list(movers@) == list,
            forall|j: int| 0 <= j < movers@.len() ==> (#[trigger] movers@[j]).state@.wf(),
            forall|x: OppModel|
                #[trigger] state_set(out@).contains(x) <==> start.contains(x) || explanations(
                    st@,
                    my_side@,
                    opp,
                    target,
                    budget,
                    needs_defense,
                    required,
                    k as int,
                ).contains(x),
        decreases movers@.len() - k,
    {
        let ghost had = state_set(out@);
        add_explained(out, &movers[k], my_side, opp, target, budget, needs_defense);
        proof {
            assert(list[k as int] == movers@[k as int]@);
            assert forall|x: OppModel| #[trigger] state_set(out@).contains(x) <==> start.contains(x)
                || explanations(
                st@,
                my_side@,
                opp,
                target,
                budget,
                needs_defense,
                required,
                k + 1,
            ).contains(x) by {
                assert(had.contains(x) <==> start.contains(x) || explanations(
                    st@,
                    my_side@,
                    opp,
                    target,
                    budget,
                    needs_defense,
                    required,
                    k as int,
                ).contains(x));
                if explanations(
                    st@,
                    my_side@,
                    opp,
                    target,
                    budget,
                    needs_defense,
                    required,
                    k as int,
                ).contains(x) {
                    let j = choose|j: int|
                        0 <= j < k && explained_by(
                            #[trigger] movers_of(st@, opp, target, budget, required)[j],
                            my_side@,
                            opp,
                            target,
                            budget,
                            needs_defense,
                            x,
                        );
                    assert(explained_by(
                        movers_of(st@, opp, target, budget, required)[j],
                        my_side@,
                        opp,
                        target,
                        budget,
                        needs_defense,
                        x,
                    ));
                }
                if explained_by(
                    movers@[k as int]@,
                    my_side@,
                    opp,
                    target,
                    budget,
                    needs_defense,
                    x,
                ) {
                    assert(explained_by(
                        movers_of(st@, opp, target, budget, required)[k as int],
                        my_side@,
                        opp,
                        target,
                        budget,
                        needs_defense,
                        x,
                    ));
                }
            }
        }
        k += 1;
    }
}

/// Follows a capture: sets up every side of the opponent that explains it, from any of several. The
/// kind of the piece is known where it was the opponent's that was taken; the square has to be
/// defended where the own king could not take back on it.
pub fn resolve_capture_stretch(
    states: &Vec<OppState>,
    my_side: &Position,
    opp: Color,
    target: Coord,
    budget: u32,
    needs_defense: bool,
    required: Option<Role>,
) -> (res: Vec<OppState>)
    requires
        all_wf(states@),
        is_on_board(target),
    ensures
        state_set(res@) == capture_stretch(
            state_set(states@),
            my_side@,
            opp,
            target,
            budget,
            needs_defense,
            required,
        ),
        all_wf(res@),
{
    let ghost full = |st: OppModel|
        explanations(
            st,
            my_side@,
            opp,
            target,
            budget,
            needs_defense,
            required,
            movers_of(st, opp, target, budget, required).len() as int,
        );
    let mut out: Vec<OppState> = Vec::new();
    let mut i: usize = 0;
    while i < states.len()
        invariant
            i <= states@.len(),
            all_wf(states@),
            all_wf(out@),
            is_on_board(target),
            full == (|st: OppModel|
                explanations(
                    st,
                    my_side@,
                    opp,
                    target,
                    budget,
                    needs_defense,
                    required,
                    movers_of(st, opp, target, budget, required).len() as int,
                )),
            forall|x: OppModel|
                #[trigger] state_set(out@).contains(x) <==> exists|k: int|
                    0 <= k < i && full((#[trigger] states@[k])@).contains(x),
        decreases states@.len() - i,
    {
        let ghost had = state_set(out@);
        add_explanations(
            &mut out,
            &states[i],
            my_side,
            opp,
            target,
            budget,
            needs_defense,
            required,
        );
        proof {
            assert forall|x: OppModel| #[trigger] state_set(out@).contains(x) <==> exists|k: int|
                0 <= k < i + 1 && full((#[trigger] states@[k])@).contains(x) by {
                assert(had.contains(x) <==> exists|k: int|
                    0 <= k < i && full((#[trigger] states@[k])@).contains(x));
                if had.contains(x) {
                    let k = choose|k: int| 0 <= k < i && full((#[trigger] states@[k])@).contains(x);
                    assert(full(states@[k]@).contains(x));
                }
                if full(states@[i as int]@).contains(x) {
                    assert(full(states@[i as int]@).contains(x));
                }
            }
        }
        i += 1;
    }
    proof {
        let goal = capture_stretch(
            state_set(states@),
            my_side@,
            opp,
            target,
            budget,
            needs_defense,
            required,
        );
        assert forall|x: OppModel| state_set(out@).contains(x) <==> goal.contains(x) by {
            if state_set(out@).contains(x) {
                let k = choose|k: int|
                    0 <= k < states@.len() && full((#[trigger] states@[k])@).contains(x);
                assert(state_set(states@).contains(states@[k]@));
            }
            if goal.contains(x) {
                let st = choose|st: OppModel|
                    #[trigger] state_set(states@).contains(st) && full(st).contains(x);
                let k = choose|k: int| 0 <= k < states@.len() && (#[trigger] states@[k])@ == st;
                assert(full(states@[k]@).contains(x));
            }
        }
        assert(state_set(out@) =~= goal);
    }
    out
}

/// The move that a foul of a score was, if there is a piece to move or to drop. A piece that is named
/// as promoted, and is not yet, was to promote.
pub open spec fn tried(pos: PositionModel, f: RawFoul) -> Option<ShogiMove> {
    match f {
        RawFoul::Drop { role, to } => if slot_of(role) is Some {
            Some(ShogiMove::Drop { role, to })
        } else {
            None
        },
        RawFoul::Board { from, to, role } => match pos.at(from) {
            Some(p) => Some(
                ShogiMove::Board { from, to, promote: is_promoted(role) && !is_promoted(p.role) },
            ),
            None => None,
        },
    }
}

fn resolve_tried(pos: &Position, f: &RawFoul) -> (res: Option<ShogiMove>)
    ensures
        res == tried(pos@, *f),
{
    match *f {
        RawFoul::Drop { role, to } => if crate::protocol::hand_slot(role).is_some() {
            Some(ShogiMove::Drop { role, to })
        } else {
            None
        },
        RawFoul::Board { from, to, role } => match pos.piece_at(from) {
            Some(p) => {
                let named = role != unpromote_role(role);
                let is_up = p.role != unpromote_role(p.role);
                Some(ShogiMove::Board { from, to, promote: named && !is_up })
            },
            None => None,
        },
    }
}

/// What happened at a move of a score.
#[derive(Debug)]
pub struct RawFact {
    pub side: Color,
    /// What the side tried before.
    pub fouls: Vec<ShogiMove>,
    pub mv: ShogiMove,
    /// What it took, unpromoted.
    pub captured: Option<Role>,
    /// Where it took it.
    pub captured_at: Option<Coord>,
    pub gives_check: bool,
}

/// The mathematical content of a `RawFact`.
pub struct RawFactModel {
    pub side: Color,
    pub fouls: Seq<ShogiMove>,
    pub mv: ShogiMove,
    pub captured: Option<Role>,
    pub captured_at: Option<Coord>,
    pub gives_check: bool,
}

impl View for RawFact {
    type V = RawFactModel;

    open spec fn view(&self) -> RawFactModel {
        RawFactModel {
            side: self.side,
            fouls: self.fouls@,
            mv: self.mv,
            captured: self.captured,
            captured_at: self.captured_at,
            gives_check: self.gives_check,
        }
    }
}

/// The contents of a list of facts.
pub open spec fn raw_list(raw: Seq<RawFact>) -> Seq<RawFactModel> {
    raw.map_values(|f: RawFact| f@)
}

/// Where a move took a piece.
pub open spec fn capture_square(pos: PositionModel, mv: ShogiMove) -> Option<Coord> {
    match (taken_by(pos, mv), mv) {
        (Some(r), ShogiMove::Board { from, to, promote }) => Some(to),
        _ => None,
    }
}

/// Whether a move of a score can be carried out, and each of the fouls before it named.
pub open spec fn ply_fits(pos: PositionModel, ply: Ply) -> bool {
    playable(pos, ply.mv) && forall|i: int|
        0 <= i < ply.fouls@.len() ==> tried(pos, #[trigger] ply.fouls@[i]) is Some
}

/// What happens at a move of a score.
pub open spec fn raw_fact(pos: PositionModel, ply: Ply) -> RawFactModel {
    let next = after_move(pos, ply.mv);
    RawFactModel {
        side: pos.turn,
        fouls: ply.fouls@.map_values(|f: RawFoul| tried(pos, f)->0),
        mv: ply.mv,
        captured: hand_role(taken_by(pos, ply.mv)),
        captured_at: capture_square(pos, ply.mv),
        gives_check: checked(next, next.turn),
    }
}

/// The position after the first `k` moves of a score, if they can be carried out.
pub open spec fn raw_position(plies: Seq<Ply>, k: int) -> Option<PositionModel>
    decreases k,
{
    if k <= 0 {
        Some(initial_model())
    } else {
        match raw_position(plies, k - 1) {
            Some(pos) => if ply_fits(pos, plies[k - 1]) {
                Some(after_move(pos, plies[k - 1].mv))
            } else {
                None
            },
            None => None,
        }
    }
}

/// What happens in a score, if it can be carried out.
pub open spec fn raw_facts(plies: Seq<Ply>) -> Option<Seq<RawFactModel>> {
    if raw_position(plies, plies.len() as int) is Some {
        Some(Seq::new(plies.len(), |i: int| raw_fact(raw_position(plies, i)->0, plies[i])))
    } else {
        None
    }
}

proof fn lemma_raw_position_prefix(plies: Seq<Ply>, k: int, n: int)
    requires
        0 <= k <= n,
        raw_position(plies, n) is Some,
    ensures
        raw_position(plies, k) is Some,
    decreases n - k,
{
    if k < n {
        lemma_raw_position_prefix(plies, k, n - 1);
    }
}

fn list_tried(pos: &Position, fouls: &Vec<RawFoul>) -> (res: Option<Vec<ShogiMove>>)
    ensures
        res is Some <==> forall|i: int|
            0 <= i < fouls@.len() ==> tried(pos@, #[trigger] fouls@[i]) is Some,
        res matches Some(list) ==> list@ == fouls@.map_values(|f: RawFoul| tried(pos@, f)->0),
{
    let ghost pick = |f: RawFoul| tried(pos@, f)->0;
    let mut out: Vec<ShogiMove> = Vec::new();
    let mut i: usize = 0;
    while i < fouls.len()
        invariant
            i <= fouls@.len(),
            pick == (|f: RawFoul| tried(pos@, f)->0),
            out@ == fouls@.take(i as int).map_values(pick),
            forall|k: int| 0 <= k < i ==> tried(pos@, #[trigger] fouls@[k]) is Some,
        decreases fouls@.len() - i,
    {
        match resolve_tried(pos, &fouls[i]) {
            Some(mv) => {
                out.push(mv);
                assert(out@ =~= fouls@.take(i + 1).map_values(pick));
            },
            None => {
                assert(tried(pos@, fouls@[i as int]) is None);
                return None;
            },
        }
        i += 1;
    }
    assert(fouls@.take(i as int) =~= fouls@);
    Some(out)
}

fn can_play(pos: &Position, mv: &ShogiMove) -> (res: bool)
    ensures
        res == playable(pos@, *mv),
{
    match *mv {
        ShogiMove::Board { from, to, promote: _ } => on_board(from) && on_board(to)
            && pos.piece_at(from).is_some(),
        ShogiMove::Drop { role, to } => on_board(to) && crate::protocol::hand_slot(
            role,
        ).is_some(),
    }
}

/// Lists what happens in a score; nothing comes back of one that cannot be carried out.
pub fn replay_raw(kifu: &Kifu) -> (res: Option<Vec<RawFact>>)
    ensures
        match res {
            Some(list) => raw_facts(kifu.plies@) == Some(raw_list(list@)),
            None => raw_facts(kifu.plies@) is None,
        },
{
    let ghost plies = kifu.plies@;
    let mut pos = Position::initial();
    let mut out: Vec<RawFact> = Vec::new();
    let mut i: usize = 0;
    while i < kifu.plies.len()
        invariant
            i <= kifu.plies@.len(),
            plies == kifu.plies@,
            raw_position(plies, i as int) == Some(pos@),
            out@.len() == i,
            forall|k: int|
                0 <= k < i ==> (#[trigger] out@[k])@ == raw_fact(raw_position(plies, k)->0, plies[k]),
        decreases kifu.plies@.len() - i,
    {
        let ply = &kifu.plies[i];
        let side = pos.turn();
        let ghost had = pos@;
        let fouls = match list_tried(&pos, &ply.fouls) {
            Some(fouls) => fouls,
            None => {
                proof {
                    assert(raw_position(plies, i + 1) is None);
                    if raw_position(plies, plies.len() as int) is Some {
                        lemma_raw_position_prefix(plies, i + 1, plies.len() as int);
                    }
                }
                return None;
            },
        };
        if !can_play(&pos, &ply.mv) {
            proof {
                assert(raw_position(plies, i + 1) is None);
                if raw_position(plies, plies.len() as int) is Some {
                    lemma_raw_position_prefix(plies, i + 1, plies.len() as int);
                }
            }
            return None;
        }
        let taken = pos.play_unchecked(&ply.mv);
        let captured = match taken {
            Some(role) => Some(unpromote_role(role)),
            None => None,
        };
        let captured_at = match (taken, ply.mv) {
            (Some(_), ShogiMove::Board { from: _, to, promote: _ }) => Some(to),
            _ => None,
        };
        let gives_check = pos.in_check(pos.turn());
        let fact = RawFact { side, fouls, mv: ply.mv, captured, captured_at, gives_check };
        assert(fact@ == raw_fact(had, *ply));
        out.push(fact);
        i += 1;
    }
    assert(raw_list(out@) =~= raw_facts(plies)->0);
    Some(out)
}

/// What a player learns at a move.
#[derive(Debug)]
pub enum PlyFact {
    Mine { fouls: Vec<ShogiMove>, mv: ShogiMove, captured: Option<Role>, gives_check: bool },
    Theirs { captured_at: Option<Coord>, gives_check: bool },
}

/// The mathematical content of a `PlyFact`.
pub enum FactModel {
    Mine { fouls: Seq<ShogiMove>, mv: ShogiMove, captured: Option<Role>, gives_check: bool },
    Theirs { captured_at: Option<Coord>, gives_check: bool },
}

impl View for PlyFact {
    type V = FactModel;

    open spec fn view(&self) -> FactModel {
        match self {
            PlyFact::Mine { fouls, mv, captured, gives_check } => FactModel::Mine {
                fouls: fouls@,
                mv: *mv,
                captured: *captured,
                gives_check: *gives_check,
            },
            PlyFact::Theirs { captured_at, gives_check } => FactModel::Theirs {
                captured_at: *captured_at,
                gives_check: *gives_check,
            },
        }
    }
}

/// The contents of a list of facts.
pub open spec fn fact_list(facts: Seq<PlyFact>) -> Seq<FactModel> {
    facts.map_values(|f: PlyFact| f@)
}

/// What a player learns of what happened.
pub open spec fn learnt(f: RawFactModel, my_color: Color) -> FactModel {
    if f.side == my_color {
        FactModel::Mine {
            fouls: f.fouls,
            mv: f.mv,
            captured: f.captured,
            gives_check: f.gives_check,
        }
    } else {
        FactModel::Theirs { captured_at: f.captured_at, gives_check: f.gives_check }
    }
}

fn copy_moves(list: &Vec<ShogiMove>) -> (res: Vec<ShogiMove>)
    ensures
        res@ == list@,
{
    let mut out: Vec<ShogiMove> = Vec::new();
    let mut i: usize = 0;
    while i < list.len()
        invariant
            i <= list@.len(),
            out@ == list@.take(i as int),
        decreases list@.len() - i,
    {
        out.push(list[i]);
        assert(out@ =~= list@.take(i + 1));
        i += 1;
    }
    assert(list@.take(i as int) =~= list@);
    out
}

/// Lists what a player learns of what happened.
pub fn classify(raw: &Vec<RawFact>, my_color: Color) -> (res: Vec<PlyFact>)
    ensures
        fact_list(res@) == raw_list(raw@).map_values(|f: RawFactModel| learnt(f, my_color)),
{
    let ghost pick = |f: RawFactModel| learnt(f, my_color);
    let mut out: Vec<PlyFact> = Vec::new();
    let mut i: usize = 0;
    while i < raw.len()
        invariant
            i <= raw@.len(),
            out@.len() == i,
            forall|k: int| 0 <= k < i ==> (#[trigger] out@[k])@ == learnt(raw@[k]@, my_color),
        decreases raw@.len() - i,
    {
        let f = &raw[i];
        if f.side == my_color {
            out.push(
                PlyFact::Mine {
                    fouls: copy_moves(&f.fouls),
                    mv: f.mv,
                    captured: f.captured,
                    gives_check: f.gives_check,
                },
            );
        } else {
            out.push(
                PlyFact::Theirs { captured_at: f.captured_at, gives_check: f.gives_check },
            );
        }
        i += 1;
    }
    assert(fact_list(out@) =~= raw_list(raw@).map_values(pick));
    out
}

/// The own side after one more fact, if it fits.
pub open spec fn own_step(
    pos: PositionModel,
    f: FactModel,
    my_color: Color,
) -> Option<PositionModel> {
    match f {
        FactModel::Mine { fouls, mv, captured, gives_check } => {
            let placed = match mv {
                ShogiMove::Board { from, to, promote } => if is_on_board(to) {
                    match pos.at(from) {
                        Some(p) => Some(
                            pos.with_cell(from, None).with_cell(
                                to,
                                Some(Piece { color: p.color, role: arriving_role(p.role, promote) }),
                            ),
                        ),
                        None => None,
                    }
                } else {
                    None
                },
                ShogiMove::Drop { role, to } => if is_on_board(to) {
                    Some(
                        pos.with_cell(to, Some(Piece { color: my_color, role })).with_hand(
                            my_color,
                            hand_loss(pos.hand(my_color), role),
                        ),
                    )
                } else {
                    None
                },
            };
            match (placed, captured) {
                (Some(next), Some(r)) => Some(
                    next.with_hand(my_color, hand_gain(next.hand(my_color), r)),
                ),
                (Some(next), None) => Some(next),
                (None, _) => None,
            }
        },
        FactModel::Theirs { captured_at, gives_check } => match captured_at {
            Some(sq) => if is_on_board(sq) {
                Some(pos.with_cell(sq, None))
            } else {
                None
            },
            None => Some(pos),
        },
    }
}

/// The own side after the first `n` facts, if they fit.
pub open spec fn own_side(facts: Seq<FactModel>, my_color: Color, n: int) -> Option<PositionModel>
    decreases n,
{
    if n <= 0 {
        Some(only_side(initial_model(), my_color))
    } else {
        match own_side(facts, my_color, n - 1) {
            Some(pos) => own_step(pos, facts[n - 1], my_color),
            None => None,
        }
    }
}

fn step_own(pos: &mut Position, f: &PlyFact, my_color: Color) -> (res: bool)
    ensures
        res == (own_step(old(pos)@, f@, my_color) is Some),
        res ==> own_step(old(pos)@, f@, my_color) == Some(final(pos)@),
{
    match f {
        PlyFact::Mine { fouls: _, mv, captured, gives_check: _ } => {
            match *mv {
                ShogiMove::Board { from, to, promote } => {
                    if !on_board(to) {
                        return false;
                    }
                    let p = match pos.piece_at(from) {
                        Some(p) => p,
                        None => return false,
                    };
                    let role = if promote {
                        match promote_role(p.role) {
                            Some(r) => r,
                            None => p.role,
                        }
                    } else {
                        p.role
                    };
                    pos.set(from, None);
                    pos.set(to, Some(Piece { color: p.color, role }));
                },
                ShogiMove::Drop { role, to } => {
                    if !on_board(to) {
                        return false;
                    }
                    let n: u8 = pos.hand_count(my_color, role);
                    pos.set(to, Some(Piece { color: my_color, role }));
                    pos.set_hand(
                        my_color,
                        role,
                        if n == 0 {
                            0
                        } else {
                            n - 1
                        },
                    );
                    assert(pos@ =~= old(pos)@.with_cell(
                        to,
                        Some(Piece { color: my_color, role }),
                    ).with_hand(my_color, hand_loss(old(pos)@.hand(my_color), role)));
                },
            }
            if let Some(r) = captured {
                let base = unpromote_role(*r);
                let ghost had = pos@;
                let n: u8 = pos.hand_count(my_color, base);
                pos.set_hand(
                    my_color,
                    base,
                    if n == 255 {
                        255
                    } else {
                        n + 1
                    },
                );
                assert(pos@ =~= had.with_hand(my_color, hand_gain(had.hand(my_color), *r)));
            }
        },
        PlyFact::Theirs { captured_at, gives_check: _ } => {
            if let Some(sq) = captured_at {
                if !on_board(*sq) {
                    return false;
                }
                pos.set(*sq, None);
            }
        },
    }
    true
}

/// Restores the own side from the first `n` facts alone; nothing comes back where they do not fit.
pub fn compute_my_side(facts: &Vec<PlyFact>, my_color: Color, n: usize) -> (res: Option<Position>)
    requires
        n <= facts@.len(),
    ensures
        match res {
            Some(pos) => own_side(fact_list(facts@), my_color, n as int) == Some(pos@),
            None => own_side(fact_list(facts@), my_color, n as int) is None,
        },
{
    let ghost list = fact_list(facts@);
    let start = Position::initial();
    let mut pos = side_only(&start, my_color);
    let mut i: usize = 0;
    while i < n
        invariant
            i <= n <= facts@.len(),
            list == fact_list(facts@),
            own_side(list, my_color, i as int) == Some(pos@),
        decreases n - i,
    {
        assert(list[i as int] == facts@[i as int]@);
        if !step_own(&mut pos, &facts[i], my_color) {
            proof {
                lemma_own_side_broken(list, my_color, i + 1, n as int);
            }
            return None;
        }
        i += 1;
    }
    Some(pos)
}

proof fn lemma_own_side_broken(facts: Seq<FactModel>, my_color: Color, k: int, n: int)
    requires
        0 <= k <= n,
        own_side(facts, my_color, k) is None,
    ensures
        own_side(facts, my_color, n) is None,
    decreases n - k,
{
    if k < n {
        lemma_own_side_broken(facts, my_color, k, n - 1);
    }
}

/// Whether a move is one of the king's onto a square.
pub open spec fn king_takes(mv: ShogiMove, king: Option<Coord>, target: Coord) -> bool {
    mv matches ShogiMove::Board { from, to, promote } && king == Some(from) && to == target
}

/// Whether the own king could not take on a square at the move after a fact: that was a foul.
pub open spec fn king_refused(
    facts: Seq<FactModel>,
    i: int,
    my_color: Color,
    side: PositionModel,
    target: Coord,
) -> bool {
    i + 1 < facts.len() && match facts[i + 1] {
        FactModel::Mine { fouls, mv, captured, gives_check } => exists|k: int|
            0 <= k < fouls.len() && king_takes(
                #[trigger] fouls[k],
                king_of(side, my_color),
                target,
            ),
        FactModel::Theirs { captured_at, gives_check } => false,
    }
}

fn any_king_takes(fouls: &Vec<ShogiMove>, king: Option<Coord>, target: Coord) -> (res: bool)
    ensures
        res == exists|k: int|
            0 <= k < fouls@.len() && king_takes(#[trigger] fouls@[k], king, target),
{
    let mut k: usize = 0;
    while k < fouls.len()
        invariant
            k <= fouls@.len(),
            forall|j: int| 0 <= j < k ==> !king_takes(#[trigger] fouls@[j], king, target),
        decreases fouls@.len() - k,
    {
        if let ShogiMove::Board { from, to, promote: _ } = fouls[k] {
            if king == Some(from) && to == target {
                assert(king_takes(fouls@[k as int], king, target));
                return true;
            }
        }
        k += 1;
    }
    false
}

/// Whether the own king could not take on a square at the move after a fact.
pub fn detects_king_recapture_foul(
    facts: &Vec<PlyFact>,
    i: usize,
    my_color: Color,
    side: &Position,
    target: Coord,
) -> (res: bool)
    requires
        i < facts@.len(),
    ensures
        res == king_refused(fact_list(facts@), i as int, my_color, side@, target),
{
    if i >= facts.len() - 1 {
        return false;
    }
    assert(fact_list(facts@)[i + 1] == facts@[i + 1]@);
    match &facts[i + 1] {
        PlyFact::Mine { fouls, mv: _, captured: _, gives_check: _ } => {
            let res = any_king_takes(fouls, side.king_square(my_color), target);
            proof {
                let tries = facts@[i + 1]@->Mine_fouls;
                assert(tries == fouls@);
                if res {
                    let k = choose|k: int|
                        0 <= k < fouls@.len() && king_takes(
                            #[trigger] fouls@[k],
                            king_of(side@, my_color),
                            target,
                        );
                    assert(king_takes(tries[k], king_of(side@, my_color), target));
                }
            }
            res
        },
        PlyFact::Theirs { captured_at: _, gives_check: _ } => false,
    }
}

/// The state of the search: the sides of the opponent that are possible, and how many moves it has
/// made.
pub struct SearchModel {
    pub states: Set<OppModel>,
    pub opp_moves: u32,
}

/// The sides that are left after an own capture on a square: the piece there is gone, and the
/// opponent is in check exactly where that was declared.
pub open spec fn after_my_capture(
    explained: Set<OppModel>,
    my_side: PositionModel,
    opp: Color,
    to: Coord,
    gives_check: bool,
) -> Set<OppModel> {
    Set::new(
        |x: OppModel|
            checked(combined(my_side, x, opp, opp), opp) == gives_check && exists|st: OppModel|
                #[trigger] explained.contains(st) && x == without(st, to),
    )
}

/// The sides that are left after a capture of the opponent: the own king is in check exactly where
/// that was declared.
pub open spec fn after_their_capture(
    explained: Set<OppModel>,
    my_side: PositionModel,
    my_color: Color,
    gives_check: bool,
) -> Set<OppModel> {
    explained.filter(
        |x: OppModel|
            checked(combined(my_side, x, other_color(my_color), my_color), my_color) == gives_check,
    )
}

/// The sides that explain a check on a square, from any of several.
pub open spec fn after_bare_check(
    states: Set<OppModel>,
    opp: Color,
    budget: u32,
    king: Coord,
) -> Set<
    OppModel,
> {
    Set::new(
        |x: OppModel|
            exists|st: OppModel| #[trigger]
                states.contains(st) && attackers_of(st, None, opp, budget, king).contains(x),
    )
}

/// The search after one more fact; nothing where the facts do not fit one another.
pub open spec fn search_step(
    facts: Seq<FactModel>,
    my_color: Color,
    m: SearchModel,
    i: int,
) -> Option<
    SearchModel,
> {
    let opp = other_color(my_color);
    let before_ = own_side(facts, my_color, i);
    let after = own_side(facts, my_color, i + 1);
    match facts[i] {
        FactModel::Mine { fouls, mv, captured, gives_check } => match captured {
            Some(role) => match (mv, before_, after) {
                (ShogiMove::Board { from, to, promote }, Some(b), Some(a)) => Some(
                    SearchModel {
                        states: after_my_capture(
                            capture_stretch(m.states, b, opp, to, m.opp_moves, false, Some(role)),
                            a,
                            opp,
                            to,
                            gives_check,
                        ),
                        ..m
                    },
                ),
                _ => None,
            },
            None => Some(m),
        },
        FactModel::Theirs { captured_at, gives_check } => {
            let budget = (m.opp_moves + 1) as u32;
            match captured_at {
                Some(target) => match after {
                    Some(a) => Some(
                        SearchModel {
                            states: after_their_capture(
                                capture_stretch(
                                    m.states,
                                    a,
                                    opp,
                                    target,
                                    budget,
                                    king_refused(facts, i, my_color, a, target),
                                    None,
                                ),
                                a,
                                my_color,
                                gives_check,
                            ),
                            opp_moves: budget,
                        },
                    ),
                    None => None,
                },
                None => if !gives_check {
                    Some(SearchModel { opp_moves: budget, ..m })
                } else {
                    match after {
                        Some(a) => match king_of(a, my_color) {
                            Some(king) => Some(
                                SearchModel {
                                    states: after_bare_check(m.states, opp, budget, king),
                                    opp_moves: budget,
                                },
                            ),
                            None => None,
                        },
                        None => None,
                    }
                },
            }
        },
    }
}

/// The search from the first position over the first `n` facts. Where no side is possible any more
/// it stands still.
pub open spec fn search_run(facts: Seq<FactModel>, my_color: Color, n: int) -> Option<SearchModel>
    decreases n,
{
    if n <= 0 {
        Some(
            SearchModel {
                states: Set::empty().insert(side_of(initial_model(), other_color(my_color))),
                opp_moves: 0,
            },
        )
    } else {
        match search_run(facts, my_color, n - 1) {
            Some(m) => if m.states == Set::<OppModel>::empty() {
                Some(m)
            } else {
                search_step(facts, my_color, m, n - 1)
            },
            None => None,
        }
    }
}

/// What a search has found.
#[derive(Debug)]
pub struct Search {
    pub states: Vec<OppState>,
    pub opp_moves: u32,
}

impl View for Search {
    type V = SearchModel;

    open spec fn view(&self) -> SearchModel {
        SearchModel { states: state_set(self.states@), opp_moves: self.opp_moves }
    }
}

fn keep_my_capture(
    explained: &Vec<OppState>,
    my_side: &Position,
    opp: Color,
    to: Coord,
    gives_check: bool,
) -> (res: Vec<OppState>)
    requires
        all_wf(explained@),
    ensures
        state_set(res@) == after_my_capture(
            state_set(explained@),
            my_side@,
            opp,
            to,
            gives_check,
        ),
        all_wf(res@),
{
    let ghost fits = |x: OppModel|
        checked(combined(my_side@, x, opp, opp), opp) == gives_check;
    let mut out: Vec<OppState> = Vec::new();
    let mut i: usize = 0;
    while i < explained.len()
        invariant
            i <= explained@.len(),
            all_wf(explained@),
            all_wf(out@),
            fits == (|x: OppModel|
                checked(combined(my_side@, x, opp, opp), opp) == gives_check),
            forall|x: OppModel|
                #[trigger] state_set(out@).contains(x) <==> fits(x) && exists|k: int|
                    0 <= k < i && x == without((#[trigger] explained@[k])@, to),
        decreases explained@.len() - i,
    {
        let ghost had = state_set(out@);
        let st = remove_piece_at(&explained[i], to);
        let ghost m = st@;
        let whole = combine(my_side, &st, opp, opp);
        if whole.in_check(opp) == gives_check {
            insert_state(&mut out, st);
        }
        proof {
            assert forall|x: OppModel| #[trigger] state_set(out@).contains(x) <==> fits(x)
                && exists|k: int| 0 <= k < i + 1 && x == without((#[trigger] explained@[k])@, to) by {
                assert(had.contains(x) <==> fits(x) && exists|k: int|
                    0 <= k < i && x == without((#[trigger] explained@[k])@, to));
                if exists|k: int| 0 <= k < i && x == without((#[trigger] explained@[k])@, to) {
                    let k = choose|k: int|
                        0 <= k < i && x == without((#[trigger] explained@[k])@, to);
                    assert(x == without(explained@[k]@, to));
                }
                if x == m {
                    assert(x == without(explained@[i as int]@, to));
                }
            }
        }
        i += 1;
    }
    proof {
        let goal = after_my_capture(state_set(explained@), my_side@, opp, to, gives_check);
        assert forall|x: OppModel| state_set(out@).contains(x) <==> goal.contains(x) by {
            if state_set(out@).contains(x) {
                let k = choose|k: int|
                    0 <= k < explained@.len() && x == without((#[trigger] explained@[k])@, to);
                assert(state_set(explained@).contains(explained@[k]@));
            }
            if goal.contains(x) {
                let st = choose|st: OppModel| #[trigger]
                    state_set(explained@).contains(st) && x == without(st, to);
                let k = choose|k: int| 0 <= k < explained@.len() && (#[trigger] explained@[k])@ == st;
                assert(x == without(explained@[k]@, to));
            }
        }
        assert(state_set(out@) =~= goal);
    }
    out
}

fn keep_their_capture(
    explained: Vec<OppState>,
    my_side: &Position,
    my_color: Color,
    gives_check: bool,
) -> (res: Vec<OppState>)
    requires
        all_wf(explained@),
    ensures
        state_set(res@) == after_their_capture(
            state_set(explained@),
            my_side@,
            my_color,
            gives_check,
        ),
        all_wf(res@),
{
    let opp = my_color.other();
    let ghost fits = |x: OppModel|
        checked(combined(my_side@, x, other_color(my_color), my_color), my_color) == gives_check;
    let mut out: Vec<OppState> = Vec::new();
    let mut i: usize = 0;
    while i < explained.len()
        invariant
            i <= explained@.len(),
            opp == other_color(my_color),
            all_wf(explained@),
            all_wf(out@),
            fits == (|x: OppModel|
                checked(combined(my_side@, x, other_color(my_color), my_color), my_color)
                    == gives_check),
            forall|x: OppModel|
                #[trigger] state_set(out@).contains(x) <==> fits(x) && exists|k: int|
                    0 <= k < i && x == (#[trigger] explained@[k])@,
        decreases explained@.len() - i,
    {
        let ghost had = state_set(out@);
        let ghost m = explained@[i as int]@;
        let whole = combine(my_side, &explained[i], opp, my_color);
        if whole.in_check(my_color) == gives_check {
            insert_state(&mut out, copy_state(&explained[i]));
        }
        proof {
            assert forall|x: OppModel| #[trigger] state_set(out@).contains(x) <==> fits(x)
                && exists|k: int| 0 <= k < i + 1 && x == (#[trigger] explained@[k])@ by {
                assert(had.contains(x) <==> fits(x) && exists|k: int|
                    0 <= k < i && x == (#[trigger] explained@[k])@);
                if exists|k: int| 0 <= k < i && x == (#[trigger] explained@[k])@ {
                    let k = choose|k: int| 0 <= k < i && x == (#[trigger] explained@[k])@;
                    assert(x == explained@[k]@);
                }
                if x == m {
                    assert(x == explained@[i as int]@);
                }
            }
        }
        i += 1;
    }
    proof {
        let goal = after_their_capture(state_set(explained@), my_side@, my_color, gives_check);
        assert(state_set(out@) =~= goal);
    }
    out
}

fn follow_check(states: &Vec<OppState>, opp: Color, budget: u32, king: Coord) -> (res: Vec<OppState>)
    requires
        all_wf(states@),
    ensures
        state_set(res@) == after_bare_check(state_set(states@), opp, budget, king),
        all_wf(res@),
{
    let ghost ways = |st: OppModel| attackers_of(st, None, opp, budget, king);
    let mut out: Vec<OppState> = Vec::new();
    let mut i: usize = 0;
    while i < states.len()
        invariant
            i <= states@.len(),
            all_wf(states@),
            all_wf(out@),
            ways == (|st: OppModel| attackers_of(st, None, opp, budget, king)),
            forall|x: OppModel|
                #[trigger] state_set(out@).contains(x) <==> exists|k: int|
                    0 <= k < i && ways((#[trigger] states@[k])@).contains(x),
        decreases states@.len() - i,
    {
        let ghost had = state_set(out@);
        let more = candidate_attackers(&states[i], None, opp, budget, king);
        let ghost list = state_list(more@);
        add_states(&mut out, more);
        proof {
            assert forall|x: OppModel| #[trigger] state_set(out@).contains(x) <==> exists|k: int|
                0 <= k < i + 1 && ways((#[trigger] states@[k])@).contains(x) by {
                assert(had.contains(x) <==> exists|k: int|
                    0 <= k < i && ways((#[trigger] states@[k])@).contains(x));
                if had.contains(x) {
                    let k = choose|k: int| 0 <= k < i && ways((#[trigger] states@[k])@).contains(x);
                    assert(ways(states@[k]@).contains(x));
                }
                if list.contains(x) {
                    assert(ways(states@[i as int]@).contains(x));
                }
            }
        }
        i += 1;
    }
    proof {
        let goal = after_bare_check(state_set(states@), opp, budget, king);
        assert forall|x: OppModel| state_set(out@).contains(x) <==> goal.contains(x) by {
            if state_set(out@).contains(x) {
                let k = choose|k: int|
                    0 <= k < states@.len() && ways((#[trigger] states@[k])@).contains(x);
                assert(state_set(states@).contains(states@[k]@));
            }
            if goal.contains(x) {
                let st = choose|st: OppModel| #[trigger]
                    state_set(states@).contains(st) && ways(st).contains(x);
                let k = choose|k: int| 0 <= k < states@.len() && (#[trigger] states@[k])@ == st;
                assert(ways(states@[k]@).contains(x));
            }
        }
        assert(state_set(out@) =~= goal);
    }
    out
}

impl Search {
    /// The search at the first position.
    pub fn start(my_color: Color) -> (res: Search)
        ensures
            search_run(Seq::empty(), my_color, 0) == Some(res@),
            all_wf(res.states@),
    {
        let first = Position::initial();
        let mut states: Vec<OppState> = Vec::new();
        assert(state_set(states@) =~= Set::<OppModel>::empty());
        insert_state(&mut states, to_opp_state(&first, my_color.other()));
        Search { states, opp_moves: 0 }
    }

    /// Follows one more fact. `false` where the facts do not fit one another.
    pub fn follow(&mut self, facts: &Vec<PlyFact>, my_color: Color, i: usize) -> (res: bool)
        requires
            i < facts@.len(),
            all_wf(old(self).states@),
            old(self).opp_moves < u32::MAX,
        ensures
            res == (search_step(fact_list(facts@), my_color, old(self)@, i as int) is Some),
            res ==> search_step(fact_list(facts@), my_color, old(self)@, i as int) == Some(
                final(self)@,
            ),
            all_wf(final(self).states@),
            final(self).opp_moves <= old(self).opp_moves + 1,
    {
        let opp = my_color.other();
        let total: usize = facts.len();
        assert(i < total);
        assert(fact_list(facts@)[i as int] == facts@[i as int]@);
        match &facts[i] {
            PlyFact::Mine { fouls: _, mv, captured, gives_check } => {
                let role = match captured {
                    Some(role) => *role,
                    None => return true,
                };
                let to = match *mv {
                    ShogiMove::Board { from: _, to, promote: _ } => to,
                    ShogiMove::Drop { role: _, to: _ } => return false,
                };
                let before_side = match compute_my_side(facts, my_color, i) {
                    Some(side) => side,
                    None => return false,
                };
                let after_side = match compute_my_side(facts, my_color, i + 1) {
                    Some(side) => side,
                    None => return false,
                };
                let explained = resolve_capture_stretch(
                    &self.states,
                    &before_side,
                    opp,
                    to,
                    self.opp_moves,
                    false,
                    Some(role),
                );
                self.states = keep_my_capture(&explained, &after_side, opp, to, *gives_check);
                true
            },
            PlyFact::Theirs { captured_at, gives_check } => {
                let budget: u32 = self.opp_moves + 1;
                if captured_at.is_none() && !*gives_check {
                    self.opp_moves = budget;
                    return true;
                }
                let side = match compute_my_side(facts, my_color, i + 1) {
                    Some(side) => side,
                    None => return false,
                };
                match captured_at {
                    Some(target) => {
                        let needs = detects_king_recapture_foul(facts, i, my_color, &side, *target);
                        let explained = resolve_capture_stretch(
                            &self.states,
                            &side,
                            opp,
                            *target,
                            budget,
                            needs,
                            None,
                        );
                        self.states = keep_their_capture(explained, &side, my_color, *gives_check);
                    },
                    None => {
                        let king = match side.king_square(my_color) {
                            Some(king) => king,
                            None => return false,
                        };
                        self.states = follow_check(&self.states, opp, budget, king);
                    },
                }
                self.opp_moves = budget;
                true
            },
        }
    }
}

/// The side that a search stands on: the one to move where the score says that the decision is, else
/// at the end of the window, else in the last move.
pub open spec fn side_searching(
    directives: Seq<(String, String)>,
    raw: Seq<RawFactModel>,
    win_end: int,
) -> Color {
    let said = count_of(directive_of(directives, "ply"@, 0));
    if said is Some && said->0 < raw.len() {
        raw[said->0 as int].side
    } else if win_end < raw.len() {
        raw[win_end].side
    } else {
        raw.last().side
    }
}

/// Picks the side that a search stands on, for a window of the first `win_end` moves of a score.
pub fn searching_side(kifu: &Kifu, raw: &Vec<RawFact>, win_end: usize) -> (res: Color)
    requires
        0 < raw@.len(),
        win_end <= raw@.len(),
    ensures
        res == side_searching(kifu.directives@, raw_list(raw@), win_end as int),
{
    let said = directive(kifu, "ply");
    let place: usize = match count_in(&said) {
        Some(n) => n,
        None => win_end,
    };
    if place < raw.len() {
        raw[place].side
    } else if win_end < raw.len() {
        raw[win_end].side
    } else {
        raw[raw.len() - 1].side
    }
}

/// Follows the first `n` facts from the first position. Nothing comes back where the facts do not fit
/// one another.
pub fn search(facts: &Vec<PlyFact>, my_color: Color, n: usize) -> (res: Option<Search>)
    requires
        n <= facts@.len(),
        n < u32::MAX,
    ensures
        match res {
            Some(s) => search_run(fact_list(facts@), my_color, n as int) == Some(s@),
            None => search_run(fact_list(facts@), my_color, n as int) is None,
        },
{
    let ghost list = fact_list(facts@);
    let mut s = Search::start(my_color);
    let mut i: usize = 0;
    while i < n
        invariant
            i <= n <= facts@.len(),
            n < u32::MAX,
            list == fact_list(facts@),
            all_wf(s.states@),
            s.opp_moves <= i,
            search_run(list, my_color, i as int) == Some(s@),
        decreases n - i,
    {
        if s.states.len() == 0 {
            proof {
                assert(state_set(s.states@) =~= Set::<OppModel>::empty());
            }
        } else {
            proof {
                assert(state_set(s.states@).contains(s.states@[0]@));
            }
            if !s.follow(facts, my_color, i) {
                proof {
                    lemma_search_broken(list, my_color, i + 1, n as int);
                }
                return None;
            }
        }
        i += 1;
    }
    Some(s)
}

proof fn lemma_search_broken(facts: Seq<FactModel>, my_color: Color, k: int, n: int)
    requires
        0 <= k <= n,
        search_run(facts, my_color, k) is None,
    ensures
        search_run(facts, my_color, n) is None,
    decreases n - k,
{
    if k < n {
        lemma_search_broken(facts, my_color, k, n - 1);
    }
}

proof fn lemma_with_pieces(pos: PositionModel, board: Seq<(Coord, Role)>, color: Color, c: Coord)
    requires
        pos.cells.len() == 81,
        is_on_board(c),
        forall|k: int| 0 <= k < board.len() ==> is_on_board((#[trigger] board[k]).0),
        forall|j: int, k: int|
            0 <= j < board.len() && 0 <= k < board.len() && (#[trigger] board[j]).0 == (
            #[trigger] board[k]).0 ==> board[j] == board[k],
    ensures
        with_pieces(pos, board, color).cells.len() == 81,
        with_pieces(pos, board, color).sente_hand == pos.sente_hand,
        with_pieces(pos, board, color).gote_hand == pos.gote_hand,
        with_pieces(pos, board, color).turn == pos.turn,
        with_pieces(pos, board, color).move_number == pos.move_number,
        (forall|k: int| 0 <= k < board.len() ==> (#[trigger] board[k]).0 != c) ==> with_pieces(
            pos,
            board,
            color,
        ).at(c) == pos.at(c),
        forall|k: int|
            0 <= k < board.len() && (#[trigger] board[k]).0 == c ==> with_pieces(
                pos,
                board,
                color,
            ).at(c) == Some(Piece { color, role: board[k].1 }),
    decreases board.len(),
{
    if board.len() > 0 {
        let front = board.drop_last();
        assert forall|j: int, k: int|
            0 <= j < front.len() && 0 <= k < front.len() && (#[trigger] front[j]).0 == (
            #[trigger] front[k]).0 implies front[j] == front[k] by {
            assert(board[j] == board[k]);
        }
        assert forall|k: int| 0 <= k < front.len() implies is_on_board((#[trigger] front[k]).0) by {
            assert(is_on_board(board[k].0));
        }
        lemma_with_pieces(pos, front, color, c);
        lemma_square_index(c, 0);
        lemma_square_index(board.last().0, 0);
        assert(is_on_board(board[board.len() - 1].0));
        if forall|k: int| 0 <= k < board.len() ==> (#[trigger] board[k]).0 != c {
            assert forall|k: int| 0 <= k < front.len() implies (#[trigger] front[k]).0 != c by {
                assert(board[k].0 != c);
            }
            assert(board[board.len() - 1].0 != c);
        }
        assert forall|k: int| 0 <= k < board.len() && (#[trigger] board[k]).0 == c implies with_pieces(
            pos,
            board,
            color,
        ).at(c) == Some(Piece { color, role: board[k].1 }) by {
            if board.last().0 == c {
                assert(board[k] == board[board.len() - 1]);
            } else {
                assert(front[k].0 == c);
            }
        }
    }
}

/// A position taken apart into the two sides and put together again is the same position.
pub proof fn law_sides_make_the_position(pos: PositionModel, opp: Color)
    requires
        pos.wf(),
    ensures
        combined(only_side(pos, other_color(opp)), side_of(pos, opp), opp, pos.turn) == pos,
{
    let own = only_side(pos, other_color(opp));
    let st = side_of(pos, opp);
    let list = piece_list(pos);
    let good = |x: (Coord, Piece)| x.1.color == opp;
    let kept = list.filter(good);
    let res = combined(own, st, opp, pos.turn);
    assert forall|k: int| 0 <= k < st.board.len() implies is_on_board((#[trigger] st.board[k]).0)
        && pos.at(st.board[k].0) == Some(Piece { color: opp, role: st.board[k].1 }) by {
        list.lemma_filter_pred(good, k);
        list.lemma_filter_contains_rev(good, kept[k]);
        let n = choose|n: int| 0 <= n < list.len() && list[n] == kept[k];
        lemma_piece_list(pos, n);
    }
    assert forall|j: int, k: int|
        0 <= j < st.board.len() && 0 <= k < st.board.len() && (#[trigger] st.board[j]).0 == (
        #[trigger] st.board[k]).0 implies st.board[j] == st.board[k] by {
        assert(pos.at(st.board[j].0) == Some(Piece { color: opp, role: st.board[j].1 }));
        assert(pos.at(st.board[k].0) == Some(Piece { color: opp, role: st.board[k].1 }));
    }
    assert forall|i: int| 0 <= i < 81 implies #[trigger] res.cells[i] == pos.cells[i] by {
        let c = square_at(i);
        lemma_square_index(c, i);
        lemma_with_pieces(own, st.board, opp, c);
        assert(own.at(c) == own.cells[i]);
        assert(pos.at(c) == pos.cells[i]);
        assert(res.at(c) == with_pieces(own, st.board, opp).at(c));
        if pos.at(c) is Some && pos.at(c)->0.color == opp {
            let n = lemma_piece_listed(pos, c);
            list.lemma_filter_contains(good, n);
            let k = choose|k: int| 0 <= k < kept.len() && kept[k] == list[n];
            assert(st.board[k].0 == c);
        } else {
            assert forall|k: int| 0 <= k < st.board.len() implies (#[trigger] st.board[k]).0 != c by {
                assert(pos.at(st.board[k].0) == Some(Piece { color: opp, role: st.board[k].1 }));
            }
        }
    }
    lemma_with_pieces(own, st.board, opp, square_at(0));
    assert(res.cells =~= pos.cells);
    assert(res =~= pos);
}

/// Whether what is known of the own side is what a true position holds of it.
pub open spec fn knows_own_side(own: PositionModel, truth: PositionModel, my_color: Color) -> bool {
    own.cells == only_side(truth, my_color).cells && own.hand(my_color) == truth.hand(my_color)
}

proof fn lemma_own_step(own: PositionModel, truth: PositionModel, ply: Ply, my_color: Color)
    requires
        truth.wf(),
        legal(truth, ply.mv),
        knows_own_side(own, truth, my_color),
    ensures
        own_step(own, learnt(raw_fact(truth, ply), my_color), my_color) matches Some(next)
            && knows_own_side(next, after_move(truth, ply.mv), my_color),
        after_move(truth, ply.mv).wf(),
{
    crate::replay::lemma_legal_is_playable(truth, ply.mv);
    let after = after_move(truth, ply.mv);
    let fact = learnt(raw_fact(truth, ply), my_color);
    match ply.mv {
        ShogiMove::Board { from, to, promote } => {
            lemma_square_index(from, 0);
            lemma_square_index(to, 0);
            assert(truth.at(from)->0.color == truth.turn);
            if truth.turn == my_color {
                assert(own.at(from) == truth.at(from));
            } else if truth.at(to) is Some {
                assert(truth.at(to)->0.color == my_color);
            }
        },
        ShogiMove::Drop { role, to } => {
            lemma_square_index(to, 0);
        },
    }
    let next = own_step(own, fact, my_color)->0;
    assert(next.cells =~= only_side(after, my_color).cells);
    assert(next.hand(my_color) =~= after.hand(my_color));
}

/// The own side that a player restores from what it has learnt is the true one, as long as the moves
/// were legal.
pub proof fn law_own_side_is_true(plies: Seq<Ply>, my_color: Color, n: int)
    requires
        0 <= n <= plies.len(),
        raw_facts(plies) is Some,
        forall|i: int| 0 <= i < n ==> legal(raw_position(plies, i)->0, (#[trigger] plies[i]).mv),
    ensures
        own_side(
            raw_facts(plies)->0.map_values(|f: RawFactModel| learnt(f, my_color)),
            my_color,
            n,
        ) matches Some(own) && knows_own_side(own, raw_position(plies, n)->0, my_color),
        raw_position(plies, n)->0.wf(),
    decreases n,
{
    let facts = raw_facts(plies)->0.map_values(|f: RawFactModel| learnt(f, my_color));
    lemma_raw_position_prefix(plies, n, plies.len() as int);
    if n > 0 {
        law_own_side_is_true(plies, my_color, n - 1);
        lemma_raw_position_prefix(plies, n - 1, plies.len() as int);
        let truth = raw_position(plies, n - 1)->0;
        let own = own_side(facts, my_color, n - 1)->0;
        assert(facts[n - 1] == learnt(raw_fact(truth, plies[n - 1]), my_color));
        lemma_own_step(own, truth, plies[n - 1], my_color);
    }
}

/// Putting a piece somewhere else keeps all others, and the number of pieces.
pub proof fn law_only_one_piece_moves(st: OppModel, i: int, sq: Coord, role: Role)
    requires
        0 <= i < st.board.len(),
    ensures
        replaced(st, i, sq, role).board.to_multiset() == st.board.update(
            i,
            (sq, role),
        ).to_multiset(),
        replaced(st, i, sq, role).board.len() == st.board.len(),
        replaced(st, i, sq, role).hand == st.hand,
{
    let le = |a: (Coord, Role), b: (Coord, Role)| not_behind(a, b);
    lemma_sorted_by_keeps(st.board.update(i, (sq, role)), le);
    lemma_sorted_by_len(st.board.update(i, (sq, role)), le);
}

/// The sides in which a piece attacks a square are those in which one piece, but for the one left out,
/// has gone within the moves allowed to a square from which its role bears on that square.
pub proof fn lemma_attackers(
    st: OppModel,
    exclude: Option<int>,
    opp: Color,
    budget: u32,
    attacked: Coord,
    x: OppModel,
)
    ensures
        attackers_of(st, exclude, opp, budget, attacked).contains(x) <==> exists|i: int, sq: Coord|
            0 <= i < st.board.len() && exclude != Some(i) && is_on_board(sq) && #[trigger] attack_post(
                st,
                opp,
                budget,
                attacked,
                i,
                sq,
            ) && x == replaced(st, i, sq, st.board[i].1),
{
    let all = Seq::new(st.board.len(), |i: int| i);
    let ways = |i: int|
        if exclude == Some(i) {
            Seq::empty()
        } else {
            posts_of(st, opp, budget, attacked, i)
        };
    lemma_flat_map_contains(all, ways, x);
    if attackers_of(st, exclude, opp, budget, attacked).contains(x) {
        let k = choose|k: int| 0 <= k < all.len() && #[trigger] ways(all[k]).contains(x);
        let good = |sq: Coord| attack_post(st, opp, budget, attacked, k, sq);
        let part = posts_of(st, opp, budget, attacked, k);
        assert(part.contains(x));
        let n = choose|n: int| 0 <= n < part.len() && part[n] == x;
        let kept = all_squares().filter(good);
        all_squares().lemma_filter_pred(good, n);
        all_squares().lemma_filter_contains_rev(good, kept[n]);
        let j = choose|j: int| 0 <= j < all_squares().len() && all_squares()[j] == kept[n];
        lemma_square_index(kept[n], j);
        assert(attack_post(st, opp, budget, attacked, k, kept[n]));
    }
    if exists|i: int, sq: Coord|
        0 <= i < st.board.len() && exclude != Some(i) && is_on_board(sq) && #[trigger] attack_post(
            st,
            opp,
            budget,
            attacked,
            i,
            sq,
        ) && x == replaced(st, i, sq, st.board[i].1) {
        let (i, sq) = choose|i: int, sq: Coord|
            0 <= i < st.board.len() && exclude != Some(i) && is_on_board(sq) && #[trigger] attack_post(
                st,
                opp,
                budget,
                attacked,
                i,
                sq,
            ) && x == replaced(st, i, sq, st.board[i].1);
        let good = |c: Coord| attack_post(st, opp, budget, attacked, i, c);
        lemma_square_index(sq, 0);
        assert(all_squares()[square_index(sq)] == sq);
        all_squares().lemma_filter_contains(good, square_index(sq));
        let kept = all_squares().filter(good);
        let n = choose|n: int| 0 <= n < kept.len() && kept[n] == sq;
        assert(posts_of(st, opp, budget, attacked, i)[n] == x);
        assert(ways(all[i]).contains(x));
    }
}

/// A check without a capture loses no game: after it every side is possible that comes from one that
/// was possible by one piece going, within as many moves as the opponent has then made, to a square
/// from which its role bears on the own king; and no other is.
pub proof fn law_bare_check(
    facts: Seq<FactModel>,
    my_color: Color,
    m: SearchModel,
    i: int,
    king: Coord,
    x: OppModel,
)
    requires
        m.opp_moves < u32::MAX,
        facts[i] == (FactModel::Theirs { captured_at: None, gives_check: true }),
        own_side(facts, my_color, i + 1) matches Some(own) && king_of(own, my_color) == Some(king),
    ensures
        ({
            let next = search_step(facts, my_color, m, i);
            let opp = other_color(my_color);
            &&& next is Some
            &&& next->0.opp_moves == m.opp_moves + 1
            &&& next->0.states.contains(x) <==> exists|st: OppModel, p: int, sq: Coord, n: nat|
                m.states.contains(st) && 0 <= p < st.board.len() && is_on_board(sq) && sq != king && n
                    <= m.opp_moves + 1 && #[trigger] reaches(
                    st.board[p].1,
                    opp,
                    st.board[p].0,
                    (sq, false),
                    n,
                ) && sees(st.board[p].1, opp, sq, king) && x == #[trigger] replaced(
                    st,
                    p,
                    sq,
                    st.board[p].1,
                )
        }),
{
    let opp = other_color(my_color);
    let budget = (m.opp_moves + 1) as u32;
    let next = search_step(facts, my_color, m, i)->0;
    if next.states.contains(x) {
        let st = choose|st: OppModel| #[trigger]
            m.states.contains(st) && attackers_of(st, None, opp, budget, king).contains(x);
        lemma_attackers(st, None, opp, budget, king, x);
        let (p, sq) = choose|p: int, sq: Coord|
            0 <= p < st.board.len() && is_on_board(sq) && #[trigger] attack_post(
                st,
                opp,
                budget,
                king,
                p,
                sq,
            ) && x == replaced(st, p, sq, st.board[p].1);
        let n = choose|n: nat|
            n <= budget && #[trigger] reaches(st.board[p].1, opp, st.board[p].0, (sq, false), n);
        assert(reaches(st.board[p].1, opp, st.board[p].0, (sq, false), n));
        assert(x == replaced(st, p, sq, st.board[p].1));
    }
    if exists|st: OppModel, p: int, sq: Coord, n: nat|
        m.states.contains(st) && 0 <= p < st.board.len() && is_on_board(sq) && sq != king && n
            <= m.opp_moves + 1 && #[trigger] reaches(
            st.board[p].1,
            opp,
            st.board[p].0,
            (sq, false),
            n,
        ) && sees(st.board[p].1, opp, sq, king) && x == #[trigger] replaced(
            st,
            p,
            sq,
            st.board[p].1,
        ) {
        let (st, p, sq, n) = choose|st: OppModel, p: int, sq: Coord, n: nat|
            m.states.contains(st) && 0 <= p < st.board.len() && is_on_board(sq) && sq != king && n
                <= m.opp_moves + 1 && #[trigger] reaches(
                st.board[p].1,
                opp,
                st.board[p].0,
                (sq, false),
                n,
            ) && sees(st.board[p].1, opp, sq, king) && x == #[trigger] replaced(
                st,
                p,
                sq,
                st.board[p].1,
            );
        assert(attack_post(st, opp, budget, king, p, sq));
        lemma_attackers(st, None, opp, budget, king, x);
        assert(attackers_of(st, None, opp, budget, king).contains(x));
    }
}

/// A silent move only counts: every side stays possible, and the opponent has one more move to have
/// gone somewhere. An own move that takes nothing changes nothing.
pub proof fn law_silent_moves(
    facts: Seq<FactModel>,
    my_color: Color,
    m: SearchModel,
    i: int,
    x: OppModel,
)
    requires
        m.opp_moves < u32::MAX,
    ensures
        facts[i] == (FactModel::Theirs { captured_at: None, gives_check: false }) ==> (search_step(
            facts,
            my_color,
            m,
            i,
        ) matches Some(next) && next.opp_moves == m.opp_moves + 1 && (next.states.contains(x)
            <==> m.states.contains(x))),
        (facts[i] matches FactModel::Mine { fouls, mv, captured, gives_check } && captured is None)
            ==> (search_step(facts, my_color, m, i) matches Some(next) && next.opp_moves == m.opp_moves
            && (next.states.contains(x) <==> m.states.contains(x))),
{
}

/// Where the opponent takes a piece and nothing more is known, every side is possible that comes from
/// one that was possible by a piece going to that square within as many moves as the opponent has then
/// made, provided that the own king is in check exactly where that was declared.
pub proof fn law_their_capture(
    facts: Seq<FactModel>,
    my_color: Color,
    m: SearchModel,
    i: int,
    target: Coord,
    gives_check: bool,
    own: PositionModel,
    st: OppModel,
    p: int,
    n: nat,
)
    requires
        m.opp_moves < u32::MAX,
        facts[i] == (FactModel::Theirs { captured_at: Some(target), gives_check }),
        own_side(facts, my_color, i + 1) == Some(own),
        !king_refused(facts, i, my_color, own, target),
        m.states.contains(st),
        0 <= p < st.board.len(),
        n <= m.opp_moves + 1,
    ensures
        ({
            let next = search_step(facts, my_color, m, i);
            let opp = other_color(my_color);
            let role = st.board[p].1;
            &&& next is Some
            &&& next->0.opp_moves == m.opp_moves + 1
            &&& reaches(role, opp, st.board[p].0, (target, false), n) && checked(
                combined(own, replaced(st, p, target, role), opp, my_color),
                my_color,
            ) == gives_check ==> next->0.states.contains(replaced(st, p, target, role))
            &&& (promoted(role) matches Some(up) && reaches(
                role,
                opp,
                st.board[p].0,
                (target, true),
                n,
            ) && checked(combined(own, replaced(st, p, target, up), opp, my_color), my_color)
                == gives_check) ==> next->0.states.contains(replaced(st, p, target, promoted(role)->0))
        }),
{
    let opp = other_color(my_color);
    let role = st.board[p].1;
    let budget = (m.opp_moves + 1) as u32;
    let next = search_step(facts, my_color, m, i)->0;
    if reaches(role, opp, st.board[p].0, (target, false), n) {
        lemma_arrives(st, opp, target, budget, None, p, n, false);
        let x = replaced(st, p, target, role);
        let k = choose|k: int|
            0 <= k < movers_of(st, opp, target, budget, None).len() && (#[trigger] movers_of(
                st,
                opp,
                target,
                budget,
                None,
            )[k]).state == x;
        assert(explained_by(
            movers_of(st, opp, target, budget, None)[k],
            own,
            opp,
            target,
            budget,
            false,
            x,
        ));
        assert(explanations(
            st,
            own,
            opp,
            target,
            budget,
            false,
            None,
            movers_of(st, opp, target, budget, None).len() as int,
        ).contains(x));
        assert(capture_stretch(m.states, own, opp, target, budget, false, None).contains(x));
    }
    if promoted(role) is Some && reaches(role, opp, st.board[p].0, (target, true), n) {
        lemma_arrives(st, opp, target, budget, None, p, n, true);
        let x = replaced(st, p, target, promoted(role)->0);
        let k = choose|k: int|
            0 <= k < movers_of(st, opp, target, budget, None).len() && (#[trigger] movers_of(
                st,
                opp,
                target,
                budget,
                None,
            )[k]).state == x;
        assert(explained_by(
            movers_of(st, opp, target, budget, None)[k],
            own,
            opp,
            target,
            budget,
            false,
            x,
        ));
        assert(explanations(
            st,
            own,
            opp,
            target,
            budget,
            false,
            None,
            movers_of(st, opp, target, budget, None).len() as int,
        ).contains(x));
        assert(capture_stretch(m.states, own, opp, target, budget, false, None).contains(x));
    }
}

/// Where a piece of the opponent is taken, every side is possible that comes from one that was possible
/// by a piece of that kind going to the square within the moves made, and being taken off, provided
/// that the opponent is in check exactly where that was declared.
pub proof fn law_my_capture(
    facts: Seq<FactModel>,
    my_color: Color,
    m: SearchModel,
    i: int,
    fouls: Seq<ShogiMove>,
    from: Coord,
    to: Coord,
    promote: bool,
    taken: Role,
    gives_check: bool,
    own: PositionModel,
    st: OppModel,
    p: int,
    n: nat,
)
    requires
        facts[i] == (FactModel::Mine {
            fouls,
            mv: ShogiMove::Board { from, to, promote },
            captured: Some(taken),
            gives_check,
        }),
        own_side(facts, my_color, i) is Some,
        own_side(facts, my_color, i + 1) == Some(own),
        m.states.contains(st),
        0 <= p < st.board.len(),
        unpromoted(st.board[p].1) == taken,
        n <= m.opp_moves,
        reaches(st.board[p].1, other_color(my_color), st.board[p].0, (to, false), n),
    ensures
        ({
            let next = search_step(facts, my_color, m, i);
            let opp = other_color(my_color);
            let x = without(replaced(st, p, to, st.board[p].1), to);
            &&& next is Some
            &&& next->0.opp_moves == m.opp_moves
            &&& checked(combined(own, x, opp, opp), opp) == gives_check ==> next->0.states.contains(x)
            &&& forall|y: OppModel| #[trigger]
                next->0.states.contains(y) ==> checked(combined(own, y, opp, opp), opp) == gives_check
        }),
{
    let opp = other_color(my_color);
    let role = st.board[p].1;
    let before_ = own_side(facts, my_color, i)->0;
    lemma_arrives(st, opp, to, m.opp_moves, Some(taken), p, n, false);
    let y = replaced(st, p, to, role);
    let k = choose|k: int|
        0 <= k < movers_of(st, opp, to, m.opp_moves, Some(taken)).len() && (#[trigger] movers_of(
            st,
            opp,
            to,
            m.opp_moves,
            Some(taken),
        )[k]).state == y;
    assert(explained_by(
        movers_of(st, opp, to, m.opp_moves, Some(taken))[k],
        before_,
        opp,
        to,
        m.opp_moves,
        false,
        y,
    ));
    assert(explanations(
        st,
        before_,
        opp,
        to,
        m.opp_moves,
        false,
        Some(taken),
        movers_of(st, opp, to, m.opp_moves, Some(taken)).len() as int,
    ).contains(y));
    let all = capture_stretch(m.states, before_, opp, to, m.opp_moves, false, Some(taken));
    assert(all.contains(y));
}

/// A piece that can be on a square in time is among those that can have come.
proof fn lemma_arrives(
    st: OppModel,
    opp: Color,
    target: Coord,
    budget: u32,
    required: Option<Role>,
    p: int,
    n: nat,
    up: bool,
)
    requires
        0 <= p < st.board.len(),
        n <= budget,
        reaches(st.board[p].1, opp, st.board[p].0, (target, up), n),
        required matches Some(r) ==> r == unpromoted(st.board[p].1),
        up ==> promoted(st.board[p].1) is Some,
    ensures
        ({
            let role = if up {
                promoted(st.board[p].1)->0
            } else {
                st.board[p].1
            };
            exists|k: int|
                0 <= k < movers_of(st, opp, target, budget, required).len() && (
                #[trigger] movers_of(st, opp, target, budget, required)[k]).state == replaced(
                    st,
                    p,
                    target,
                    role,
                )
        }),
{
    let own = st.board[p].1;
    let role = if up {
        promoted(own)->0
    } else {
        own
    };
    let all = Seq::new(st.board.len(), |i: int| i);
    let ways = |i: int| arrivals_of(st, opp, target, budget, required, i);
    let list = movers_of(st, opp, target, budget, required);
    let flag = if up {
        true
    } else {
        is_promoted(own)
    };
    assert(!out_of_reach(own, opp, st.board[p].0, (target, up), budget as int));
    let part = arrival_as(st, opp, target, budget, p, flag, role);
    assert(part.len() == 1);
    let a = part[0];
    let here = arrivals_of(st, opp, target, budget, required, p);
    if up {
        let k = here.len() - 1;
        assert(here[k] == a);
    } else {
        assert(here[0] == a);
    }
    assert(here.contains(a));
    assert(ways(all[p]).contains(a));
    lemma_flat_map_contains(all, ways, a);
    let k = choose|k: int| 0 <= k < list.len() && list[k] == a;
    assert(list[k].state == replaced(st, p, target, role));
}

/// A search starts from the one side that the opponent has at the start, before any of its moves, and
/// where nothing is possible any more it stays so.
pub proof fn law_search_starts(facts: Seq<FactModel>, my_color: Color, x: OppModel, n: int)
    ensures
        search_run(facts, my_color, 0) matches Some(m) && m.opp_moves == 0 && (m.states.contains(x)
            <==> x == side_of(initial_model(), other_color(my_color))),
        n > 0 && (search_run(facts, my_color, n - 1) matches Some(m) && m.states == Set::<
            OppModel,
        >::empty()) ==> search_run(facts, my_color, n) == search_run(facts, my_color, n - 1),
        n > 0 && (search_run(facts, my_color, n - 1) matches Some(m) && m.states.contains(x))
            ==> search_run(facts, my_color, n) == search_step(
            facts,
            my_color,
            search_run(facts, my_color, n - 1)->0,
            n - 1,
        ),
{
}

} // verus!
