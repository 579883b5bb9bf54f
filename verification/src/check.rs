//! Reasoning about an unseen checker: which piece on which square could be giving the check that
//! was announced, and which answers would resolve it.
//!
//! A hypothesis is a square and a role. The own pieces are known, so a hypothesis that they block
//! is left out, and so is a role of which the opponent can hold none. Every foul of the turn is
//! evidence against the hypotheses under which the attempt would have been legal.

use crate::board::{
    all_squares, along, coord_at, index_of, is_on_board, lemma_square_index, parse_usi_square,
    shifted, square_at, square_index, square_of_text, step_deltas, steps, Coord, lemma_deltas,
    oriented, ray_deltas, Delta,
};
use crate::lists::{lemma_filter_contains_iff, lemma_flat_map_contains};
use crate::model::{bump, bumped, side_after, GameModel};
use crate::observation::{Event, Observation, ObservationLog};
use crate::protocol::{
    hand_slot, other_color, slot_of, slot_role, unpromoted, Color, PlayerView, Role, ViewModel,
};
use crate::shogi::{
    after_move, attacker_at, attacks_from, checked, clear_run, find_king, king_of, legal,
    move_of_text, pseudo_legal, ray_hits, run_reaches, step_hits, parse_usi, piece_list,
    unpromote_role, Piece, Position, PositionModel, ShogiMove,
};
use vstd::prelude::*;

verus! {

/// A possible checker.
#[derive(Clone, Copy, Debug, PartialEq, Eq, Structural)]
pub struct Hypothesis {
    pub square: Coord,
    pub role: Role,
}

/// The roles that can give check, in the order in which hypotheses are listed.
pub open spec fn checker_role_list() -> Seq<Role> {
    seq![
        Role::Pawn,
        Role::Lance,
        Role::Knight,
        Role::Silver,
        Role::Gold,
        Role::Bishop,
        Role::Rook,
        Role::Tokin,
        Role::Promotedlance,
        Role::Promotedknight,
        Role::Promotedsilver,
        Role::Horse,
        Role::Dragon,
    ]
}

/// The roles that can give check: all but the king.
pub fn checker_roles() -> (res: Vec<Role>)
    ensures
        res@ == checker_role_list(),
{
    vec![
        Role::Pawn,
        Role::Lance,
        Role::Knight,
        Role::Silver,
        Role::Gold,
        Role::Bishop,
        Role::Rook,
        Role::Tokin,
        Role::Promotedlance,
        Role::Promotedknight,
        Role::Promotedsilver,
        Role::Horse,
        Role::Dragon,
    ]
}

/// The place of a role in the fixed order that breaks ties between roles.
pub open spec fn order_of(role: Role) -> u8 {
    match role {
        Role::Pawn => 0,
        Role::Lance => 1,
        Role::Knight => 2,
        Role::Silver => 3,
        Role::Gold => 4,
        Role::Bishop => 5,
        Role::Rook => 6,
        Role::King => 7,
        Role::Tokin => 8,
        Role::Promotedlance => 9,
        Role::Promotedknight => 10,
        Role::Promotedsilver => 11,
        Role::Horse => 12,
        Role::Dragon => 13,
    }
}

/// The place of a role in the fixed order that breaks ties between roles.
pub fn role_order(role: Role) -> (res: u8)
    ensures
        res == order_of(role),
{
    match role {
        Role::Pawn => 0,
        Role::Lance => 1,
        Role::Knight => 2,
        Role::Silver => 3,
        Role::Gold => 4,
        Role::Bishop => 5,
        Role::Rook => 6,
        Role::King => 7,
        Role::Tokin => 8,
        Role::Promotedlance => 9,
        Role::Promotedknight => 10,
        Role::Promotedsilver => 11,
        Role::Horse => 12,
        Role::Dragon => 13,
    }
}

/// When an enemy piece was last seen to arrive on a square and was not taken back there: the
/// number of the move with which it came.
pub open spec fn last_seen(events: Seq<Event>, c: Coord) -> Option<u32>
    decreases events.len(),
{
    if events.len() == 0 {
        None
    } else {
        match events.last() {
            Event::OpponentMoved { move_number, captured_at: Some(text) } => if square_of_text(text)
                == Some(c) {
                Some(move_number)
            } else {
                last_seen(events.drop_last(), c)
            },
            Event::MyMove { move_number, usi, captured: Some(_) } => if (move_of_text(
                usi,
            ) matches Some(ShogiMove::Board { from, to, promote }) && to == c) {
                None
            } else {
                last_seen(events.drop_last(), c)
            },
            _ => last_seen(events.drop_last(), c),
        }
    }
}

/// Whether an enemy piece is known on a square by a move from `since` on.
pub open spec fn known_since(events: Seq<Event>, since: u32, c: Coord) -> bool {
    last_seen(events, c) matches Some(n) && n >= since
}

/// For each square, when an enemy piece was last seen to arrive there.
pub fn enemy_arrivals(log: &ObservationLog) -> (res: [Option<u32>; 81])
    ensures
        forall|i: int| 0 <= i < 81 ==> #[trigger] res@[i] == last_seen(log@, square_at(i)),
{
    let mut seen: [Option<u32>; 81] = [None; 81];
    let mut n: usize = 0;
    while n < log.events.len()
        invariant
            n <= log.events@.len(),
            forall|i: int|
                0 <= i < 81 ==> #[trigger] seen@[i] == last_seen(
                    log@.take(n as int),
                    square_at(i),
                ),
        decreases log.events@.len() - n,
    {
        let ghost before = seen@;
        let ghost t = log@.take(n + 1);
        proof {
            assert(t.drop_last() =~= log@.take(n as int));
            assert(t.last() == log.events@[n as int]@);
        }
        match &log.events[n] {
            Observation::OpponentMoved { move_number, captured_my_piece_at: Some(text) } => {
                if let Some(c) = parse_usi_square(text.as_str()) {
                    seen[index_of(c)] = Some(*move_number);
                    assert forall|i: int| 0 <= i < 81 implies #[trigger] seen@[i] == last_seen(
                        t,
                        square_at(i),
                    ) by {
                        lemma_square_index(c, i);
                        assert(before[i] == last_seen(log@.take(n as int), square_at(i)));
                    }
                } else {
                    assert forall|i: int| 0 <= i < 81 implies #[trigger] seen@[i] == last_seen(
                        t,
                        square_at(i),
                    ) by {
                        assert(before[i] == last_seen(log@.take(n as int), square_at(i)));
                    }
                }
            },
            Observation::MyMove { move_number: _, usi, captured: Some(_) } => {
                if let Some(ShogiMove::Board { from: _, to, promote: _ }) = parse_usi(usi.as_str()) {
                    seen[index_of(to)] = None;
                    assert forall|i: int| 0 <= i < 81 implies #[trigger] seen@[i] == last_seen(
                        t,
                        square_at(i),
                    ) by {
                        lemma_square_index(to, i);
                        assert(before[i] == last_seen(log@.take(n as int), square_at(i)));
                    }
                } else {
                    assert forall|i: int| 0 <= i < 81 implies #[trigger] seen@[i] == last_seen(
                        t,
                        square_at(i),
                    ) by {
                        assert(before[i] == last_seen(log@.take(n as int), square_at(i)));
                    }
                }
            },
            _ => {
                assert forall|i: int| 0 <= i < 81 implies #[trigger] seen@[i] == last_seen(
                    t,
                    square_at(i),
                ) by {
                    assert(before[i] == last_seen(log@.take(n as int), square_at(i)));
                }
            },
        }
        n += 1;
    }
    assert(log@.take(n as int) =~= log@);
    seen
}

/// The squares on which an enemy piece is known to stand by a move from `since_move` on.
pub fn known_enemy_squares(log: &ObservationLog, since_move: u32) -> (res: Vec<Coord>)
    ensures
        res@ == all_squares().filter(|c: Coord| known_since(log@, since_move, c)),
{
    let seen = enemy_arrivals(log);
    let mut out: Vec<Coord> = Vec::new();
    let ghost all = all_squares();
    let ghost good = |c: Coord| known_since(log@, since_move, c);
    let mut i: usize = 0;
    assert(all.take(0).filter(good) =~= Seq::<Coord>::empty()) by {
        reveal(Seq::filter);
    }
    while i < 81
        invariant
            i <= 81,
            forall|k: int| 0 <= k < 81 ==> #[trigger] seen@[k] == last_seen(log@, square_at(k)),
            all == all_squares(),
            good == (|c: Coord| known_since(log@, since_move, c)),
            out@ == all.take(i as int).filter(good),
        decreases 81 - i,
    {
        let c = coord_at(i);
        proof {
            assert(all.take(i + 1) =~= all.take(i as int).push(c));
            all.take(i as int).lemma_filter_push(c, good);
            assert(seen@[i as int] == last_seen(log@, square_at(i as int)));
        }
        if let Some(n) = seen[i] {
            if n >= since_move {
                out.push(c);
            }
        }
        i += 1;
    }
    assert(all.take(81) =~= all);
    out
}

/// How many pieces of each role a side starts with.
pub open spec fn starting_count(slot: int) -> int {
    if slot == 0 {
        9
    } else if slot <= 4 {
        2
    } else {
        1
    }
}

/// How many of the lost pieces are of a base role.
pub open spec fn lost_count(lost: Seq<(Coord, Role)>, slot: int) -> int
    decreases lost.len(),
{
    if lost.len() == 0 {
        0
    } else {
        lost_count(lost.drop_last(), slot) + (if slot_of(unpromoted(lost.last().1)) == Some(slot) {
            1int
        } else {
            0int
        })
    }
}

/// How many pieces of a base role the opponent can have: those it started with, those it took,
/// less those that the own side holds.
pub open spec fn opponent_count(lost: Seq<(Coord, Role)>, hand: Seq<u32>, slot: int) -> int {
    starting_count(slot) + lost_count(lost, slot) - hand[slot]
}

/// Of the lost pieces no more are of one role than there are.
pub proof fn lemma_lost_count(lost: Seq<(Coord, Role)>, slot: int)
    ensures
        0 <= lost_count(lost, slot) <= lost.len(),
    decreases lost.len(),
{
    if lost.len() > 0 {
        lemma_lost_count(lost.drop_last(), slot);
    }
}

/// How many pieces of each base role the opponent can have on the board and in hand.
pub fn opponent_role_counts(view: &PlayerView, log: &ObservationLog) -> (res: [i128; 7])
    ensures
        forall|i: int|
            0 <= i < 7 ==> #[trigger] res@[i] == opponent_count(
                side_after(view.your_color, log@).lost,
                view@.hand,
                i,
            ),
{
    let model = GameModel::from_log(view.your_color, log);
    let lost = model.lost_pieces();
    let total: usize = lost.len();
    let mut counts: [i128; 7] = [9, 2, 2, 2, 2, 1, 1];
    let mut n: usize = 0;
    while n < total
        invariant
            n <= total == lost@.len(),
            forall|i: int|
                0 <= i < 7 ==> #[trigger] counts@[i] == starting_count(i) + lost_count(
                    lost@.take(n as int),
                    i,
                ),
        decreases lost@.len() - n,
    {
        let ghost before = counts@;
        proof {
            let t = lost@.take(n + 1);
            assert(t.drop_last() =~= lost@.take(n as int));
            assert(t.last() == lost@[n as int]);
        }
        if let Some(i) = hand_slot(unpromote_role(lost[n].1)) {
            proof {
                lemma_lost_count(lost@.take(n as int), i as int);
                assert(before[i as int] == starting_count(i as int) + lost_count(
                    lost@.take(n as int),
                    i as int,
                ));
            }
            let c: i128 = counts[i];
            counts[i] = c + 1;
        }
        assert forall|i: int| 0 <= i < 7 implies #[trigger] counts@[i] == starting_count(i)
            + lost_count(lost@.take(n + 1), i) by {
            assert(before[i] == starting_count(i) + lost_count(lost@.take(n as int), i));
        }
        n += 1;
    }
    assert(lost@.take(n as int) =~= lost@);
    let mut i: usize = 0;
    while i < 7
        invariant
            i <= 7,
            total == lost@.len(),
            forall|k: int|
                i <= k < 7 ==> #[trigger] counts@[k] == starting_count(k) + lost_count(lost@, k),
            forall|k: int|
                0 <= k < i ==> #[trigger] counts@[k] == opponent_count(lost@, view@.hand, k),
        decreases 7 - i,
    {
        proof {
            lemma_lost_count(lost@, i as int);
            assert(counts@[i as int] == starting_count(i as int) + lost_count(lost@, i as int));
        }
        let c: i128 = counts[i];
        counts[i] = c - view.your_hand.counts[i] as i128;
        i += 1;
    }
    counts
}

/// The piece of a hypothesis.
pub open spec fn checker_piece(my_color: Color, role: Role) -> Option<Piece> {
    Some(Piece { color: other_color(my_color), role })
}

/// Whether an enemy piece of the role on the square would be giving check.
pub open spec fn gives_check(base: PositionModel, my_color: Color, c: Coord, role: Role) -> bool {
    checked(base.with_cell(c, checker_piece(my_color, role)), my_color)
}

/// Whether the opponent can have a piece of the role.
pub open spec fn may_have(counts: Seq<i128>, role: Role) -> bool {
    slot_of(unpromoted(role)) matches Some(i) && counts[i] > 0
}

/// Whether the square can hold the checker at all: it is not held by the own side.
pub open spec fn may_hold_checker(base: PositionModel, my_color: Color, c: Coord) -> bool {
    is_on_board(c) && !(base.at(c) matches Some(p) && p.color == my_color)
}

/// The hypotheses on one square.
pub open spec fn hypotheses_on(
    base: PositionModel,
    my_color: Color,
    counts: Seq<i128>,
    c: Coord,
) -> Seq<Hypothesis> {
    if may_hold_checker(base, my_color, c) {
        checker_role_list().filter(
            |role: Role| may_have(counts, role) && gives_check(base, my_color, c, role),
        ).map_values(|role: Role| Hypothesis { square: c, role })
    } else {
        Seq::empty()
    }
}

/// All hypotheses, square by square.
pub open spec fn hypothesis_list(
    base: PositionModel,
    my_color: Color,
    counts: Seq<i128>,
) -> Seq<Hypothesis> {
    all_squares().flat_map(|c: Coord| hypotheses_on(base, my_color, counts, c))
}

fn list_hypotheses_on(base: &Position, my_color: Color, counts: &[i128; 7], c: Coord) -> (res: Vec<
    Hypothesis,
>)
    requires
        is_on_board(c),
    ensures
        res@ == hypotheses_on(base@, my_color, counts@, c),
{
    let mut out: Vec<Hypothesis> = Vec::new();
    if let Some(p) = base.piece_at(c) {
        if p.color == my_color {
            return out;
        }
    }
    let roles = checker_roles();
    let ghost all = checker_role_list();
    let ghost good = |role: Role| may_have(counts@, role) && gives_check(base@, my_color, c, role);
    let ghost make = |role: Role| Hypothesis { square: c, role };
    let mut i: usize = 0;
    assert(all.take(0).filter(good) =~= Seq::<Role>::empty()) by {
        reveal(Seq::filter);
    }
    assert(out@ =~= all.take(0).filter(good).map_values(make));
    while i < roles.len()
        invariant
            is_on_board(c),
            roles@ == all,
            all == checker_role_list(),
            good == (|role: Role|
                may_have(counts@, role) && gives_check(base@, my_color, c, role)),
            make == (|role: Role| Hypothesis { square: c, role }),
            i <= roles@.len(),
            out@ == all.take(i as int).filter(good).map_values(make),
        decreases roles@.len() - i,
    {
        let role = roles[i];
        proof {
            assert(all.take(i + 1) =~= all.take(i as int).push(role));
            all.take(i as int).lemma_filter_push(role, good);
        }
        let have = match hand_slot(unpromote_role(role)) {
            Some(slot) => counts[slot] > 0,
            None => false,
        };
        let mut checks = false;
        if have {
            let mut probe = *base;
            probe.set(c, Some(Piece { color: my_color.other(), role }));
            checks = probe.in_check(my_color);
        }
        if have && checks {
            out.push(Hypothesis { square: c, role });
            assert(out@ =~= all.take(i + 1).filter(good).map_values(make));
        }
        i += 1;
    }
    assert(all.take(i as int) =~= all);
    out
}

/// Lists every square and role that could be giving the check.
pub fn enumerate(base: &Position, my_color: Color, counts: &[i128; 7]) -> (res: Vec<Hypothesis>)
    ensures
        res@ == hypothesis_list(base@, my_color, counts@),
{
    let mut out: Vec<Hypothesis> = Vec::new();
    let ghost all = all_squares();
    let ghost on = |c: Coord| hypotheses_on(base@, my_color, counts@, c);
    let mut i: usize = 0;
    assert(out@ =~= all.take(0).flat_map(on));
    while i < 81
        invariant
            i <= 81,
            all == all_squares(),
            on == (|c: Coord| hypotheses_on(base@, my_color, counts@, c)),
            out@ == all.take(i as int).flat_map(on),
        decreases 81 - i,
    {
        let c = coord_at(i);
        let mut part = list_hypotheses_on(base, my_color, counts, c);
        proof {
            all.lemma_flat_map_take_append(on, i as int);
        }
        out.append(&mut part);
        assert(out@ =~= all.take(i + 1).flat_map(on));
        i += 1;
    }
    assert(all.take(81) =~= all);
    out
}

/// -1, 0 or 1, as the number is negative, zero or positive.
pub open spec fn sign(n: int) -> i8 {
    if n < 0 {
        -1i8
    } else if n == 0 {
        0
    } else {
        1
    }
}

/// The absolute value.
pub open spec fn magnitude(n: int) -> int {
    if n < 0 {
        -n
    } else {
        n
    }
}

/// The king-move distance of two squares.
pub open spec fn span(a: Coord, b: Coord) -> int {
    let f = magnitude(b.file - a.file);
    let r = magnitude(b.rank - a.rank);
    if f >= r {
        f
    } else {
        r
    }
}

/// Whether two squares share a file, a rank or a diagonal.
pub open spec fn aligned(a: Coord, b: Coord) -> bool {
    a.file == b.file || a.rank == b.rank || magnitude(b.file - a.file) == magnitude(
        b.rank - a.rank,
    )
}

/// The direction from one square to the other.
pub open spec fn heading(a: Coord, b: Coord) -> Delta {
    (sign(b.file - a.file), sign(b.rank - a.rank))
}

/// The `n`-th square on the way from one square to the other.
pub open spec fn between(a: Coord, b: Coord, n: int) -> Coord {
    along(a, heading(a, b), n)
}

/// Whether the own side has a piece on the square.
pub open spec fn own_at(base: PositionModel, my_color: Color, c: Coord) -> bool {
    base.at(c) matches Some(p) && p.color == my_color
}

/// The rank change of a knight of the side that gives check.
pub open spec fn enemy_knight_jump(my_color: Color) -> int {
    if my_color == Color::Gote {
        -2
    } else {
        2
    }
}

/// Whether some enemy piece could have moved from `o` to `s`: to an adjacent square, by a knight's
/// jump, or along a line that no own piece blocks.
pub open spec fn could_arrive(base: PositionModel, my_color: Color, o: Coord, s: Coord) -> bool {
    &&& o != s
    &&& {
        ||| span(o, s) <= 1
        ||| magnitude(s.file - o.file) == 1 && s.rank - o.rank == enemy_knight_jump(my_color)
        ||| aligned(o, s) && forall|n: int|
            0 < n < span(o, s) ==> !own_at(base, my_color, #[trigger] between(o, s, n))
    }
}

/// Whether a checker on `q` is compatible with an enemy piece having just taken on `s`: it is that
/// piece, or its line to the king was opened by that piece, which came from a square between.
pub open spec fn may_discover(
    base: PositionModel,
    my_color: Color,
    king: Coord,
    s: Coord,
    q: Coord,
) -> bool {
    q == s || {
        &&& aligned(king, q)
        &&& span(king, q) >= 2
        &&& forall|n: int|
            0 < n < span(king, q) ==> !own_at(base, my_color, #[trigger] between(king, q, n))
                && between(king, q, n) != s
        &&& exists|n: int|
            0 < n < span(king, q) && could_arrive(
                base,
                my_color,
                #[trigger] between(king, q, n),
                s,
            )
    }
}

fn sign_of(n: i8) -> (res: i8)
    ensures
        res == sign(n as int),
{
    if n < 0 {
        -1
    } else if n == 0 {
        0
    } else {
        1
    }
}

fn magnitude_of(n: i8) -> (res: i8)
    requires
        n > -128,
    ensures
        res == magnitude(n as int),
{
    if n < 0 {
        -n
    } else {
        n
    }
}

fn is_own_at(base: &Position, my_color: Color, c: Coord) -> (res: bool)
    ensures
        res == own_at(base@, my_color, c),
{
    match base.piece_at(c) {
        Some(p) => p.color == my_color,
        None => false,
    }
}

/// Whether some enemy piece could have moved from `o` to `s`.
fn arrival_possible(base: &Position, my_color: Color, o: Coord, s: Coord) -> (res: bool)
    requires
        is_on_board(o),
        is_on_board(s),
    ensures
        res == could_arrive(base@, my_color, o, s),
{
    let df: i8 = s.file - o.file;
    let dr: i8 = s.rank - o.rank;
    if df == 0 && dr == 0 {
        return false;
    }
    let af: i8 = magnitude_of(df);
    let ar: i8 = magnitude_of(dr);
    if af <= 1 && ar <= 1 {
        return true;
    }
    let jump: i8 = if my_color == Color::Gote {
        -2
    } else {
        2
    };
    if af == 1 && dr == jump {
        return true;
    }
    if !(df == 0 || dr == 0 || af == ar) {
        return false;
    }
    let d: Delta = (sign_of(df), sign_of(dr));
    let steps_needed: i8 = if af >= ar {
        af
    } else {
        ar
    };
    let mut n: i8 = 1;
    let mut c = Coord { file: o.file + d.0, rank: o.rank + d.1 };
    while n < steps_needed
        invariant
            is_on_board(o),
            is_on_board(s),
            aligned(o, s),
            d == heading(o, s),
            steps_needed == span(o, s),
            1 <= n <= steps_needed,
            c == between(o, s, n as int),
            is_on_board(c),
            forall|k: int|
                0 < k < n ==> !own_at(base@, my_color, #[trigger] between(o, s, k)),
        decreases steps_needed - n,
    {
        if is_own_at(base, my_color, c) {
            assert(own_at(base@, my_color, between(o, s, n as int)));
            return false;
        }
        c = Coord { file: c.file + d.0, rank: c.rank + d.1 };
        n += 1;
    }
    true
}

/// Whether a checker on `q` is compatible with an enemy piece having just taken on `s`.
fn discovery_possible(base: &Position, my_color: Color, king: Coord, s: Coord, q: Coord) -> (res:
    bool)
    requires
        is_on_board(king),
        is_on_board(s),
        is_on_board(q),
    ensures
        res == may_discover(base@, my_color, king, s, q),
{
    if q == s {
        return true;
    }
    let df: i8 = q.file - king.file;
    let dr: i8 = q.rank - king.rank;
    let af: i8 = magnitude_of(df);
    let ar: i8 = magnitude_of(dr);
    if !(df == 0 || dr == 0 || af == ar) {
        return false;
    }
    let steps_needed: i8 = if af >= ar {
        af
    } else {
        ar
    };
    if steps_needed < 2 {
        return false;
    }
    let d: Delta = (sign_of(df), sign_of(dr));
    let mut n: i8 = 1;
    let mut c = Coord { file: king.file + d.0, rank: king.rank + d.1 };
    let mut from_between = false;
    while n < steps_needed
        invariant
            is_on_board(king),
            is_on_board(s),
            is_on_board(q),
            q != s,
            aligned(king, q),
            d == heading(king, q),
            steps_needed == span(king, q),
            1 <= n <= steps_needed,
            c == between(king, q, n as int),
            is_on_board(c),
            forall|k: int|
                0 < k < n ==> !own_at(base@, my_color, #[trigger] between(king, q, k)) && between(
                    king,
                    q,
                    k,
                ) != s,
            from_between == exists|k: int|
                0 < k < n && could_arrive(base@, my_color, #[trigger] between(king, q, k), s),
        decreases steps_needed - n,
    {
        if is_own_at(base, my_color, c) || c == s {
            assert(own_at(base@, my_color, between(king, q, n as int)) || between(
                king,
                q,
                n as int,
            ) == s);
            return false;
        }
        let arrives = arrival_possible(base, my_color, c, s);
        proof {
            if arrives {
                assert(could_arrive(base@, my_color, between(king, q, n as int), s));
            }
        }
        from_between = from_between || arrives;
        c = Coord { file: c.file + d.0, rank: c.rank + d.1 };
        n += 1;
    }
    from_between
}

/// The hypotheses that are compatible with an enemy piece having just taken on `s`; if none is,
/// all of them.
pub open spec fn pruned(
    base: PositionModel,
    my_color: Color,
    king: Coord,
    s: Coord,
    hypotheses: Seq<Hypothesis>,
) -> Seq<Hypothesis> {
    let kept = hypotheses.filter(|h: Hypothesis| may_discover(base, my_color, king, s, h.square));
    if kept.len() > 0 {
        kept
    } else {
        hypotheses
    }
}

/// Drops the hypotheses that a capture on `s` with check rules out: the checker is either the
/// piece that took, or a line piece whose line that piece has opened. Never drops all.
pub fn prune_infeasible_discovered_checks(
    base: &Position,
    my_color: Color,
    king: Coord,
    s: Coord,
    hypotheses: Vec<Hypothesis>,
) -> (res: Vec<Hypothesis>)
    requires
        is_on_board(king),
        is_on_board(s),
        forall|i: int|
            0 <= i < hypotheses@.len() ==> is_on_board((#[trigger] hypotheses@[i]).square),
    ensures
        res@ == pruned(base@, my_color, king, s, hypotheses@),
{
    let mut kept: Vec<Hypothesis> = Vec::new();
    let ghost all = hypotheses@;
    let ghost good = |h: Hypothesis| may_discover(base@, my_color, king, s, h.square);
    let mut i: usize = 0;
    assert(all.take(0).filter(good) =~= Seq::<Hypothesis>::empty()) by {
        reveal(Seq::filter);
    }
    while i < hypotheses.len()
        invariant
            is_on_board(king),
            is_on_board(s),
            all == hypotheses@,
            good == (|h: Hypothesis| may_discover(base@, my_color, king, s, h.square)),
            forall|i: int|
                0 <= i < hypotheses@.len() ==> is_on_board((#[trigger] hypotheses@[i]).square),
            i <= all.len(),
            kept@ == all.take(i as int).filter(good),
        decreases all.len() - i,
    {
        let h = hypotheses[i];
        proof {
            assert(all.take(i + 1) =~= all.take(i as int).push(h));
            all.take(i as int).lemma_filter_push(h, good);
        }
        if discovery_possible(base, my_color, king, s, h.square) {
            kept.push(h);
        }
        i += 1;
    }
    assert(all.take(i as int) =~= all);
    if kept.len() > 0 {
        kept
    } else {
        hypotheses
    }
}

/// What a foul says about a hypothesis under which the attempt would have been legal. A king's
/// move may have failed to a hidden second piece; other attempts tell against the hypothesis
/// itself.
#[derive(Clone, Copy, Debug, PartialEq, Eq, Structural)]
pub enum FoulEvidence {
    /// The king tried to take on the square of the hypothesis.
    KingCapture,
    /// The king tried another square.
    KingEscape,
    /// Another piece tried to take, on the square of the hypothesis or on a known enemy piece.
    OtherCapture,
    /// A drop or a quiet move.
    Quiet,
}

/// How often each kind of evidence has told against a hypothesis.
#[derive(Clone, Copy, Debug, PartialEq, Eq, Structural)]
pub struct EvidenceTally {
    pub king_capture: u32,
    pub king_escape: u32,
    pub other_capture: u32,
    pub quiet: u32,
}

/// No evidence yet.
pub open spec fn no_evidence() -> EvidenceTally {
    EvidenceTally { king_capture: 0, king_escape: 0, other_capture: 0, quiet: 0 }
}

/// The tally with one more piece of evidence.
pub open spec fn tallied(t: EvidenceTally, e: FoulEvidence) -> EvidenceTally {
    match e {
        FoulEvidence::KingCapture => EvidenceTally { king_capture: bumped(t.king_capture), ..t },
        FoulEvidence::KingEscape => EvidenceTally { king_escape: bumped(t.king_escape), ..t },
        FoulEvidence::OtherCapture => EvidenceTally { other_capture: bumped(t.other_capture), ..t },
        FoulEvidence::Quiet => EvidenceTally { quiet: bumped(t.quiet), ..t },
    }
}

fn tally(t: EvidenceTally, e: FoulEvidence) -> (res: EvidenceTally)
    ensures
        res == tallied(t, e),
{
    match e {
        FoulEvidence::KingCapture => EvidenceTally { king_capture: bump(t.king_capture), ..t },
        FoulEvidence::KingEscape => EvidenceTally { king_escape: bump(t.king_escape), ..t },
        FoulEvidence::OtherCapture => EvidenceTally { other_capture: bump(t.other_capture), ..t },
        FoulEvidence::Quiet => EvidenceTally { quiet: bump(t.quiet), ..t },
    }
}

/// The pieces and squares that a checker left on the board would keep under attack.
#[derive(Debug)]
pub struct Threat {
    /// The own pieces other than the king that it attacks.
    pub targets: Vec<(Coord, Role)>,
    /// How many of the squares around the own king it attacks.
    pub king_zone: usize,
}

/// The hypotheses about a check, with the evidence of the turn's fouls.
#[derive(Debug)]
pub struct CheckSolver {
    base: Position,
    my_color: Color,
    hypotheses: Vec<Hypothesis>,
    evidence: Vec<EvidenceTally>,
    king_fouls: u32,
    capture: Option<Coord>,
}

/// The mathematical content of a `CheckSolver`.
pub struct SolverModel {
    /// The own pieces and hand, with the enemy pieces that are known.
    pub base: PositionModel,
    pub my_color: Color,
    pub hypotheses: Seq<Hypothesis>,
    pub evidence: Seq<EvidenceTally>,
    /// How many fouls of the turn were moves of the king.
    pub king_fouls: u32,
    /// Where the opponent's last move took a piece.
    pub capture: Option<Coord>,
}

impl View for CheckSolver {
    type V = SolverModel;

    closed spec fn view(&self) -> SolverModel {
        SolverModel {
            base: self.base@,
            my_color: self.my_color,
            hypotheses: self.hypotheses@,
            evidence: self.evidence@,
            king_fouls: self.king_fouls,
            capture: self.capture,
        }
    }
}

impl SolverModel {
    /// Every hypothesis is on the board, has its tally, and the own king is there.
    pub open spec fn wf(self) -> bool {
        &&& self.base.wf()
        &&& self.evidence.len() == self.hypotheses.len()
        &&& self.hypotheses.len() > 0
        &&& forall|i: int|
            0 <= i < self.hypotheses.len() ==> is_on_board((#[trigger] self.hypotheses[i]).square)
        &&& king_of(self.base, self.my_color) is Some
    }

    /// The board on which a hypothesis holds.
    pub open spec fn board_under(self, i: int) -> PositionModel {
        self.base.with_cell(
            self.hypotheses[i].square,
            checker_piece(self.my_color, self.hypotheses[i].role),
        )
    }

    /// Whether the move would be legal if the hypothesis held and nothing else were hidden.
    pub open spec fn legal_if(self, i: int, mv: ShogiMove) -> bool {
        legal(self.board_under(i), mv)
    }

    /// Whether the move is one of the own king.
    pub open spec fn moves_king(self, mv: ShogiMove) -> bool {
        mv matches ShogiMove::Board { from, to, promote } && king_of(self.base, self.my_color)
            == Some(from)
    }

    /// What a foul says about a hypothesis on a square.
    pub open spec fn evidence_of(self, foul: ShogiMove, square: Coord) -> FoulEvidence {
        match foul {
            ShogiMove::Drop { role, to } => FoulEvidence::Quiet,
            ShogiMove::Board { from, to, promote } => if self.moves_king(foul) {
                if to == square {
                    FoulEvidence::KingCapture
                } else {
                    FoulEvidence::KingEscape
                }
            } else if to == square || self.base.at(to) is Some {
                FoulEvidence::OtherCapture
            } else {
                FoulEvidence::Quiet
            },
        }
    }

    /// The tallies after a foul: it counts against the hypotheses under which it would have been
    /// legal, and against no other.
    pub open spec fn evidence_after(self, foul: ShogiMove) -> Seq<EvidenceTally> {
        Seq::new(
            self.hypotheses.len(),
            |i: int|
                if self.legal_if(i, foul) {
                    tallied(
                        self.evidence[i],
                        self.evidence_of(foul, self.hypotheses[i].square),
                    )
                } else {
                    self.evidence[i]
                },
        )
    }

    /// The state after a foul.
    pub open spec fn fouled(self, foul: ShogiMove) -> SolverModel {
        SolverModel {
            evidence: self.evidence_after(foul),
            king_fouls: if self.moves_king(foul) {
                bumped(self.king_fouls)
            } else {
                self.king_fouls
            },
            ..self
        }
    }

    /// The state after several fouls.
    pub open spec fn all_fouled(self, fouls: Seq<ShogiMove>) -> SolverModel
        decreases fouls.len(),
    {
        if fouls.len() == 0 {
            self
        } else {
            self.all_fouled(fouls.drop_last()).fouled(fouls.last())
        }
    }

    /// Whether the move goes to a hypothesised checker with a piece other than the king and would
    /// resolve the check if that hypothesis held.
    pub open spec fn takes_checker(self, mv: ShogiMove) -> bool {
        &&& mv is Board
        &&& !self.moves_king(mv)
        &&& exists|i: int|
            0 <= i < self.hypotheses.len() && self.hypotheses[i].square == mv->Board_to
                && #[trigger] self.legal_if(i, mv)
    }
}

/// The own pieces put on a board; nothing if one of their squares does not read.
pub open spec fn with_pieces(
    board: PositionModel,
    pieces: Seq<(Seq<char>, Role)>,
    color: Color,
) -> Option<PositionModel>
    decreases pieces.len(),
{
    if pieces.len() == 0 {
        Some(board)
    } else {
        match (
            with_pieces(board, pieces.drop_last(), color),
            square_of_text(pieces.last().0),
        ) {
            (Some(b), Some(c)) => Some(
                b.with_cell(c, Some(Piece { color, role: pieces.last().1 })),
            ),
            _ => None,
        }
    }
}

/// An empty board with a hand for the side to move.
pub open spec fn hand_only(color: Color, hand: Seq<u32>) -> PositionModel {
    PositionModel {
        cells: Seq::new(81, |i: int| None::<Piece>),
        sente_hand: Seq::new(7, |i: int| 0u8),
        gote_hand: Seq::new(7, |i: int| 0u8),
        turn: color,
        move_number: 1,
    }.with_hand(color, Seq::new(7, |i: int| hand[i] as u8))
}

/// The role taken for an enemy piece whose role is not known.
pub open spec fn guessed_role(guesses: Seq<Option<Role>>, c: Coord) -> Role {
    match guesses[square_index(c)] {
        Some(role) => role,
        None => Role::Tokin,
    }
}

/// The board with the known enemy pieces. One whose guessed role would itself give check is left
/// out: it could not be told from the checker.
pub open spec fn with_enemies(
    board: PositionModel,
    my_color: Color,
    squares: Seq<Coord>,
    guesses: Seq<Option<Role>>,
) -> PositionModel
    decreases squares.len(),
{
    if squares.len() == 0 {
        board
    } else {
        let b = with_enemies(board, my_color, squares.drop_last(), guesses);
        let c = squares.last();
        let filled = b.with_cell(c, checker_piece(my_color, guessed_role(guesses, c)));
        if b.at(c) is None && !checked(filled, my_color) {
            filled
        } else {
            b
        }
    }
}

/// Where the opponent's last move took an own piece.
pub open spec fn last_capture(events: Seq<Event>) -> Option<Coord>
    decreases events.len(),
{
    if events.len() == 0 {
        None
    } else {
        match events.last() {
            Event::OpponentMoved { move_number, captured_at } => match captured_at {
                Some(text) => square_of_text(text),
                None => None,
            },
            _ => last_capture(events.drop_last()),
        }
    }
}

/// From which move on a known enemy piece counts: the last eight.
pub open spec fn fresh_from(move_number: u32) -> u32 {
    if move_number < 8 {
        0
    } else {
        (move_number - 8) as u32
    }
}

/// The known squares of enemy pieces that count at a move.
pub open spec fn fresh_enemies(events: Seq<Event>, move_number: u32) -> Seq<Coord> {
    all_squares().filter(|c: Coord| known_since(events, fresh_from(move_number), c))
}

/// The board from which a solver starts, if the view can be read and shows the own king.
pub open spec fn solver_base(
    view: ViewModel,
    events: Seq<Event>,
    guesses: Seq<Option<Role>>,
) -> Option<
    PositionModel,
> {
    match with_pieces(hand_only(view.color, view.hand), view.pieces, view.color) {
        Some(own) => if king_of(own, view.color) is Some {
            Some(
                with_enemies(
                    own,
                    view.color,
                    fresh_enemies(events, view.move_number),
                    guesses,
                ),
            )
        } else {
            None
        },
        None => None,
    }
}

/// The hypotheses with which a solver starts.
pub open spec fn solver_hypotheses(
    base: PositionModel,
    my_color: Color,
    counts: Seq<i128>,
    capture: Option<Coord>,
    prune: bool,
) -> Seq<Hypothesis> {
    let all = hypothesis_list(base, my_color, counts);
    match capture {
        Some(s) => if prune {
            pruned(base, my_color, king_of(base, my_color)->0, s, all)
        } else {
            all
        },
        None => all,
    }
}

/// What the opponent can have, by base role.
pub open spec fn role_counts(view: ViewModel, events: Seq<Event>) -> Seq<i128> {
    Seq::new(
        7,
        |i: int|
            opponent_count(side_after(view.color, events).lost, view.hand, i) as i128,
    )
}

/// The solver for a check, before the fouls of the turn; nothing if the view cannot be read, the
/// own king is not shown, or nothing could be giving the check.
pub open spec fn solver_at(
    view: ViewModel,
    events: Seq<Event>,
    guesses: Seq<Option<Role>>,
    prune: bool,
) -> Option<SolverModel> {
    match solver_base(view, events, guesses) {
        None => None,
        Some(base) => {
            let capture = last_capture(events);
            let hypotheses = solver_hypotheses(
                base,
                view.color,
                role_counts(view, events),
                capture,
                prune,
            );
            if hypotheses.len() == 0 {
                None
            } else {
                Some(
                    SolverModel {
                        base,
                        my_color: view.color,
                        hypotheses,
                        evidence: Seq::new(hypotheses.len(), |i: int| no_evidence()),
                        king_fouls: 0,
                        capture,
                    },
                )
            }
        },
    }
}

/// Changing a square that holds no king, to something that is no king, leaves the king where it
/// is.
pub proof fn lemma_king_stays(
    cells: Seq<Option<Piece>>,
    color: Color,
    k: int,
    v: Option<Piece>,
    i: int,
)
    requires
        cells.len() == 81,
        0 <= k < 81,
        cells[k] != Some(Piece { color, role: Role::King }),
        v != Some(Piece { color, role: Role::King }),
        0 <= i <= 81,
    ensures
        find_king(cells.update(k, v), color, i) == find_king(cells, color, i),
    decreases 81 - i,
{
    if i < 81 {
        lemma_king_stays(cells, color, k, v, i + 1);
    }
}

/// Every hypothesis is on the board.
pub proof fn lemma_hypotheses_on_board(base: PositionModel, my_color: Color, counts: Seq<i128>)
    ensures
        forall|i: int|
            0 <= i < hypothesis_list(base, my_color, counts).len() ==> is_on_board(
                (#[trigger] hypothesis_list(base, my_color, counts)[i]).square,
            ),
{
    let all = all_squares();
    let on = |c: Coord| hypotheses_on(base, my_color, counts, c);
    let list = hypothesis_list(base, my_color, counts);
    assert forall|i: int| 0 <= i < list.len() implies is_on_board(
        (#[trigger] list[i]).square,
    ) by {
        lemma_flat_map_contains(all, on, list[i]);
        assert(list.contains(list[i]));
        let k = choose|k: int| 0 <= k < all.len() && #[trigger] on(all[k]).contains(list[i]);
        let part = on(all[k]);
        let j = choose|j: int| 0 <= j < part.len() && part[j] == list[i];
        assert(part[j].square == all[k]);
        lemma_square_index(all[k], k);
    }
}

proof fn lemma_pruned_on_board(
    base: PositionModel,
    my_color: Color,
    king: Coord,
    s: Coord,
    hypotheses: Seq<Hypothesis>,
)
    requires
        forall|i: int|
            0 <= i < hypotheses.len() ==> is_on_board((#[trigger] hypotheses[i]).square),
    ensures
        forall|i: int|
            0 <= i < pruned(base, my_color, king, s, hypotheses).len() ==> is_on_board(
                (#[trigger] pruned(base, my_color, king, s, hypotheses)[i]).square,
            ),
{
    let good = |h: Hypothesis| may_discover(base, my_color, king, s, h.square);
    let kept = hypotheses.filter(good);
    assert forall|i: int| 0 <= i < kept.len() implies is_on_board((#[trigger] kept[i]).square) by {
        lemma_filter_contains_iff(hypotheses, good, kept[i]);
        assert(kept.contains(kept[i]));
        let k = choose|k: int| 0 <= k < hypotheses.len() && hypotheses[k] == kept[i];
        assert(is_on_board(hypotheses[k].square));
    }
}

impl CheckSolver {
    /// Whether every hypothesis is on the board and the own king is known.
    pub open spec fn inv(&self) -> bool {
        self@.wf()
    }

    fn place_own(view: &PlayerView) -> (res: Option<Position>)
        ensures
            res is Some <==> with_pieces(
                hand_only(view@.color, view@.hand),
                view@.pieces,
                view@.color,
            ) is Some,
            res is Some ==> res->0@ == with_pieces(
                hand_only(view@.color, view@.hand),
                view@.pieces,
                view@.color,
            )->0,
    {
        let color = view.your_color;
        let mut base = Position::empty(color);
        let ghost blank = base@;
        let mut k: usize = 0;
        while k < 7
            invariant
                k <= 7,
                color == view.your_color,
                blank.hand(color) == Seq::new(7, |i: int| 0u8),
                base@.hand(color).len() == 7,
                base@ == blank.with_hand(color, base@.hand(color)),
                forall|i: int|
                    0 <= i < k ==> #[trigger] base@.hand(color)[i]
                        == view@.hand[i] as u8,
            decreases 7 - k,
        {
            let n: u32 = view.your_hand.counts[k];
            let ghost before = base@;
            base.set_hand(color, slot_role(k), #[verifier::truncate] (n as u8));
            assert(base@ =~= blank.with_hand(color, base@.hand(color)));
            k += 1;
        }
        proof {
            assert(base@.hand(color) =~= Seq::new(7, |i: int| view@.hand[i] as u8));
            assert(base@ =~= hand_only(color, view@.hand));
        }
        let ghost start = base@;
        let mut n: usize = 0;
        while n < view.your_pieces.len()
            invariant
                n <= view.your_pieces@.len(),
                color == view.your_color,
                start == hand_only(color, view@.hand),
                with_pieces(start, view@.pieces.take(n as int), color) == Some(base@),
            decreases view.your_pieces@.len() - n,
        {
            proof {
                let t = view@.pieces.take(n + 1);
                assert(t.drop_last() =~= view@.pieces.take(n as int));
                assert(t.last() == view.your_pieces@[n as int]@);
            }
            match parse_usi_square(view.your_pieces[n].square.as_str()) {
                Some(c) => {
                    base.set(c, Some(Piece { color, role: view.your_pieces[n].role }));
                },
                None => {
                    proof {
                        lemma_unreadable_piece(
                            start,
                            view@.pieces,
                            color,
                            n + 1,
                            view@.pieces.len() as int,
                        );
                        assert(view@.pieces.take(view@.pieces.len() as int) =~= view@.pieces);
                    }
                    return None;
                },
            }
            n += 1;
        }
        assert(view@.pieces.take(n as int) =~= view@.pieces);
        Some(base)
    }

    /// Puts the known enemy pieces on the board.
    fn place_enemies(
        base: &mut Position,
        my_color: Color,
        squares: &Vec<Coord>,
        guesses: &[Option<Role>; 81],
    )
        requires
            forall|i: int| 0 <= i < squares@.len() ==> is_on_board(#[trigger] squares@[i]),
        ensures
            final(base)@ == with_enemies(old(base)@, my_color, squares@, guesses@),
            king_of(final(base)@, my_color) == king_of(old(base)@, my_color),
    {
        let ghost start = base@;
        let mut n: usize = 0;
        while n < squares.len()
            invariant
                n <= squares@.len(),
                forall|i: int| 0 <= i < squares@.len() ==> is_on_board(#[trigger] squares@[i]),
                base@ == with_enemies(start, my_color, squares@.take(n as int), guesses@),
                king_of(base@, my_color) == king_of(start, my_color),
            decreases squares@.len() - n,
        {
            let c = squares[n];
            let ghost before = base@;
            proof {
                let t = squares@.take(n + 1);
                assert(t.drop_last() =~= squares@.take(n as int));
                assert(t.last() == c);
                lemma_square_index(c, 0);
            }
            if base.piece_at(c).is_none() {
                let role = match guesses[index_of(c)] {
                    Some(role) => role,
                    None => Role::Tokin,
                };
                base.set(c, Some(Piece { color: my_color.other(), role }));
                proof {
                    lemma_king_stays(
                        before.cells,
                        my_color,
                        square_index(c),
                        checker_piece(my_color, role),
                        0,
                    );
                }
                if base.in_check(my_color) {
                    base.set(c, None);
                    assert(base@ =~= before);
                }
            }
            n += 1;
        }
        assert(squares@.take(n as int) =~= squares@);
    }

    /// Where the opponent's last move took an own piece.
    fn find_last_capture(log: &ObservationLog) -> (res: Option<Coord>)
        ensures
            res == last_capture(log@),
    {
        let mut n: usize = log.events.len();
        assert(log@.take(n as int) =~= log@);
        while n > 0
            invariant
                n <= log.events@.len(),
                last_capture(log@) == last_capture(log@.take(n as int)),
            decreases n,
        {
            proof {
                let t = log@.take(n as int);
                assert(t.drop_last() =~= log@.take(n - 1));
                assert(t.last() == log.events@[n - 1]@);
            }
            if let Observation::OpponentMoved { move_number: _, captured_my_piece_at } =
                &log.events[n - 1] {
                return match captured_my_piece_at {
                    Some(text) => parse_usi_square(text.as_str()),
                    None => None,
                };
            }
            n -= 1;
        }
        None
    }

    /// Sets up the hypotheses for an announced check and takes in the fouls of the turn.
    ///
    /// `guesses` gives, by square, the role to assume for an enemy piece that is known to stand
    /// there; without a guess it is taken for a tokin.
    pub fn new(
        view: &PlayerView,
        guesses: &[Option<Role>; 81],
        fouls_this_turn: &[ShogiMove],
        log: &ObservationLog,
        prune: bool,
    ) -> (res: Option<CheckSolver>)
        ensures
            res is Some <==> solver_at(view@, log@, guesses@, prune) is Some,
            res matches Some(solver) ==> solver.inv() && solver@ == solver_at(
                view@,
                log@,
                guesses@,
                prune,
            )->0.all_fouled(fouls_this_turn@),
    {
        let my_color = view.your_color;
        let mut base = match CheckSolver::place_own(view) {
            Some(base) => base,
            None => return None,
        };
        let king = match base.king_square(my_color) {
            Some(king) => king,
            None => return None,
        };
        proof {
            lemma_king_on_board(base@.cells, my_color, 0);
        }
        let since: u32 = if view.move_number < 8 {
            0
        } else {
            view.move_number - 8
        };
        let squares = known_enemy_squares(log, since);
        proof {
            let good = |c: Coord| known_since(log@, since, c);
            assert forall|i: int| 0 <= i < squares@.len() implies is_on_board(
                #[trigger] squares@[i],
            ) by {
                lemma_filter_contains_iff(all_squares(), good, squares@[i]);
                assert(squares@.contains(squares@[i]));
                let k = choose|k: int| 0 <= k < 81 && all_squares()[k] == squares@[i];
                lemma_square_index(squares@[i], k);
            }
        }
        CheckSolver::place_enemies(&mut base, my_color, &squares, guesses);
        let counts = opponent_role_counts(view, log);
        let ghost spec_counts = role_counts(view@, log@);
        proof {
            assert(counts@ =~= spec_counts);
            lemma_hypotheses_on_board(base@, my_color, counts@);
        }
        let mut hypotheses = enumerate(&base, my_color, &counts);
        let capture = CheckSolver::find_last_capture(log);
        if let Some(s) = capture {
            proof {
                lemma_capture_on_board(log@);
            }
            if prune {
                proof {
                    lemma_pruned_on_board(base@, my_color, king, s, hypotheses@);
                }
                hypotheses = prune_infeasible_discovered_checks(&base, my_color, king, s, hypotheses);
            }
        }
        if hypotheses.len() == 0 {
            return None;
        }
        let mut evidence: Vec<EvidenceTally> = Vec::new();
        let mut n: usize = 0;
        while n < hypotheses.len()
            invariant
                n <= hypotheses@.len(),
                evidence@ == Seq::new(n as nat, |i: int| no_evidence()),
            decreases hypotheses@.len() - n,
        {
            evidence.push(
                EvidenceTally { king_capture: 0, king_escape: 0, other_capture: 0, quiet: 0 },
            );
            assert(evidence@ =~= Seq::new((n + 1) as nat, |i: int| no_evidence()));
            n += 1;
        }
        let mut solver = CheckSolver {
            base,
            my_color,
            hypotheses,
            evidence,
            king_fouls: 0,
            capture,
        };
        let ghost start = solver@;
        assert(start == solver_at(view@, log@, guesses@, prune)->0);
        let mut k: usize = 0;
        while k < fouls_this_turn.len()
            invariant
                k <= fouls_this_turn@.len(),
                solver.inv(),
                solver@ == start.all_fouled(fouls_this_turn@.take(k as int)),
            decreases fouls_this_turn@.len() - k,
        {
            proof {
                let t = fouls_this_turn@.take(k + 1);
                assert(t.drop_last() =~= fouls_this_turn@.take(k as int));
                assert(t.last() == fouls_this_turn@[k as int]);
            }
            solver.observe_foul(&fouls_this_turn[k]);
            k += 1;
        }
        assert(fouls_this_turn@.take(k as int) =~= fouls_this_turn@);
        Some(solver)
    }

    fn is_king_move(&self, mv: &ShogiMove) -> (res: bool)
        ensures
            res == self@.moves_king(*mv),
    {
        match *mv {
            ShogiMove::Board { from, to: _, promote: _ } => match self.base.king_square(
                self.my_color,
            ) {
                Some(king) => king == from,
                None => false,
            },
            ShogiMove::Drop { role: _, to: _ } => false,
        }
    }

    /// What a foul says about a hypothesis on a square.
    pub fn foul_evidence(&self, foul: &ShogiMove, square: Coord) -> (res: FoulEvidence)
        ensures
            res == self@.evidence_of(*foul, square),
    {
        match *foul {
            ShogiMove::Drop { role: _, to: _ } => FoulEvidence::Quiet,
            ShogiMove::Board { from: _, to, promote: _ } => {
                if self.is_king_move(foul) {
                    if to == square {
                        FoulEvidence::KingCapture
                    } else {
                        FoulEvidence::KingEscape
                    }
                } else if to == square || self.base.piece_at(to).is_some() {
                    FoulEvidence::OtherCapture
                } else {
                    FoulEvidence::Quiet
                }
            },
        }
    }

    /// Takes in a foul of the turn.
    pub fn observe_foul(&mut self, foul: &ShogiMove)
        requires
            old(self).inv(),
        ensures
            final(self).inv(),
            final(self)@ == old(self)@.fouled(*foul),
    {
        let ghost start = self@;
        if self.is_king_move(foul) {
            self.king_fouls = bump(self.king_fouls);
        }
        let mut i: usize = 0;
        while i < self.hypotheses.len()
            invariant
                i <= self.hypotheses@.len(),
                start.wf(),
                self@.base == start.base,
                self@.my_color == start.my_color,
                self@.hypotheses == start.hypotheses,
                self@.capture == start.capture,
                self@.king_fouls == start.fouled(*foul).king_fouls,
                self@.evidence.len() == start.evidence.len(),
                forall|k: int|
                    i <= k < start.evidence.len() ==> #[trigger] self@.evidence[k]
                        == start.evidence[k],
                forall|k: int|
                    0 <= k < i ==> #[trigger] self@.evidence[k] == start.evidence_after(*foul)[k],
            decreases self.hypotheses@.len() - i,
        {
            if self.legal_under(i, foul) {
                let e = self.foul_evidence(foul, self.hypotheses[i].square);
                let t = self.evidence[i];
                self.evidence[i] = tally(t, e);
            }
            i += 1;
        }
        assert(self@.evidence =~= start.evidence_after(*foul));
    }

    /// Whether the move would be legal if the hypothesis held and nothing else were hidden.
    pub fn legal_under(&self, i: usize, mv: &ShogiMove) -> (res: bool)
        requires
            i < self@.hypotheses.len(),
            is_on_board(self@.hypotheses[i as int].square),
        ensures
            res == self@.legal_if(i as int, *mv),
    {
        let h = self.hypotheses[i];
        let mut board = self.base;
        board.set(h.square, Some(Piece { color: self.my_color.other(), role: h.role }));
        board.is_legal(mv)
    }

    /// Whether the move is an attempt to take the checker with a piece other than the king.
    pub fn captures_checker(&self, mv: &ShogiMove) -> (res: bool)
        requires
            self.inv(),
        ensures
            res == self@.takes_checker(*mv),
    {
        let to = match *mv {
            ShogiMove::Board { from: _, to, promote: _ } => to,
            ShogiMove::Drop { role: _, to: _ } => return false,
        };
        if self.is_king_move(mv) {
            return false;
        }
        let mut i: usize = 0;
        while i < self.hypotheses.len()
            invariant
                self.inv(),
                i <= self.hypotheses@.len(),
                *mv is Board,
                !self@.moves_king(*mv),
                to == mv->Board_to,
                forall|k: int|
                    0 <= k < i && self@.hypotheses[k].square == to ==> !#[trigger] self@.legal_if(
                        k,
                        *mv,
                    ),
            decreases self.hypotheses@.len() - i,
        {
            if self.hypotheses[i].square == to && self.legal_under(i, mv) {
                assert(self@.legal_if(i as int, *mv));
                return true;
            }
            i += 1;
        }
        false
    }

    /// The hypotheses that remain.
    pub fn hypotheses(&self) -> (res: &Vec<Hypothesis>)
        ensures
            res@ == self@.hypotheses,
    {
        &self.hypotheses
    }

    /// The evidence against each hypothesis.
    pub fn evidence(&self) -> (res: &Vec<EvidenceTally>)
        ensures
            res@ == self@.evidence,
    {
        &self.evidence
    }

    pub fn hypothesis_count(&self) -> (res: usize)
        ensures
            res == self@.hypotheses.len(),
    {
        self.hypotheses.len()
    }

    /// How many fouls of the turn were moves of the king.
    pub fn king_fouls(&self) -> (res: u32)
        ensures
            res == self@.king_fouls,
    {
        self.king_fouls
    }

    /// Where the opponent's last move took a piece.
    pub fn capture(&self) -> (res: Option<Coord>)
        ensures
            res == self@.capture,
    {
        self.capture
    }

    /// Whether the own king is the piece that moves.
    pub fn moves_own_king(&self, mv: &ShogiMove) -> (res: bool)
        ensures
            res == self@.moves_king(*mv),
    {
        self.is_king_move(mv)
    }

    /// What the hypothesised checker would keep under attack if it stayed.
    pub fn threat_of(&self, i: usize) -> (res: Threat)
        requires
            self.inv(),
            i < self@.hypotheses.len(),
        ensures
            res.targets@ == threatened_pieces(
                self@.board_under(i as int),
                self@.my_color,
                self@.hypotheses[i as int].square,
            ),
            res.king_zone == threatened_zone(
                self@.board_under(i as int),
                self@.my_color,
                self@.hypotheses[i as int].square,
            ),
    {
        let h = self.hypotheses[i];
        let my_color = self.my_color;
        assert(is_on_board(self@.hypotheses[i as int].square));
        let mut board = self.base;
        board.set(h.square, Some(Piece { color: my_color.other(), role: h.role }));
        let pieces = board.pieces();
        let ghost all = piece_list(board@);
        let ghost hit = |x: (Coord, Piece)| is_threatened(board@, my_color, h.square, x);
        let ghost pick = |x: (Coord, Piece)| (x.0, x.1.role);
        let mut targets: Vec<(Coord, Role)> = Vec::new();
        let mut n: usize = 0;
        assert(all.take(0).filter(hit) =~= Seq::<(Coord, Piece)>::empty()) by {
            reveal(Seq::filter);
        }
        assert(targets@ =~= all.take(0).filter(hit).map_values(pick));
        while n < pieces.len()
            invariant
                pieces@ == all,
                n <= all.len(),
                hit == (|x: (Coord, Piece)| is_threatened(board@, my_color, h.square, x)),
                pick == (|x: (Coord, Piece)| (x.0, x.1.role)),
                targets@ == all.take(n as int).filter(hit).map_values(pick),
            decreases all.len() - n,
        {
            let (c, p) = pieces[n];
            proof {
                assert(all.take(n + 1) =~= all.take(n as int).push((c, p)));
                all.take(n as int).lemma_filter_push((c, p), hit);
            }
            if p.color == my_color && p.role != Role::King && board.attacks(h.square, c) {
                targets.push((c, p.role));
                assert(targets@ =~= all.take(n + 1).filter(hit).map_values(pick));
            }
            n += 1;
        }
        assert(all.take(n as int) =~= all);
        let mut zone: usize = 0;
        if let Some(king) = board.king_square(my_color) {
            proof {
                lemma_king_on_board(board@.cells, my_color, 0);
            }
            let around = steps(Role::King);
            let ghost dirs = step_deltas(Role::King);
            let ghost bears = |d: Delta| attacks_from(board@, h.square, shifted(king, d));
            let mut k: usize = 0;
            assert(dirs.take(0).filter(bears) =~= Seq::<Delta>::empty()) by {
                reveal(Seq::filter);
            }
            while k < around.len()
                invariant
                    is_on_board(king),
                    around@ == dirs,
                    dirs == step_deltas(Role::King),
                    bears == (|d: Delta| attacks_from(board@, h.square, shifted(king, d))),
                    k <= dirs.len(),
                    zone == dirs.take(k as int).filter(bears).len(),
                    zone <= k,
                decreases dirs.len() - k,
            {
                let d = around[k];
                proof {
                    assert(dirs.take(k + 1) =~= dirs.take(k as int).push(d));
                    dirs.take(k as int).lemma_filter_push(d, bears);
                }
                if board.attacks(
                    h.square,
                    Coord { file: king.file + d.0, rank: king.rank + d.1 },
                ) {
                    zone += 1;
                }
                k += 1;
            }
            assert(dirs.take(k as int) =~= dirs);
        }
        Threat { targets, king_zone: zone }
    }
}

/// Whether an own piece other than the king is attacked from a square.
pub open spec fn is_threatened(
    m: PositionModel,
    my_color: Color,
    from: Coord,
    x: (Coord, Piece),
) -> bool {
    x.1.color == my_color && x.1.role != Role::King && attacks_from(m, from, x.0)
}

/// The own pieces other than the king that are attacked from a square.
pub open spec fn threatened_pieces(m: PositionModel, my_color: Color, from: Coord) -> Seq<
    (Coord, Role),
> {
    piece_list(m).filter(|x: (Coord, Piece)| is_threatened(m, my_color, from, x)).map_values(
        |x: (Coord, Piece)| (x.0, x.1.role),
    )
}

/// How many of the squares around the own king are attacked from a square.
pub open spec fn threatened_zone(m: PositionModel, my_color: Color, from: Coord) -> nat {
    match king_of(m, my_color) {
        Some(king) => step_deltas(Role::King).filter(
            |d: Delta| attacks_from(m, from, shifted(king, d)),
        ).len(),
        None => 0,
    }
}

/// A king that is found stands on the board, and it is that king.
pub proof fn lemma_king_on_board(cells: Seq<Option<Piece>>, color: Color, i: int)
    requires
        0 <= i <= 81,
    ensures
        find_king(cells, color, i) matches Some(k) ==> is_on_board(k) && i <= square_index(k) < 81
            && cells[square_index(k)] == Some(Piece { color, role: Role::King }),
    decreases 81 - i,
{
    if i < 81 {
        lemma_square_index(square_at(i), i);
        lemma_king_on_board(cells, color, i + 1);
    }
}

proof fn lemma_capture_on_board(events: Seq<Event>)
    ensures
        last_capture(events) matches Some(c) ==> is_on_board(c),
    decreases events.len(),
{
    if events.len() > 0 {
        lemma_capture_on_board(events.drop_last());
    }
}

/// A piece that cannot be read spoils every longer list.
proof fn lemma_unreadable_piece(
    board: PositionModel,
    pieces: Seq<(Seq<char>, Role)>,
    color: Color,
    n: int,
    m: int,
)
    requires
        0 <= n <= m <= pieces.len(),
        with_pieces(board, pieces.take(n), color) is None,
    ensures
        with_pieces(board, pieces.take(m), color) is None,
    decreases m - n,
{
    if n < m {
        lemma_unreadable_piece(board, pieces, color, n, m - 1);
        assert(pieces.take(m).drop_last() =~= pieces.take(m - 1));
    }
}

/// The hypotheses are exactly the squares that the own side does not hold, with the roles that the
/// opponent can have and that would be giving check from there.
pub proof fn law_hypotheses_exact(
    base: PositionModel,
    my_color: Color,
    counts: Seq<i128>,
    h: Hypothesis,
)
    ensures
        hypothesis_list(base, my_color, counts).contains(h) <==> may_hold_checker(
            base,
            my_color,
            h.square,
        ) && may_have(counts, h.role) && gives_check(base, my_color, h.square, h.role),
{
    let all = all_squares();
    let on = |c: Coord| hypotheses_on(base, my_color, counts, c);
    let list = hypothesis_list(base, my_color, counts);
    let roles = checker_role_list();
    lemma_flat_map_contains(all, on, h);
    if list.contains(h) {
        let k = choose|k: int| 0 <= k < all.len() && #[trigger] on(all[k]).contains(h);
        let c = all[k];
        lemma_square_index(c, k);
        let good = |role: Role| may_have(counts, role) && gives_check(base, my_color, c, role);
        let kept = roles.filter(good);
        let part = on(c);
        let j = choose|j: int| 0 <= j < part.len() && part[j] == h;
        assert(part[j] == Hypothesis { square: c, role: kept[j] });
        roles.lemma_filter_pred(good, j);
    }
    if may_hold_checker(base, my_color, h.square) && may_have(counts, h.role) && gives_check(
        base,
        my_color,
        h.square,
        h.role,
    ) {
        let c = h.square;
        lemma_square_index(c, 0);
        let good = |role: Role| may_have(counts, role) && gives_check(base, my_color, c, role);
        let kept = roles.filter(good);
        assert(roles.contains(h.role)) by {
            lemma_checker_roles(h.role);
        }
        lemma_filter_contains_iff(roles, good, h.role);
        let j = choose|j: int| 0 <= j < kept.len() && kept[j] == h.role;
        assert(on(c)[j] == h);
        assert(all[square_index(c)] == c);
        assert(on(all[square_index(c)]).contains(h));
    }
}

/// Every role but the king can give check.
proof fn lemma_checker_roles(role: Role)
    requires
        role != Role::King,
    ensures
        checker_role_list().contains(role),
{
    let roles = checker_role_list();
    let n = if order_of(role) < 7 {
        order_of(role) as int
    } else {
        order_of(role) - 1
    };
    assert(roles[n] == role);
}

/// Whether a board holds exactly the pieces of one side of a true position.
pub open spec fn own_pieces_of(base: PositionModel, truth: PositionModel, my_color: Color) -> bool {
    forall|c: Coord|
        #![trigger base.at(c)]
        #![trigger truth.at(c)]
        base.at(c) == (if own_at(truth, my_color, c) {
            truth.at(c)
        } else {
            None
        })
}

/// Boards with the same pieces of a side have its king on the same square.
proof fn lemma_same_king(base: PositionModel, truth: PositionModel, my_color: Color, i: int)
    requires
        0 <= i <= 81,
        own_pieces_of(base, truth, my_color),
    ensures
        find_king(base.cells, my_color, i) == find_king(truth.cells, my_color, i),
    decreases 81 - i,
{
    if i < 81 {
        let c = square_at(i);
        lemma_square_index(c, i);
        assert(base.at(c) == base.cells[i]);
        assert(truth.at(c) == truth.cells[i]);
        lemma_same_king(base, truth, my_color, i + 1);
    }
}

/// A true checker is always among the hypotheses that the own pieces leave, if the opponent is
/// counted as having such a piece.
pub proof fn law_true_checker_is_listed(
    truth: PositionModel,
    base: PositionModel,
    my_color: Color,
    counts: Seq<i128>,
    king: Coord,
    s: Coord,
)
    requires
        truth.wf(),
        base.wf(),
        own_pieces_of(base, truth, my_color),
        king_of(truth, my_color) == Some(king),
        attacker_at(truth, other_color(my_color), s, king),
        may_have(counts, truth.at(s)->0.role),
    ensures
        hypothesis_list(base, my_color, counts).contains(
            Hypothesis { square: s, role: truth.at(s)->0.role },
        ),
{
    let p = truth.at(s)->0;
    let probe = base.with_cell(s, checker_piece(my_color, p.role));
    lemma_square_index(s, 0);
    assert(base.at(s) is None);
    lemma_same_king(base, truth, my_color, 0);
    lemma_king_stays(base.cells, my_color, square_index(s), checker_piece(my_color, p.role), 0);
    assert(king_of(probe, my_color) == Some(king));
    assert(probe.at(s) == Some(p));
    if ray_hits(truth, p.role, p.color, s, king) {
        let (i, n) = choose|i: int, n: int|
            #[trigger] run_reaches(truth, p.role, p.color, s, king, i, n);
        let d = oriented(ray_deltas(p.role)[i], p.color);
        lemma_deltas(p.role);
        assert forall|k: int| 0 < k < n implies is_on_board(#[trigger] along(s, d, k)) && probe.at(
            along(s, d, k),
        ) is None by {
            let c = along(s, d, k);
            assert(truth.at(c) is None);
            assert(base.at(c) is None);
            assert(c != s);
            lemma_square_index(c, 0);
        }
        assert(run_reaches(probe, p.role, p.color, s, king, i, n));
    }
    assert(attacker_at(probe, other_color(my_color), s, king));
    law_hypotheses_exact(base, my_color, counts, Hypothesis { square: s, role: p.role });
}

/// Pruning keeps at least one hypothesis and adds none, and it keeps every hypothesis on the
/// square of the capture.
pub proof fn law_prune_keeps_some(
    base: PositionModel,
    my_color: Color,
    king: Coord,
    s: Coord,
    hypotheses: Seq<Hypothesis>,
    h: Hypothesis,
)
    ensures
        hypotheses.len() > 0 ==> pruned(base, my_color, king, s, hypotheses).len() > 0,
        pruned(base, my_color, king, s, hypotheses).contains(h) ==> hypotheses.contains(h),
        hypotheses.contains(h) && may_discover(base, my_color, king, s, h.square) ==> pruned(
            base,
            my_color,
            king,
            s,
            hypotheses,
        ).contains(h),
        h.square == s ==> may_discover(base, my_color, king, s, h.square),
{
    let good = |x: Hypothesis| may_discover(base, my_color, king, s, x.square);
    lemma_filter_contains_iff(hypotheses, good, h);
}

/// A run from one square to another, seen from its end.
proof fn lemma_reversed_run(q: Coord, d: Delta, n: int, king: Coord)
    requires
        is_on_board(q),
        is_on_board(king),
        -1 <= d.0 <= 1,
        -1 <= d.1 <= 1,
        d != (0i8, 0i8),
        1 <= n <= 8,
        along(q, d, n) == king,
    ensures
        aligned(king, q),
        span(king, q) == n,
        forall|m: int| 0 < m < n ==> #[trigger] between(king, q, m) == along(q, d, n - m),
{
}

/// The squares of a run are those between its ends.
proof fn lemma_run_between(o: Coord, d: Delta, n: int, s: Coord)
    requires
        is_on_board(o),
        is_on_board(s),
        -1 <= d.0 <= 1,
        -1 <= d.1 <= 1,
        d != (0i8, 0i8),
        1 <= n <= 8,
        along(o, d, n) == s,
    ensures
        o != s,
        aligned(o, s),
        span(o, s) == n,
        forall|m: int| 0 < m < n ==> #[trigger] between(o, s, m) == along(o, d, m),
{
}

/// A step goes to an adjacent square or is a knight's jump.
proof fn lemma_step_shape(role: Role, color: Color, o: Coord, s: Coord)
    requires
        is_on_board(o),
        is_on_board(s),
        step_hits(role, color, o, s),
    ensures
        o != s,
        span(o, s) <= 1 || (magnitude(s.file - o.file) == 1 && s.rank - o.rank == (if color
            == Color::Sente {
            -2int
        } else {
            2int
        })),
{
    let k = choose|k: int|
        0 <= k < step_deltas(role).len() && #[trigger] shifted(
            o,
            oriented(step_deltas(role)[k], color),
        ) == s;
    lemma_deltas(role);
    let d = step_deltas(role)[k];
    assert((-1 <= d.0 <= 1 && -1 <= d.1 <= 1) || ((d.0 == 1 || d.0 == -1) && d.1 == -2)) by {
        match role {
            Role::Pawn => {},
            Role::Knight => {},
            Role::Silver => {},
            Role::King => {},
            Role::Horse => {},
            Role::Dragon => {},
            _ => {},
        }
    }
}

/// The squares that a capture leaves alone.
proof fn lemma_capture_cells(before: PositionModel, o: Coord, s: Coord, promote: bool)
    requires
        before.wf(),
        pseudo_legal(before, ShogiMove::Board { from: o, to: s, promote }),
    ensures
        ({
            let after = after_move(before, ShogiMove::Board { from: o, to: s, promote });
            &&& o != s
            &&& after.at(o) is None
            &&& after.at(s) is Some
            &&& after.at(s)->0.color == before.turn
            &&& forall|c: Coord| c != o && c != s ==> #[trigger] after.at(c) == before.at(c)
        }),
{
    let after = after_move(before, ShogiMove::Board { from: o, to: s, promote });
    lemma_square_index(o, 0);
    lemma_square_index(s, 0);
    assert forall|c: Coord| c != o && c != s implies #[trigger] after.at(c) == before.at(c) by {
        lemma_square_index(c, 0);
    }
}

/// A piece that takes on a square could have gone there as far as the own pieces tell.
proof fn lemma_mover_arrives(
    before: PositionModel,
    base: PositionModel,
    my_color: Color,
    o: Coord,
    s: Coord,
    promote: bool,
)
    requires
        before.wf(),
        before.turn == other_color(my_color),
        pseudo_legal(before, ShogiMove::Board { from: o, to: s, promote }),
        own_pieces_of(
            base,
            after_move(before, ShogiMove::Board { from: o, to: s, promote }),
            my_color,
        ),
    ensures
        could_arrive(base, my_color, o, s),
{
    let after = after_move(before, ShogiMove::Board { from: o, to: s, promote });
    let mover = before.at(o)->0;
    lemma_capture_cells(before, o, s, promote);
    if step_hits(mover.role, mover.color, o, s) {
        lemma_step_shape(mover.role, mover.color, o, s);
    } else {
        let (k, r) = choose|k: int, r: int|
            #[trigger] run_reaches(before, mover.role, mover.color, o, s, k, r);
        let e = oriented(ray_deltas(mover.role)[k], mover.color);
        lemma_deltas(mover.role);
        lemma_run_between(o, e, r, s);
        assert forall|m: int| 0 < m < span(o, s) implies !own_at(
            base,
            my_color,
            #[trigger] between(o, s, m),
        ) by {
            let c = along(o, e, m);
            assert(before.at(c) is None);
            assert(c != o && c != s);
            assert(after.at(c) is None);
            assert(base.at(c) is None);
        }
    }
}

/// A piece that attacks only after the capture runs over the square that the capture left, and
/// the test sees its line open.
proof fn lemma_line_opened(
    before: PositionModel,
    base: PositionModel,
    my_color: Color,
    o: Coord,
    s: Coord,
    promote: bool,
    king: Coord,
    q: Coord,
) -> (m: int)
    requires
        before.wf(),
        is_on_board(king),
        pseudo_legal(before, ShogiMove::Board { from: o, to: s, promote }),
        own_pieces_of(
            base,
            after_move(before, ShogiMove::Board { from: o, to: s, promote }),
            my_color,
        ),
        q != s,
        attacks_from(
            after_move(before, ShogiMove::Board { from: o, to: s, promote }),
            q,
            king,
        ),
        !attacks_from(before, q, king),
    ensures
        aligned(king, q),
        0 < m < span(king, q),
        between(king, q, m) == o,
        forall|n: int|
            0 < n < span(king, q) ==> !own_at(base, my_color, #[trigger] between(king, q, n))
                && between(king, q, n) != s,
{
    let after = after_move(before, ShogiMove::Board { from: o, to: s, promote });
    lemma_capture_cells(before, o, s, promote);
    assert(q != o);
    let p = before.at(q)->0;
    assert(after.at(q) == before.at(q));
    lemma_deltas(p.role);
    let (i, n) = choose|i: int, n: int|
        #[trigger] run_reaches(after, p.role, p.color, q, king, i, n);
    let d = oriented(ray_deltas(p.role)[i], p.color);
    assert(!run_reaches(before, p.role, p.color, q, king, i, n));
    assert(!clear_run(before, q, d, n));
    let j = choose|j: int|
        0 < j < n && !(is_on_board(#[trigger] along(q, d, j)) && before.at(
            along(q, d, j),
        ) is None);
    assert(is_on_board(along(q, d, j)) && after.at(along(q, d, j)) is None);
    assert(along(q, d, j) == o);
    lemma_reversed_run(q, d, n, king);
    assert(between(king, q, n - j) == along(q, d, n - (n - j)));
    assert forall|m: int| 0 < m < span(king, q) implies !own_at(
        base,
        my_color,
        #[trigger] between(king, q, m),
    ) && between(king, q, m) != s by {
        let c = along(q, d, n - m);
        assert(after.at(c) is None);
        assert(base.at(c) is None);
    }
    n - j
}

/// Pruning after a capture is sound. If the opponent takes on `s` from a position in which the own
/// king was not attacked, then every piece that attacks the king afterwards passes the test, which
/// only looks at the own pieces.
pub proof fn law_prune_is_sound(
    before: PositionModel,
    base: PositionModel,
    my_color: Color,
    o: Coord,
    s: Coord,
    promote: bool,
    king: Coord,
    q: Coord,
)
    requires
        before.wf(),
        before.turn == other_color(my_color),
        pseudo_legal(before, ShogiMove::Board { from: o, to: s, promote }),
        own_at(before, my_color, s),
        king_of(before, my_color) == Some(king),
        !checked(before, my_color),
        own_pieces_of(
            base,
            after_move(before, ShogiMove::Board { from: o, to: s, promote }),
            my_color,
        ),
        attacker_at(
            after_move(before, ShogiMove::Board { from: o, to: s, promote }),
            other_color(my_color),
            q,
            king,
        ),
    ensures
        may_discover(base, my_color, king, s, q),
{
    if q != s {
        lemma_king_on_board(before.cells, my_color, 0);
        lemma_capture_cells(before, o, s, promote);
        assert(!attacker_at(before, other_color(my_color), q, king));
        let m = lemma_line_opened(before, base, my_color, o, s, promote, king, q);
        lemma_mover_arrives(before, base, my_color, o, s, promote);
        assert(could_arrive(base, my_color, between(king, q, m), s));
    }
}

/// The fouls of the turn never change which hypotheses there are, and the king's fouls are counted
/// one by one up to the limit of the counter.
pub proof fn law_fouls_keep_hypotheses(m: SolverModel, fouls: Seq<ShogiMove>)
    ensures
        m.all_fouled(fouls).hypotheses == m.hypotheses,
        m.all_fouled(fouls).base == m.base,
        m.all_fouled(fouls).my_color == m.my_color,
        m.wf() ==> m.all_fouled(fouls).wf(),
        m.king_fouls + fouls.len() <= u32::MAX ==> m.all_fouled(fouls).king_fouls == m.king_fouls
            + fouls.filter(|f: ShogiMove| m.moves_king(f)).len(),
    decreases fouls.len(),
{
    let king_move = |f: ShogiMove| m.moves_king(f);
    if fouls.len() == 0 {
        fouls.lemma_filter_len(king_move);
    } else {
        let front = fouls.drop_last();
        law_fouls_keep_hypotheses(m, front);
        assert(fouls =~= front.push(fouls.last()));
        front.lemma_filter_push(fouls.last(), king_move);
        front.lemma_filter_len(king_move);
    }
}

} // verus!
