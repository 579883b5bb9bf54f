//! How many moves a piece needs on an empty board: a lower bound for what it needs in a game.

use crate::board::{
    coord_at, index_of, is_on_board, law_move_targets, lemma_square_index, promotion_choice,
    promotion_rule, square_at, square_index, targets_from, targets_of, Coord, Promotion, SquareSet,
};
use crate::protocol::{promoted, Color, Role};
use crate::shogi::promote_role;
use vstd::prelude::*;

verus! {

/// The role of a piece, promoted on its way or not.
pub open spec fn role_as(role: Role, is_promoted: bool) -> Role {
    if is_promoted {
        match promoted(role) {
            Some(r) => r,
            None => role,
        }
    } else {
        role
    }
}

/// Whether a piece of a role on a square attacks another on an empty board.
pub open spec fn sees(role: Role, color: Color, from: Coord, to: Coord) -> bool {
    targets_from(Set::empty(), from, role, color).contains(to)
}

/// Whether one move leads from one place to another: a place is a square and whether the piece has
/// been promoted on its way.
pub open spec fn hops(role: Role, color: Color, a: (Coord, bool), b: (Coord, bool)) -> bool {
    &&& sees(role_as(role, a.1), color, a.0, b.0)
    &&& if a.1 {
        b.1
    } else {
        match promotion_rule(role, a.0, b.0, color) {
            Promotion::Never => !b.1,
            Promotion::Optional => true,
            Promotion::Forced => b.1,
        }
    }
}

/// Whether a piece can be at a place after exactly `n` moves.
pub open spec fn reaches(role: Role, color: Color, from: Coord, to: (Coord, bool), n: nat) -> bool
    decreases n,
{
    if n == 0 {
        to == (from, false)
    } else {
        exists|a: (Coord, bool)|
            reaches(role, color, from, a, (n - 1) as nat) && #[trigger] hops(role, color, a, to)
    }
}

/// Whether `n` is the least number of moves to a place.
pub open spec fn least(role: Role, color: Color, from: Coord, to: (Coord, bool), n: nat) -> bool {
    reaches(role, color, from, to, n) && forall|k: nat| k < n ==> !#[trigger] reaches(
        role,
        color,
        from,
        to,
        k,
    )
}

/// Whether a place is not reached with up to `n` moves.
pub open spec fn out_of_reach(
    role: Role,
    color: Color,
    from: Coord,
    to: (Coord, bool),
    n: int,
) -> bool {
    forall|k: nat| k <= n ==> !#[trigger] reaches(role, color, from, to, k)
}

/// Whether a number is the least number of moves to a place, or is missing where none up to `n`
/// leads there.
pub open spec fn tells(
    d: Option<u32>,
    role: Role,
    color: Color,
    from: Coord,
    to: (Coord, bool),
    n: int,
) -> bool {
    match d {
        Some(k) => k <= n && least(role, color, from, to, k as nat),
        None => out_of_reach(role, color, from, to, n),
    }
}

/// Every place that is reached has a least number of moves.
proof fn lemma_least(role: Role, color: Color, from: Coord, to: (Coord, bool), n: nat) -> (k: nat)
    requires
        reaches(role, color, from, to, n),
    ensures
        k <= n,
        least(role, color, from, to, k),
    decreases n,
{
    if exists|k: nat| k < n && #[trigger] reaches(role, color, from, to, k) {
        let k = choose|k: nat| k < n && #[trigger] reaches(role, color, from, to, k);
        lemma_least(role, color, from, to, k)
    } else {
        n
    }
}

proof fn lemma_reaches_on_board(role: Role, color: Color, from: Coord, to: (Coord, bool), n: nat)
    requires
        is_on_board(from),
        reaches(role, color, from, to, n),
    ensures
        is_on_board(to.0),
    decreases n,
{
    if n > 0 {
        let a = choose|a: (Coord, bool)|
            reaches(role, color, from, a, (n - 1) as nat) && #[trigger] hops(role, color, a, to);
        lemma_reaches_on_board(role, color, from, a, (n - 1) as nat);
        law_move_targets(Set::empty(), a.0, role_as(role, a.1), color, to.0);
    }
}

/// Where no place needs exactly `n` moves, none needs more.
proof fn lemma_no_more(role: Role, color: Color, from: Coord, n: nat, m: nat, to: (Coord, bool))
    requires
        n <= m,
        forall|t: (Coord, bool)| !#[trigger] least(role, color, from, t, n),
    ensures
        !least(role, color, from, to, m),
    decreases m,
{
    if m > n && least(role, color, from, to, m) {
        let a = choose|a: (Coord, bool)|
            reaches(role, color, from, a, (m - 1) as nat) && #[trigger] hops(role, color, a, to);
        let k = lemma_least(role, color, from, a, (m - 1) as nat);
        if k >= n {
            lemma_no_more(role, color, from, n, k, a);
        } else {
            assert(reaches(role, color, from, a, ((k + 1) - 1) as nat));
            assert(reaches(role, color, from, to, (k + 1) as nat));
        }
    }
}

/// The number of a place.
pub open spec fn place_index(p: (Coord, bool)) -> int {
    square_index(p.0) * 2 + (if p.1 {
        1int
    } else {
        0int
    })
}

/// The place of a number.
pub open spec fn place_at(i: int) -> (Coord, bool) {
    (square_at(i / 2), i % 2 == 1)
}

proof fn lemma_place(p: (Coord, bool), i: int)
    ensures
        is_on_board(p.0) ==> 0 <= place_index(p) < 162 && place_at(place_index(p)) == p,
        0 <= i < 162 ==> is_on_board(place_at(i).0) && place_index(place_at(i)) == i,
{
    lemma_square_index(p.0, i / 2);
}

/// The least numbers of moves to all places, up to a budget.
#[derive(Debug)]
pub struct Distances {
    table: Vec<Option<u32>>,
}

impl Distances {
    pub closed spec fn wf(&self) -> bool {
        self.table@.len() == 162
    }

    /// The number that is kept of a place.
    pub closed spec fn at(&self, p: (Coord, bool)) -> Option<u32> {
        self.table@[place_index(p)]
    }

    /// The least number of moves to a square, if it is within the budget.
    pub fn get(&self, to: Coord, is_promoted: bool) -> (res: Option<u32>)
        requires
            self.wf(),
            is_on_board(to),
        ensures
            res == self.at((to, is_promoted)),
    {
        let i: usize = index_of(to) * 2 + (if is_promoted {
            1
        } else {
            0
        });
        self.table[i]
    }

    /// Notes that a place is reached with `n` moves, unless it was before.
    fn note(&mut self, to: Coord, is_promoted: bool, n: u32)
        requires
            old(self).wf(),
            is_on_board(to),
        ensures
            final(self).wf(),
            forall|p: (Coord, bool)|
                is_on_board(p.0) ==> #[trigger] final(self).at(p) == (if old(self).at(p) is None && p
                    == (to, is_promoted) {
                    Some(n)
                } else {
                    old(self).at(p)
                }),
    {
        let i: usize = index_of(to) * 2 + (if is_promoted {
            1
        } else {
            0
        });
        if self.table[i].is_none() {
            self.table.set(i, Some(n));
        }
        proof {
            assert forall|p: (Coord, bool)| is_on_board(p.0) implies #[trigger] self.at(p) == (
            if old(self).at(p) is None && p == (to, is_promoted) {
                Some(n)
            } else {
                old(self).at(p)
            }) by {
                lemma_place(p, 0);
                lemma_place((to, is_promoted), 0);
            }
        }
    }

    /// Notes every place that one move leads to.
    fn expand(&mut self, role: Role, color: Color, a: (Coord, bool), n: u32)
        requires
            old(self).wf(),
            is_on_board(a.0),
        ensures
            final(self).wf(),
            forall|p: (Coord, bool)|
                is_on_board(p.0) ==> #[trigger] final(self).at(p) == (if old(self).at(p) is None
                    && hops(role, color, a, p) {
                    Some(n)
                } else {
                    old(self).at(p)
                }),
    {
        let empty = SquareSet::empty();
        let as_role = if a.1 {
            match promote_role(role) {
                Some(r) => r,
                None => role,
            }
        } else {
            role
        };
        let targets = targets_of(&empty, a.0, as_role, color);
        let ghost start = *self;
        let mut j: usize = 0;
        while j < targets.len()
            invariant
                start.wf(),
                self.wf(),
                is_on_board(a.0),
                as_role == role_as(role, a.1),
                targets@ == targets_from(Set::empty(), a.0, as_role, color),
                j <= targets@.len(),
                forall|p: (Coord, bool)|
                    is_on_board(p.0) ==> #[trigger] self.at(p) == (if start.at(p) is None
                        && targets@.take(j as int).contains(p.0) && hops(role, color, a, p) {
                        Some(n)
                    } else {
                        start.at(p)
                    }),
            decreases targets@.len() - j,
        {
            let to = targets[j];
            let ghost had = *self;
            proof {
                assert(targets@.contains(to));
                law_move_targets(Set::empty(), a.0, as_role, color, to);
            }
            let (plain, other) = if a.1 {
                (false, true)
            } else {
                match promotion_choice(role, a.0, to, color) {
                    Promotion::Never => (true, false),
                    Promotion::Optional => (true, true),
                    Promotion::Forced => (false, true),
                }
            };
            if plain {
                self.note(to, false, n);
            }
            if other {
                self.note(to, true, n);
            }
            proof {
                let t = targets@.take(j as int);
                let u = targets@.take(j + 1);
                assert forall|p: (Coord, bool)| is_on_board(p.0) implies #[trigger] self.at(p) == (
                if start.at(p) is None && u.contains(p.0) && hops(role, color, a, p) {
                    Some(n)
                } else {
                    start.at(p)
                }) by {
                    assert(u =~= t.push(to));
                    assert(u[j as int] == to);
                    if t.contains(p.0) {
                        let k = choose|k: int| 0 <= k < t.len() && t[k] == p.0;
                        assert(u[k] == p.0);
                    }
                    if u.contains(p.0) && p.0 != to {
                        let k = choose|k: int| 0 <= k < u.len() && u[k] == p.0;
                        assert(t[k] == p.0);
                    }
                    assert(had.at(p) == (if start.at(p) is None && t.contains(p.0) && hops(
                        role,
                        color,
                        a,
                        p,
                    ) {
                        Some(n)
                    } else {
                        start.at(p)
                    }));
                    if p.0 == to {
                        assert(hops(role, color, a, p) <==> (if p.1 {
                            other
                        } else {
                            plain
                        }));
                    }
                }
            }
            j += 1;
        }
        assert(targets@.take(j as int) =~= targets@);
    }
}

/// The state of the search after all places that need at most `n` moves.
spec fn settled(d: Distances, role: Role, color: Color, from: Coord, n: int) -> bool {
    forall|p: (Coord, bool)|
        is_on_board(p.0) ==> tells(#[trigger] d.at(p), role, color, from, p, n)
}

/// Whether no place before the `i`-th that needs `n` moves leads to another in one move.
spec fn untouched(role: Role, color: Color, from: Coord, n: int, i: int, p: (Coord, bool)) -> bool {
    forall|a: (Coord, bool)|
        is_on_board(a.0) && place_index(a) < i && least(role, color, from, a, n as nat)
            ==> !#[trigger] hops(role, color, a, p)
}

/// What is kept of a place while those that need `n` moves are gone through.
spec fn tells_so_far(
    d: Option<u32>,
    role: Role,
    color: Color,
    from: Coord,
    p: (Coord, bool),
    n: int,
    i: int,
) -> bool {
    match d {
        Some(k) => k <= n + 1 && least(role, color, from, p, k as nat),
        None => out_of_reach(role, color, from, p, n) && untouched(role, color, from, n, i, p),
    }
}

/// The state of the search while the places that need `n` moves are gone through.
spec fn settling(d: Distances, role: Role, color: Color, from: Coord, n: int, i: int) -> bool {
    forall|p: (Coord, bool)|
        is_on_board(p.0) ==> tells_so_far(#[trigger] d.at(p), role, color, from, p, n, i)
}

proof fn lemma_layer_done(d: Distances, role: Role, color: Color, from: Coord, n: int)
    requires
        is_on_board(from),
        n >= 0,
        settling(d, role, color, from, n, 162),
    ensures
        settled(d, role, color, from, n + 1),
{
    assert forall|p: (Coord, bool)| is_on_board(p.0) implies tells(
        #[trigger] d.at(p),
        role,
        color,
        from,
        p,
        n + 1,
    ) by {
        if d.at(p) is None {
            assert forall|k: nat| k <= n + 1 implies !#[trigger] reaches(role, color, from, p, k) by {
                if k == n + 1 && reaches(role, color, from, p, k) {
                    let a = choose|a: (Coord, bool)|
                        reaches(role, color, from, a, (k - 1) as nat) && #[trigger] hops(
                            role,
                            color,
                            a,
                            p,
                        );
                    lemma_reaches_on_board(role, color, from, a, (k - 1) as nat);
                    let m = lemma_least(role, color, from, a, (k - 1) as nat);
                    lemma_place(a, 0);
                    if m < n {
                        assert(reaches(role, color, from, a, ((m + 1) - 1) as nat));
                        assert(reaches(role, color, from, p, (m + 1) as nat));
                    }
                }
            }
        }
    }
}

/// The least numbers of moves of a piece to all places on an empty board, as far as a budget goes.
pub fn distances(role: Role, color: Color, from: Coord, budget: u32) -> (res: Distances)
    requires
        is_on_board(from),
    ensures
        res.wf(),
        forall|p: (Coord, bool)|
            is_on_board(p.0) ==> tells(
                #[trigger] res.at(p),
                role,
                color,
                from,
                p,
                budget as int,
            ),
{
    let mut table: Vec<Option<u32>> = Vec::new();
    let mut fill: usize = 0;
    while fill < 162
        invariant
            fill <= 162,
            table@.len() == fill,
            forall|i: int| 0 <= i < fill ==> (#[trigger] table@[i]) is None,
        decreases 162 - fill,
    {
        table.push(None);
        fill += 1;
    }
    let mut d = Distances { table };
    proof {
        assert forall|p: (Coord, bool)| is_on_board(p.0) implies #[trigger] d.at(p) is None by {
            lemma_place(p, 0);
        }
    }
    d.note(from, false, 0);
    let mut n: u32 = 0;
    while n < budget
        invariant
            is_on_board(from),
            d.wf(),
            n <= budget,
            settled(d, role, color, from, n as int),
        decreases budget - n,
    {
        let mut found = false;
        let mut i: usize = 0;
        assert(settling(d, role, color, from, n as int, 0)) by {
            assert forall|a: (Coord, bool)| is_on_board(a.0) implies place_index(a) >= 0 by {
                lemma_place(a, 0);
            }
        }
        while i < 162
            invariant
                i <= 162,
                is_on_board(from),
                d.wf(),
                n < budget,
                settling(d, role, color, from, n as int, i as int),
                !found ==> settled(d, role, color, from, n as int),
                !found ==> forall|a: (Coord, bool)|
                    is_on_board(a.0) && place_index(a) < i ==> !#[trigger] least(
                        role,
                        color,
                        from,
                        a,
                        n as nat,
                    ),
            decreases 162 - i,
        {
            let c = coord_at(i / 2);
            let is_promoted = i % 2 == 1;
            let ghost a = (c, is_promoted);
            let ghost had = d;
            proof {
                lemma_place(a, i as int);
                assert(a == place_at(i as int));
            }
            let at = d.get(c, is_promoted);
            if at == Some(n) {
                found = true;
                d.expand(role, color, (c, is_promoted), n + 1);
                proof {
                    assert(least(role, color, from, a, n as nat));
                    assert forall|p: (Coord, bool)| is_on_board(p.0) implies tells_so_far(
                        #[trigger] d.at(p),
                        role,
                        color,
                        from,
                        p,
                        n as int,
                        i + 1,
                    ) by {
                        if had.at(p) is None {
                            if hops(role, color, a, p) {
                                assert(reaches(role, color, from, a, ((n + 1) - 1) as nat));
                                assert(reaches(role, color, from, p, (n + 1) as nat));
                                assert(least(role, color, from, p, (n + 1) as nat));
                            } else {
                                assert forall|b: (Coord, bool)|
                                    is_on_board(b.0) && place_index(b) < i + 1 && least(
                                        role,
                                        color,
                                        from,
                                        b,
                                        n as nat,
                                    ) implies !#[trigger] hops(role, color, b, p) by {
                                    lemma_place(b, 0);
                                    if place_index(b) == i {
                                        assert(b == a);
                                    }
                                }
                            }
                        }
                    }
                }
            } else {
                proof {
                    assert(!least(role, color, from, a, n as nat)) by {
                        if least(role, color, from, a, n as nat) {
                            match d.at(a) {
                                Some(k) => {
                                    if k < n {
                                        assert(reaches(role, color, from, a, k as nat));
                                    } else {
                                        assert(reaches(role, color, from, a, n as nat));
                                    }
                                },
                                None => {},
                            }
                        }
                    }
                    assert forall|b: (Coord, bool)|
                        is_on_board(b.0) && place_index(b) < i + 1 && least(
                            role,
                            color,
                            from,
                            b,
                            n as nat,
                        ) implies place_index(b) < i by {
                        lemma_place(b, 0);
                        if place_index(b) == i {
                            assert(b == a);
                        }
                    }
                    assert forall|p: (Coord, bool)| is_on_board(p.0) implies tells_so_far(
                        #[trigger] d.at(p),
                        role,
                        color,
                        from,
                        p,
                        n as int,
                        i + 1,
                    ) by {}
                }
            }
            i += 1;
        }
        if !found {
            proof {
                assert forall|t: (Coord, bool)| !#[trigger] least(
                    role,
                    color,
                    from,
                    t,
                    n as nat,
                ) by {
                    if least(role, color, from, t, n as nat) {
                        lemma_reaches_on_board(role, color, from, t, n as nat);
                        lemma_place(t, 0);
                    }
                }
                assert forall|p: (Coord, bool)| is_on_board(p.0) implies tells(
                    #[trigger] d.at(p),
                    role,
                    color,
                    from,
                    p,
                    budget as int,
                ) by {
                    if d.at(p) is None {
                        assert forall|k: nat| k <= budget implies !#[trigger] reaches(
                            role,
                            color,
                            from,
                            p,
                            k,
                        ) by {
                            if reaches(role, color, from, p, k) {
                                let m = lemma_least(role, color, from, p, k);
                                if m >= n {
                                    lemma_no_more(role, color, from, n as nat, m, p);
                                }
                            }
                        }
                    }
                }
            }
            return d;
        }
        proof {
            lemma_layer_done(d, role, color, from, n as int);
        }
        n += 1;
    }
    d
}

/// Whether a piece of a role on a square attacks another on an empty board.
pub fn piece_attacks_square(role: Role, color: Color, from: Coord, to: Coord) -> (res: bool)
    requires
        is_on_board(from),
    ensures
        res == sees(role, color, from, to),
{
    let empty = SquareSet::empty();
    let targets = targets_of(&empty, from, role, color);
    let mut i: usize = 0;
    while i < targets.len()
        invariant
            i <= targets@.len(),
            targets@ == targets_from(Set::empty(), from, role, color),
            forall|k: int| 0 <= k < i ==> targets@[k] != to,
        decreases targets@.len() - i,
    {
        if targets[i] == to {
            assert(targets@[i as int] == to);
            return true;
        }
        i += 1;
    }
    false
}

/// A promoted piece stays promoted, however far it goes.
pub proof fn law_promotion_lasts(role: Role, color: Color, a: (Coord, bool), b: (Coord, bool))
    requires
        hops(role, color, a, b),
        a.1,
    ensures
        b.1,
{
}

/// What takes `m` moves and then `n` more can be had in `m + n`.
pub proof fn law_moves_add_up(
    role: Role,
    color: Color,
    from: Coord,
    middle: Coord,
    to: (Coord, bool),
    m: nat,
    n: nat,
)
    requires
        reaches(role, color, from, (middle, false), m),
        reaches(role, color, middle, to, n),
    ensures
        reaches(role, color, from, to, m + n),
    decreases n,
{
    if n > 0 {
        let a = choose|a: (Coord, bool)|
            reaches(role, color, middle, a, (n - 1) as nat) && #[trigger] hops(role, color, a, to);
        law_moves_add_up(role, color, from, middle, a, m, (n - 1) as nat);
        assert(((m + n) - 1) as nat == m + (n - 1) as nat);
        assert(reaches(role, color, from, a, ((m + n) - 1) as nat));
        assert(hops(role, color, a, to));
    }
}

/// One move of a piece on an empty board: to a square that its role, promoted or not, goes to. A
/// promoted piece stays promoted; one that is not may promote where it can and one of the squares is
/// among the three farthest ranks, and has to where it could not go on.
pub proof fn law_one_move(role: Role, color: Color, a: Coord, b: Coord)
    requires
        is_on_board(a),
        is_on_board(b),
    ensures
        ({
            let far_a = match color {
                Color::Sente => a.rank <= 3,
                Color::Gote => a.rank >= 7,
            };
            let far_b = match color {
                Color::Sente => b.rank <= 3,
                Color::Gote => b.rank >= 7,
            };
            let last = match color {
                Color::Sente => b.rank as int,
                Color::Gote => 10 - b.rank,
            };
            let stuck = ((role == Role::Pawn || role == Role::Lance) && last == 1) || (role
                == Role::Knight && last <= 2);
            let goes = targets_from(Set::empty(), a, role, color).contains(b);
            &&& hops(role, color, (a, false), (b, false)) <==> goes && !stuck
            &&& hops(role, color, (a, false), (b, true)) <==> goes && promoted(role) is Some && (far_a
                || far_b || stuck)
            &&& hops(role, color, (a, true), (b, true)) <==> targets_from(
                Set::empty(),
                a,
                match promoted(role) {
                    Some(r) => r,
                    None => role,
                },
                color,
            ).contains(b)
            &&& !hops(role, color, (a, true), (b, false))
        }),
{
}

/// A piece is where a row of single moves brings it, and nowhere else.
pub proof fn law_rows_of_moves(
    role: Role,
    color: Color,
    row: Seq<(Coord, bool)>,
    from: Coord,
)
    requires
        row.len() > 0,
        row[0] == (from, false),
        forall|i: int|
            0 <= i < row.len() - 1 ==> hops(role, color, #[trigger] row[i], row[i + 1]),
    ensures
        reaches(role, color, from, row.last(), (row.len() - 1) as nat),
    decreases row.len(),
{
    if row.len() > 1 {
        let front = row.drop_last();
        assert forall|i: int| 0 <= i < front.len() - 1 implies hops(
            role,
            color,
            #[trigger] front[i],
            front[i + 1],
        ) by {
            assert(hops(role, color, row[i], row[i + 1]));
        }
        law_rows_of_moves(role, color, front, from);
        assert(hops(role, color, row[row.len() - 2], row[row.len() - 1]));
        assert(reaches(role, color, from, front.last(), ((row.len() - 1) - 1) as nat));
    }
}

/// Whatever is reached in some moves is the end of a row of as many single moves.
pub proof fn law_reached_by_a_row(role: Role, color: Color, from: Coord, to: (Coord, bool), n: nat)
    requires
        reaches(role, color, from, to, n),
    ensures
        exists|row: Seq<(Coord, bool)>|
            row.len() == n + 1 && row[0] == (from, false) && #[trigger] row.last() == to && forall|
                i: int,
            |
                0 <= i < n ==> hops(role, color, #[trigger] row[i], row[i + 1]),
    decreases n,
{
    if n == 0 {
        let row = seq![(from, false)];
        assert(row.last() == to);
    } else {
        let a = choose|a: (Coord, bool)|
            reaches(role, color, from, a, (n - 1) as nat) && #[trigger] hops(role, color, a, to);
        law_reached_by_a_row(role, color, from, a, (n - 1) as nat);
        let front = choose|row: Seq<(Coord, bool)>|
            row.len() == n && row[0] == (from, false) && #[trigger] row.last() == a && forall|i: int|
                0 <= i < n - 1 ==> hops(role, color, #[trigger] row[i], row[i + 1]);
        let row = front.push(to);
        assert forall|i: int| 0 <= i < n implies hops(role, color, #[trigger] row[i], row[i + 1]) by {
            if i < n - 1 {
                assert(hops(role, color, front[i], front[i + 1]));
            } else {
                assert(row[i] == a);
            }
        }
        assert(row.last() == to);
    }
}

} // verus!
