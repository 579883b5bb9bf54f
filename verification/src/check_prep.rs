//! How well a side is prepared for a check before it comes: from where the king could be checked,
//! which of those squares the own pieces cover, and what happened when checks followed each other.
//!
//! Everything here is optimistic in one way: only the own pieces block a line, since the
//! opponent's are not seen.

use crate::board::{
    all_squares, along, coord_at, index_of, is_direction, is_on_board, is_open, lemma_deltas,
    lemma_ray_reach, lemma_square_index, make_usi_square, occupied_by, occupied_set, on_board,
    orient, oriented, parse_usi_square, ray_deltas, ray_reach, rays, shifted, square_at,
    square_index, square_of_text, square_text, step_deltas, steps, Coord, Delta, SquareSet,
};
use crate::check::span;
use crate::check_economy::{
    checker_list, is_true_checker, lemma_checker_list, shown_king, true_checkers,
};
use crate::lists::{
    lemma_filter_contains_iff, lemma_filter_fewer, lemma_filter_three_ways, lemma_flat_map_contains,
    lemma_flat_map_len,
};
use crate::model::visible_pieces;
use crate::observation::{Event, Observation, ObservationLog};
use crate::protocol::{
    other_color, visible_list, Color, FoulRecord, GameEndPayload, MoveRecord, Role, VisiblePiece,
};
use crate::replay::{
    add_foul_obs, by_number, game_run, pieces_of_side, replay_game, side_only, sort_fouls,
    foul_taken, lemma_by_number_len, truth_run, truth_start, DecisionModel, SideEvents, SideLogs,
    TruthState,
};
use crate::shogi::{
    arriving_role, checked, initial_model, king_of, law_legal_moves, legal, legal_list, move_of_text, parse_usi,
    promote_role, step_hits, Position, PositionModel, ShogiMove,
};
use vstd::prelude::*;
use vstd::std_specs::hash::*;
use std::collections::HashMap;

verus! {

/// The kinds of squares from which a king can be checked from afar. Adjacent squares are counted
/// on their own.
#[derive(Clone, Copy, Debug, PartialEq, Eq, Hash, Structural)]
pub enum OriginClass {
    /// A knight's jump away.
    Knight,
    /// On the king's file or rank, two or more squares away.
    Line,
    /// On one of the king's diagonals, two or more squares away.
    Diag,
}

impl OriginClass {
    /// All classes, in the order in which they are counted.
    pub fn all() -> (res: [OriginClass; 3])
        ensures
            res@ == seq![OriginClass::Knight, OriginClass::Line, OriginClass::Diag],
    {
        let res = [OriginClass::Knight, OriginClass::Line, OriginClass::Diag];
        assert(res@ =~= seq![OriginClass::Knight, OriginClass::Line, OriginClass::Diag]);
        res
    }

    /// The name used in data files.
    pub fn tag(self) -> (res: &'static str)
        ensures
            res@ == (match self {
                OriginClass::Knight => "knight"@,
                OriginClass::Line => "line"@,
                OriginClass::Diag => "diag"@,
            }),
    {
        match self {
            OriginClass::Knight => "knight",
            OriginClass::Line => "line",
            OriginClass::Diag => "diag",
        }
    }

    /// The name shown in reports.
    pub fn label(self) -> (res: &'static str)
        ensures
            res@ == (match self {
                OriginClass::Knight => "桂"@,
                OriginClass::Line => "直線"@,
                OriginClass::Diag => "斜線"@,
            }),
    {
        match self {
            OriginClass::Knight => "桂",
            OriginClass::Line => "直線",
            OriginClass::Diag => "斜線",
        }
    }
}

/// A square from which the king can be checked.
#[derive(Clone, Copy, Debug, PartialEq, Eq, Structural)]
pub struct Origin {
    pub sq: Coord,
    pub class: OriginClass,
    /// The distance from the king; two for a knight's jump.
    pub dist: u8,
}

/// The number of distance buckets.
pub const DIST_BUCKETS: usize = 4;

/// The bucket of a distance: two, three, four, five and more.
pub open spec fn bucket_of(dist: int) -> int {
    if dist <= 2 {
        0
    } else if dist == 3 {
        1
    } else if dist == 4 {
        2
    } else {
        3
    }
}

/// The bucket of a distance.
pub fn dist_bucket(dist: u8) -> (res: usize)
    ensures
        res == bucket_of(dist as int),
        res < DIST_BUCKETS,
{
    match dist {
        0 | 1 | 2 => 0,
        3 => 1,
        4 => 2,
        _ => 3,
    }
}

/// The squares from which an enemy knight reaches the king.
pub open spec fn knight_origins(king: Coord, bot: Color) -> Seq<Origin> {
    step_deltas(Role::Knight).map_values(
        |d: Delta|
            Coord {
                file: (king.file - oriented(d, other_color(bot)).0) as i8,
                rank: (king.rank - oriented(d, other_color(bot)).1) as i8,
            },
    ).filter(|c: Coord| is_on_board(c)).map_values(
        |c: Coord| Origin { sq: c, class: OriginClass::Knight, dist: 2 },
    )
}

/// How many squares lie between a square and the edge in a direction.
pub open spec fn edge_reach(king: Coord, d: Delta) -> nat {
    ray_reach(Set::empty(), king, d, 0)
}

/// The squares two or more steps away in a direction, up to the edge.
pub open spec fn far_origins(king: Coord, d: Delta, class: OriginClass) -> Seq<Origin> {
    Seq::new(
        if edge_reach(king, d) < 2 {
            0
        } else {
            (edge_reach(king, d) - 1) as nat
        },
        |j: int| Origin { sq: along(king, d, j + 2), class, dist: (j + 2) as u8 },
    )
}

/// All squares from which the king can be checked from afar. They depend on the king's square
/// alone: own pieces take none of them away.
pub open spec fn origin_list(king: Coord, bot: Color) -> Seq<Origin> {
    knight_origins(king, bot) + ray_deltas(Role::Rook).flat_map(
        |d: Delta| far_origins(king, d, OriginClass::Line),
    ) + ray_deltas(Role::Bishop).flat_map(|d: Delta| far_origins(king, d, OriginClass::Diag))
}

fn push_far(king: Coord, d: Delta, class: OriginClass, out: &mut Vec<Origin>)
    requires
        is_on_board(king),
        is_direction(d),
    ensures
        final(out)@ == old(out)@ + far_origins(king, d, class),
{
    let ghost start = out@;
    let ghost reach = edge_reach(king, d);
    proof {
        lemma_ray_reach(Set::empty(), king, d, 0);
    }
    let mut dist: i8 = 2;
    let mut c = Coord { file: king.file + d.0 + d.0, rank: king.rank + d.1 + d.1 };
    assert(out@ =~= start + Seq::new(
        0,
        |j: int| Origin { sq: along(king, d, j + 2), class, dist: (j + 2) as u8 },
    ));
    while on_board(c)
        invariant
            is_on_board(king),
            is_direction(d),
            2 <= dist <= 9,
            c == along(king, d, dist as int),
            reach == edge_reach(king, d),
            dist <= reach + 1 || dist == 2,
            reach <= 8,
            forall|k: int| 0 < k <= reach ==> is_on_board(#[trigger] along(king, d, k)),
            !is_on_board(along(king, d, (reach + 1) as int)),
            out@ == start + Seq::new(
                (dist - 2) as nat,
                |j: int| Origin { sq: along(king, d, j + 2), class, dist: (j + 2) as u8 },
            ),
        decreases 9 - dist,
    {
        proof {
            if dist == 2 && reach == 0 {
                assert(!is_on_board(along(king, d, 1)));
                assert(is_on_board(along(king, d, 2)));
                assert(false);
            }
            assert(dist != reach + 1);
        }
        out.push(Origin { sq: c, class, dist: dist as u8 });
        assert(out@ =~= start + Seq::new(
            (dist - 1) as nat,
            |j: int| Origin { sq: along(king, d, j + 2), class, dist: (j + 2) as u8 },
        ));
        c = Coord { file: c.file + d.0, rank: c.rank + d.1 };
        dist += 1;
    }
    proof {
        if reach >= 2 && dist <= reach {
            assert(is_on_board(along(king, d, dist as int)));
        }
    }
    assert(out@ =~= start + far_origins(king, d, class));
}

/// The squares from which the king can be checked from afar, own pieces left aside.
pub fn origin_squares(king: Coord, bot: Color) -> (res: Vec<Origin>)
    requires
        is_on_board(king),
    ensures
        res@ == origin_list(king, bot),
{
    let mut out: Vec<Origin> = Vec::new();
    let jumps = steps(Role::Knight);
    let enemy = bot.other();
    let ghost back = |d: Delta|
        Coord {
            file: (king.file - oriented(d, other_color(bot)).0) as i8,
            rank: (king.rank - oriented(d, other_color(bot)).1) as i8,
        };
    let ghost good = |c: Coord| is_on_board(c);
    let ghost make = |c: Coord| Origin { sq: c, class: OriginClass::Knight, dist: 2 };
    let ghost all = step_deltas(Role::Knight).map_values(back);
    let mut i: usize = 0;
    assert(all.take(0).filter(good) =~= Seq::<Coord>::empty()) by {
        reveal(Seq::filter);
    }
    assert(out@ =~= all.take(0).filter(good).map_values(make));
    while i < jumps.len()
        invariant
            is_on_board(king),
            enemy == other_color(bot),
            jumps@ == step_deltas(Role::Knight),
            back == (|d: Delta|
                Coord {
                    file: (king.file - oriented(d, other_color(bot)).0) as i8,
                    rank: (king.rank - oriented(d, other_color(bot)).1) as i8,
                }),
            good == (|c: Coord| is_on_board(c)),
            make == (|c: Coord| Origin { sq: c, class: OriginClass::Knight, dist: 2 }),
            all == step_deltas(Role::Knight).map_values(back),
            i <= jumps@.len(),
            out@ == all.take(i as int).filter(good).map_values(make),
        decreases jumps@.len() - i,
    {
        let d = orient(jumps[i], enemy);
        let c = Coord { file: king.file - d.0, rank: king.rank - d.1 };
        proof {
            assert(all[i as int] == c);
            assert(all.take(i + 1) =~= all.take(i as int).push(c));
            all.take(i as int).lemma_filter_push(c, good);
        }
        if on_board(c) {
            out.push(Origin { sq: c, class: OriginClass::Knight, dist: 2 });
            assert(out@ =~= all.take(i + 1).filter(good).map_values(make));
        }
        i += 1;
    }
    assert(all.take(i as int) =~= all);
    let ghost first = out@;
    let straight = rays(Role::Rook);
    let ghost line = |d: Delta| far_origins(king, d, OriginClass::Line);
    proof {
        lemma_deltas(Role::Rook);
        lemma_deltas(Role::Bishop);
    }
    let mut k: usize = 0;
    assert(out@ =~= first + straight@.take(0).flat_map(line));
    while k < straight.len()
        invariant
            is_on_board(king),
            straight@ == ray_deltas(Role::Rook),
            line == (|d: Delta| far_origins(king, d, OriginClass::Line)),
            k <= straight@.len(),
            forall|n: int| 0 <= n < straight@.len() ==> is_direction(#[trigger] straight@[n]),
            out@ == first + straight@.take(k as int).flat_map(line),
        decreases straight@.len() - k,
    {
        proof {
            straight@.lemma_flat_map_take_append(line, k as int);
            assert(is_direction(straight@[k as int]));
        }
        push_far(king, straight[k], OriginClass::Line, &mut out);
        assert(out@ =~= first + straight@.take(k + 1).flat_map(line));
        k += 1;
    }
    assert(straight@.take(k as int) =~= straight@);
    let ghost second = out@;
    let slanted = rays(Role::Bishop);
    let ghost diag = |d: Delta| far_origins(king, d, OriginClass::Diag);
    let mut n: usize = 0;
    assert(out@ =~= second + slanted@.take(0).flat_map(diag));
    while n < slanted.len()
        invariant
            is_on_board(king),
            slanted@ == ray_deltas(Role::Bishop),
            diag == (|d: Delta| far_origins(king, d, OriginClass::Diag)),
            n <= slanted@.len(),
            forall|m: int| 0 <= m < slanted@.len() ==> is_direction(#[trigger] slanted@[m]),
            out@ == second + slanted@.take(n as int).flat_map(diag),
        decreases slanted@.len() - n,
    {
        proof {
            slanted@.lemma_flat_map_take_append(diag, n as int);
            assert(is_direction(slanted@[n as int]));
        }
        push_far(king, slanted[n], OriginClass::Diag, &mut out);
        assert(out@ =~= second + slanted@.take(n + 1).flat_map(diag));
        n += 1;
    }
    assert(slanted@.take(n as int) =~= slanted@);
    out
}

/// Whether one of a piece's steps leads to the square; nothing can stand in the way of a step.
pub open spec fn steps_cover(p: (Seq<char>, Role), color: Color, c: Coord) -> bool {
    p.1 != Role::King && is_on_board(c) && (square_of_text(p.0) matches Some(from) && step_hits(
        p.1,
        color,
        from,
        c,
    ))
}

/// Whether the `n`-th square of the role's `i`-th run is the target, with no own piece before it.
pub open spec fn run_covers(
    own: Set<Coord>,
    role: Role,
    color: Color,
    from: Coord,
    c: Coord,
    i: int,
    n: int,
) -> bool {
    let d = oriented(ray_deltas(role)[i], color);
    &&& 0 <= i < ray_deltas(role).len()
    &&& 1 <= n <= 8
    &&& along(from, d, n) == c
    &&& forall|k: int| 0 < k < n ==> is_open(own, #[trigger] along(from, d, k))
}

/// Whether one of a piece's runs leads to the square, as far as the own pieces go. The square may
/// itself be held by an own piece.
pub open spec fn runs_cover(own: Set<Coord>, p: (Seq<char>, Role), color: Color, c: Coord) -> bool {
    p.1 != Role::King && is_on_board(c) && (square_of_text(p.0) matches Some(from) && exists|
        i: int,
        n: int,
    |
        #[trigger] run_covers(own, p.1, color, from, c, i, n))
}

/// Whether a piece other than the king covers the square.
pub open spec fn piece_covers(
    own: Set<Coord>,
    p: (Seq<char>, Role),
    color: Color,
    c: Coord,
) -> bool {
    steps_cover(p, color, c) || runs_cover(own, p, color, c)
}

/// The squares that some piece covers by a step.
pub open spec fn sure_cover(pieces: Seq<(Seq<char>, Role)>, color: Color) -> Set<Coord> {
    Set::new(
        |c: Coord|
            exists|i: int| 0 <= i < pieces.len() && steps_cover(#[trigger] pieces[i], color, c),
    )
}

/// The squares that some piece covers by a run.
pub open spec fn ray_cover(pieces: Seq<(Seq<char>, Role)>, color: Color) -> Set<Coord> {
    Set::new(
        |c: Coord|
            exists|i: int|
                0 <= i < pieces.len() && runs_cover(
                    occupied_by(pieces),
                    #[trigger] pieces[i],
                    color,
                    c,
                ),
    )
}

/// How many pieces other than the king cover a square.
pub open spec fn cover_count(pieces: Seq<(Seq<char>, Role)>, color: Color, c: Coord) -> nat {
    pieces.filter(
        |p: (Seq<char>, Role)| piece_covers(occupied_by(pieces), p, color, c),
    ).len()
}

/// Whether some piece other than the king covers the square.
pub open spec fn is_covered(pieces: Seq<(Seq<char>, Role)>, color: Color, c: Coord) -> bool {
    sure_cover(pieces, color).contains(c) || ray_cover(pieces, color).contains(c)
}

/// What the own pieces other than the king cover: for certain by steps, and as far as is known by
/// runs.
#[derive(Clone, Copy, Debug)]
pub struct Coverage {
    pub sure: SquareSet,
    pub ray: SquareSet,
    /// The squares that own pieces stand on.
    pub occupied: SquareSet,
    /// How many pieces cover each square.
    pub count: [u32; 81],
}

/// Whether a coverage is that of the pieces.
pub open spec fn coverage_is(cov: Coverage, pieces: Seq<(Seq<char>, Role)>, color: Color) -> bool {
    &&& cov.sure@ == sure_cover(pieces, color)
    &&& cov.ray@ == ray_cover(pieces, color)
    &&& cov.occupied@ == occupied_by(pieces)
    &&& forall|i: int|
        0 <= i < 81 ==> #[trigger] cov.count@[i] == cover_count(pieces, color, square_at(i))
}

impl Coverage {
    /// Whether the square is covered at all.
    pub fn covered(&self, c: Coord) -> (res: bool)
        ensures
            res == (self.sure@.contains(c) || self.ray@.contains(c)),
    {
        self.sure.contains(c) || self.ray.contains(c)
    }

    /// Whether the square is covered for certain.
    pub fn covered_sure(&self, c: Coord) -> (res: bool)
        ensures
            res == self.sure@.contains(c),
    {
        self.sure.contains(c)
    }

    /// How many pieces cover the square.
    pub fn count_at(&self, c: Coord) -> (res: u32)
        ensures
            res == (if is_on_board(c) {
                self.count@[square_index(c)]
            } else {
                0
            }),
    {
        if on_board(c) {
            self.count[index_of(c)]
        } else {
            0
        }
    }
}

/// The squares that the steps of a piece lead to.
fn step_squares(role: Role, color: Color, from: Coord) -> (res: SquareSet)
    requires
        is_on_board(from),
    ensures
        forall|c: Coord|
            #[trigger] res@.contains(c) <==> is_on_board(c) && step_hits(role, color, from, c),
{
    let mut set = SquareSet::empty();
    let list = steps(role);
    proof {
        lemma_deltas(role);
    }
    let mut i: usize = 0;
    while i < list.len()
        invariant
            is_on_board(from),
            list@ == step_deltas(role),
            i <= list@.len(),
            forall|k: int|
                0 <= k < step_deltas(role).len() ==> -2 <= (#[trigger] step_deltas(role)[k]).0 <= 2
                    && -2 <= step_deltas(role)[k].1 <= 2,
            forall|c: Coord|
                #[trigger] set@.contains(c) <==> is_on_board(c) && exists|k: int|
                    0 <= k < i && #[trigger] shifted(
                        from,
                        oriented(step_deltas(role)[k], color),
                    ) == c,
        decreases list@.len() - i,
    {
        let ghost before = set@;
        let d = orient(list[i], color);
        let s = Coord { file: from.file + d.0, rank: from.rank + d.1 };
        set.insert(s);
        assert forall|c: Coord| #[trigger] set@.contains(c) <==> is_on_board(c) && exists|k: int|
            0 <= k < i + 1 && #[trigger] shifted(from, oriented(step_deltas(role)[k], color))
                == c by {
            if before.contains(c) {
                let k = choose|k: int|
                    0 <= k < i && #[trigger] shifted(from, oriented(step_deltas(role)[k], color))
                        == c;
                assert(shifted(from, oriented(step_deltas(role)[k], color)) == c);
            }
            assert(shifted(from, oriented(step_deltas(role)[i as int], color)) == s);
            if is_on_board(c) && exists|k: int|
                0 <= k < i + 1 && #[trigger] shifted(from, oriented(step_deltas(role)[k], color))
                    == c {
                let k = choose|k: int|
                    0 <= k < i + 1 && #[trigger] shifted(
                        from,
                        oriented(step_deltas(role)[k], color),
                    ) == c;
                if k < i {
                    assert(before.contains(c));
                }
            }
        }
        i += 1;
    }
    set
}

/// Adds the squares that a run covers: up to the edge or onto the first own piece.
fn add_run(own: &SquareSet, from: Coord, d: Delta, set: &mut SquareSet)
    requires
        is_on_board(from),
        is_direction(d),
    ensures
        forall|c: Coord|
            #[trigger] final(set)@.contains(c) <==> old(set)@.contains(c) || (is_on_board(c)
                && exists|n: int| 1 <= n <= 8 && #[trigger] along(from, d, n) == c && forall|k: int|
                0 < k < n ==> is_open(own@, #[trigger] along(from, d, k))),
{
    let ghost start = set@;
    let mut n: usize = 1;
    let mut c = Coord { file: from.file + d.0, rank: from.rank + d.1 };
    let mut stopped = false;
    while !stopped && on_board(c)
        invariant
            is_on_board(from),
            is_direction(d),
            1 <= n <= 9,
            c == along(from, d, n as int),
            !stopped ==> forall|k: int| 0 < k < n ==> is_open(own@, #[trigger] along(from, d, k)),
            stopped ==> n >= 2 && own@.contains(along(from, d, n - 1)) && forall|k: int|
                0 < k < n - 1 ==> is_open(own@, #[trigger] along(from, d, k)),
            forall|x: Coord|
                #[trigger] set@.contains(x) <==> start.contains(x) || exists|m: int|
                    1 <= m < n && #[trigger] along(from, d, m) == x && is_on_board(x),
        decreases (if stopped {
            0
        } else {
            10 - n
        }),
    {
        let ghost before = set@;
        let ghost at = n as int;
        set.insert(c);
        if own.contains(c) {
            stopped = true;
        }
        c = Coord { file: c.file + d.0, rank: c.rank + d.1 };
        n += 1;
        assert forall|x: Coord| #[trigger] set@.contains(x) <==> start.contains(x) || exists|m: int|
            1 <= m < n && #[trigger] along(from, d, m) == x && is_on_board(x) by {
            if before.contains(x) && !start.contains(x) {
                let m = choose|m: int|
                    1 <= m < at && #[trigger] along(from, d, m) == x && is_on_board(x);
                assert(along(from, d, m) == x);
            }
            assert(is_on_board(along(from, d, at)));
            if exists|m: int| 1 <= m < n && #[trigger] along(from, d, m) == x && is_on_board(x) {
                let m = choose|m: int|
                    1 <= m < n && #[trigger] along(from, d, m) == x && is_on_board(x);
                if m < at {
                    assert(before.contains(x));
                }
            }
        }
    }
    proof {
        assert forall|x: Coord| #[trigger] set@.contains(x) <==> start.contains(x) || (is_on_board(
            x,
        ) && exists|m: int| 1 <= m <= 8 && #[trigger] along(from, d, m) == x && forall|k: int|
            0 < k < m ==> is_open(own@, #[trigger] along(from, d, k))) by {
            if set@.contains(x) && !start.contains(x) {
                let m = choose|m: int|
                    1 <= m < n && #[trigger] along(from, d, m) == x && is_on_board(x);
                assert(along(from, d, m) == x);
                assert(m <= 8);
                assert forall|k: int| 0 < k < m implies is_open(own@, #[trigger] along(from, d, k)) by {
                    if stopped && k == n - 1 {
                        assert(false);
                    }
                }
            }
            if is_on_board(x) && exists|m: int|
                1 <= m <= 8 && #[trigger] along(from, d, m) == x && forall|k: int|
                    0 < k < m ==> is_open(own@, #[trigger] along(from, d, k)) {
                let m = choose|m: int|
                    1 <= m <= 8 && #[trigger] along(from, d, m) == x && forall|k: int|
                        0 < k < m ==> is_open(own@, #[trigger] along(from, d, k));
                if m >= n {
                    if stopped {
                        assert(is_open(own@, along(from, d, n - 1)));
                    } else if m > n {
                        assert(is_open(own@, along(from, d, n as int)));
                    }
                    assert(false);
                }
                assert(along(from, d, m) == x);
            }
        }
    }
}

/// The squares that the runs of a piece cover.
fn run_squares(own: &SquareSet, role: Role, color: Color, from: Coord) -> (res: SquareSet)
    requires
        is_on_board(from),
    ensures
        forall|c: Coord|
            #[trigger] res@.contains(c) <==> is_on_board(c) && exists|i: int, n: int|
                #[trigger] run_covers(own@, role, color, from, c, i, n),
{
    let mut set = SquareSet::empty();
    let list = rays(role);
    proof {
        lemma_deltas(role);
    }
    let mut i: usize = 0;
    while i < list.len()
        invariant
            is_on_board(from),
            list@ == ray_deltas(role),
            i <= list@.len(),
            forall|k: int|
                0 <= k < ray_deltas(role).len() ==> is_direction(#[trigger] ray_deltas(role)[k]),
            forall|c: Coord|
                #[trigger] set@.contains(c) <==> is_on_board(c) && exists|k: int, n: int|
                    k < i && #[trigger] run_covers(own@, role, color, from, c, k, n),
        decreases list@.len() - i,
    {
        let ghost before = set@;
        assert(is_direction(ray_deltas(role)[i as int]));
        let d = orient(list[i], color);
        add_run(own, from, d, &mut set);
        assert forall|c: Coord| #[trigger] set@.contains(c) <==> is_on_board(c) && exists|
            k: int,
            n: int,
        |
            k < i + 1 && #[trigger] run_covers(own@, role, color, from, c, k, n) by {
            if before.contains(c) {
                let (k, n) = choose|k: int, n: int|
                    k < i && #[trigger] run_covers(own@, role, color, from, c, k, n);
                assert(run_covers(own@, role, color, from, c, k, n));
            } else if set@.contains(c) {
                let n = choose|n: int|
                    1 <= n <= 8 && #[trigger] along(from, d, n) == c && forall|k: int|
                        0 < k < n ==> is_open(own@, #[trigger] along(from, d, k));
                assert(run_covers(own@, role, color, from, c, i as int, n));
            }
            if is_on_board(c) && exists|k: int, n: int|
                k < i + 1 && #[trigger] run_covers(own@, role, color, from, c, k, n) {
                let (k, n) = choose|k: int, n: int|
                    k < i + 1 && #[trigger] run_covers(own@, role, color, from, c, k, n);
                if k < i {
                    assert(before.contains(c));
                } else {
                    assert(along(from, d, n) == c);
                }
            }
        }
        i += 1;
    }
    assert forall|c: Coord| #[trigger] set@.contains(c) <==> is_on_board(c) && exists|
        i: int,
        n: int,
    |
        #[trigger] run_covers(own@, role, color, from, c, i, n) by {
        if is_on_board(c) && exists|i: int, n: int|
            #[trigger] run_covers(own@, role, color, from, c, i, n) {
            let (k, n) = choose|k: int, n: int|
                #[trigger] run_covers(own@, role, color, from, c, k, n);
            assert(k < i && run_covers(own@, role, color, from, c, k, n));
        }
    }
    set
}

/// The squares that one piece covers, by steps and by runs.
fn piece_squares(own: &SquareSet, piece: &VisiblePiece, color: Color) -> (res: (SquareSet, SquareSet))
    ensures
        forall|c: Coord| #[trigger] res.0@.contains(c) <==> steps_cover(piece@, color, c),
        forall|c: Coord| #[trigger] res.1@.contains(c) <==> runs_cover(own@, piece@, color, c),
{
    if piece.role == Role::King {
        return (SquareSet::empty(), SquareSet::empty());
    }
    match parse_usi_square(piece.square.as_str()) {
        None => (SquareSet::empty(), SquareSet::empty()),
        Some(from) => (
            step_squares(piece.role, color, from),
            run_squares(own, piece.role, color, from),
        ),
    }
}

/// Adds one square set to another.
fn unite(into: &mut SquareSet, from: &SquareSet)
    ensures
        final(into)@ == old(into)@.union(from@),
{
    let ghost start = into@;
    let mut i: usize = 0;
    while i < 81
        invariant
            i <= 81,
            forall|c: Coord|
                #[trigger] into@.contains(c) <==> start.contains(c) || (from@.contains(c)
                    && is_on_board(c) && square_index(c) < i),
        decreases 81 - i,
    {
        let ghost before = into@;
        let s = coord_at(i);
        if from.contains(s) {
            into.insert(s);
        }
        assert forall|c: Coord| #[trigger] into@.contains(c) <==> start.contains(c) || (
        from@.contains(c) && is_on_board(c) && square_index(c) < i + 1) by {
            lemma_square_index(c, 0);
            assert(before.contains(c) <==> start.contains(c) || (from@.contains(c) && is_on_board(c)
                && square_index(c) < i));
        }
        i += 1;
    }
    assert forall|c: Coord| #[trigger] into@.contains(c) <==> start.union(from@).contains(c) by {
        lemma_square_index(c, 0);
        from.lemma_on_board(c);
    }
    assert(into@ =~= start.union(from@));
}

/// What the own pieces other than the king cover.
pub fn coverage_of(pieces: &[VisiblePiece], color: Color) -> (res: Coverage)
    requires
        pieces@.len() <= u32::MAX,
    ensures
        coverage_is(res, visible_list(pieces@), color),
{
    let occupied = occupied_set(pieces);
    let ghost all = visible_list(pieces@);
    let ghost own = occupied_by(all);
    let mut sure = SquareSet::empty();
    let mut ray = SquareSet::empty();
    let mut count: [u32; 81] = [0; 81];
    let mut n: usize = 0;
    assert forall|k: int| 0 <= k < 81 implies #[trigger] count@[k] == all.take(0).filter(
        |p: (Seq<char>, Role)| piece_covers(own, p, color, square_at(k)),
    ).len() by {
        let covers = |p: (Seq<char>, Role)| piece_covers(own, p, color, square_at(k));
        all.take(0).lemma_filter_len(covers);
    }
    while n < pieces.len()
        invariant
            n <= pieces@.len() <= u32::MAX,
            all == visible_list(pieces@),
            own == occupied_by(all),
            occupied@ == own,
            forall|c: Coord|
                #[trigger] sure@.contains(c) <==> exists|i: int|
                    0 <= i < n && steps_cover(#[trigger] all[i], color, c),
            forall|c: Coord|
                #[trigger] ray@.contains(c) <==> exists|i: int|
                    0 <= i < n && runs_cover(own, #[trigger] all[i], color, c),
            forall|k: int|
                0 <= k < 81 ==> #[trigger] count@[k] == all.take(n as int).filter(
                    |p: (Seq<char>, Role)| piece_covers(own, p, color, square_at(k)),
                ).len(),
        decreases pieces@.len() - n,
    {
        let ghost sure_before = sure@;
        let ghost ray_before = ray@;
        let ghost count_before = count@;
        let ghost p = all[n as int];
        let (by_step, by_run) = piece_squares(&occupied, &pieces[n], color);
        assert(pieces@[n as int]@ == p);
        unite(&mut sure, &by_step);
        unite(&mut ray, &by_run);
        assert forall|c: Coord| #[trigger] sure@.contains(c) <==> exists|i: int|
            0 <= i < n + 1 && steps_cover(#[trigger] all[i], color, c) by {
            if sure_before.contains(c) {
                let i = choose|i: int| 0 <= i < n && steps_cover(#[trigger] all[i], color, c);
                assert(steps_cover(all[i], color, c));
            }
            if by_step@.contains(c) {
                assert(steps_cover(all[n as int], color, c));
            }
            if exists|i: int| 0 <= i < n + 1 && steps_cover(#[trigger] all[i], color, c) {
                let i = choose|i: int| 0 <= i < n + 1 && steps_cover(#[trigger] all[i], color, c);
                if i < n {
                    assert(sure_before.contains(c));
                } else {
                    assert(by_step@.contains(c));
                }
            }
        }
        assert forall|c: Coord| #[trigger] ray@.contains(c) <==> exists|i: int|
            0 <= i < n + 1 && runs_cover(own, #[trigger] all[i], color, c) by {
            if ray_before.contains(c) {
                let i = choose|i: int| 0 <= i < n && runs_cover(own, #[trigger] all[i], color, c);
                assert(runs_cover(own, all[i], color, c));
            }
            if by_run@.contains(c) {
                assert(runs_cover(own, all[n as int], color, c));
            }
            if exists|i: int| 0 <= i < n + 1 && runs_cover(own, #[trigger] all[i], color, c) {
                let i = choose|i: int|
                    0 <= i < n + 1 && runs_cover(own, #[trigger] all[i], color, c);
                if i < n {
                    assert(ray_before.contains(c));
                } else {
                    assert(by_run@.contains(c));
                }
            }
        }
        let mut i: usize = 0;
        while i < 81
            invariant
                i <= 81,
                n < u32::MAX,
                n < all.len(),
                p == all[n as int],
                forall|c: Coord| #[trigger] by_step@.contains(c) <==> steps_cover(p, color, c),
                forall|c: Coord| #[trigger] by_run@.contains(c) <==> runs_cover(own, p, color, c),
                forall|k: int|
                    0 <= k < 81 ==> #[trigger] count_before[k] == all.take(n as int).filter(
                        |p: (Seq<char>, Role)| piece_covers(own, p, color, square_at(k)),
                    ).len(),
                forall|k: int| i <= k < 81 ==> #[trigger] count@[k] == count_before[k],
                forall|k: int|
                    0 <= k < i ==> #[trigger] count@[k] == all.take(n + 1).filter(
                        |p: (Seq<char>, Role)| piece_covers(own, p, color, square_at(k)),
                    ).len(),
            decreases 81 - i,
        {
            let c = coord_at(i);
            proof {
                let covers = |p: (Seq<char>, Role)| piece_covers(own, p, color, square_at(i as int));
                assert(all.take(n + 1) =~= all.take(n as int).push(p));
                all.take(n as int).lemma_filter_push(p, covers);
                all.take(n as int).lemma_filter_len(covers);
                assert(count_before[i as int] == all.take(n as int).filter(covers).len());
            }
            if by_step.contains(c) || by_run.contains(c) {
                let before: u32 = count[i];
                count[i] = before + 1;
            }
            i += 1;
        }
        n += 1;
    }
    let res = Coverage { sure, ray, occupied, count };
    proof {
        assert(all.take(n as int) =~= all);
        assert(sure@ =~= sure_cover(all, color));
        assert(ray@ =~= ray_cover(all, color));
        assert forall|k: int| 0 <= k < 81 implies #[trigger] res.count@[k] == cover_count(
            all,
            color,
            square_at(k),
        ) by {
            assert(count@[k] == all.take(n as int).filter(
                |p: (Seq<char>, Role)| piece_covers(own, p, color, square_at(k)),
            ).len());
        }
    }
    res
}

/// A square is covered exactly if some piece covers it.
pub proof fn law_covered_iff_counted(pieces: Seq<(Seq<char>, Role)>, color: Color, c: Coord)
    ensures
        is_covered(pieces, color, c) <==> cover_count(pieces, color, c) > 0,
{
    let own = occupied_by(pieces);
    let covers = |p: (Seq<char>, Role)| piece_covers(own, p, color, c);
    let kept = pieces.filter(covers);
    if is_covered(pieces, color, c) {
        let i = if sure_cover(pieces, color).contains(c) {
            choose|i: int| 0 <= i < pieces.len() && steps_cover(#[trigger] pieces[i], color, c)
        } else {
            choose|i: int| 0 <= i < pieces.len() && runs_cover(own, #[trigger] pieces[i], color, c)
        };
        pieces.lemma_filter_contains(covers, i);
        assert(kept.len() > 0);
    }
    if kept.len() > 0 {
        pieces.lemma_filter_pred(covers, 0);
        lemma_filter_contains_iff(pieces, covers, kept[0]);
        assert(kept.contains(kept[0]));
        let i = choose|i: int| 0 <= i < pieces.len() && pieces[i] == kept[0];
        if steps_cover(pieces[i], color, c) {
            assert(sure_cover(pieces, color).contains(c));
        } else {
            assert(ray_cover(pieces, color).contains(c));
        }
    }
}

/// Whether the origins from which the king can be checked are covered.
#[derive(Clone, Copy, Debug, PartialEq, Eq)]
pub struct F1 {
    /// By class: the origins, those covered, and those covered for certain.
    pub by_class: [(u32, u32, u32); 3],
    /// By distance bucket: the origins and those covered.
    pub by_dist: [(u32, u32); 4],
}

impl F1 {
    pub open spec fn spec_total(self) -> int {
        self.by_class@[0].0 + self.by_class@[1].0 + self.by_class@[2].0
    }

    pub open spec fn spec_covered(self) -> int {
        self.by_class@[0].1 + self.by_class@[1].1 + self.by_class@[2].1
    }

    pub open spec fn spec_covered_sure(self) -> int {
        self.by_class@[0].2 + self.by_class@[1].2 + self.by_class@[2].2
    }

    /// The number of origins.
    pub fn total(&self) -> (res: u32)
        requires
            self.spec_total() <= u32::MAX,
        ensures
            res == self.spec_total(),
    {
        self.by_class[0].0 + self.by_class[1].0 + self.by_class[2].0
    }

    /// The number of covered origins.
    pub fn covered(&self) -> (res: u32)
        requires
            self.spec_covered() <= u32::MAX,
        ensures
            res == self.spec_covered(),
    {
        self.by_class[0].1 + self.by_class[1].1 + self.by_class[2].1
    }

    /// The number of origins covered for certain.
    pub fn covered_sure(&self) -> (res: u32)
        requires
            self.spec_covered_sure() <= u32::MAX,
        ensures
            res == self.spec_covered_sure(),
    {
        self.by_class[0].2 + self.by_class[1].2 + self.by_class[2].2
    }
}

/// How exposed the king is, and where it could go.
#[derive(Clone, Copy, Debug, PartialEq, Eq)]
pub struct F2 {
    /// The directions in which no own piece stands between the king and the edge.
    pub open_dirs: u32,
    /// The squares up to the first own piece or the edge, over all directions.
    pub open_len: u32,
    /// The adjacent squares without an own piece.
    pub flight_all: u32,
    /// Those of them behind which the board ends or an own piece stands.
    pub flight_shielded: u32,
    /// Whether the king stands where it started.
    pub king_home: bool,
    /// The least distance from a known enemy piece to an origin.
    pub known_enemy_to_origin: Option<u32>,
}

/// The state of the squares around the king.
#[derive(Clone, Copy, Debug, PartialEq, Eq)]
pub struct F3 {
    pub open_uncovered: u32,
    pub open_covered: u32,
    pub own_occupied: u32,
    /// The adjacent squares on the board.
    pub adj_total: u32,
    /// Those of them that a piece other than the king covers, held by an own piece or not.
    pub adj_covered: u32,
}

impl F3 {
    /// The adjacent squares over all three states.
    pub fn on_board_total(&self) -> (res: u32)
        requires
            self.open_uncovered + self.open_covered + self.own_occupied <= u32::MAX,
        ensures
            res == self.open_uncovered + self.open_covered + self.own_occupied,
    {
        self.open_uncovered + self.open_covered + self.own_occupied
    }
}

/// The shape of a side before a check.
#[derive(Clone, Copy, Debug, PartialEq, Eq)]
pub struct PrepFeatures {
    pub king: Option<Coord>,
    pub f1: F1,
    pub f2: F2,
    pub f3: F3,
}

/// The class at a place in the count.
pub open spec fn class_at(i: int) -> OriginClass {
    if i == 0 {
        OriginClass::Knight
    } else if i == 1 {
        OriginClass::Line
    } else {
        OriginClass::Diag
    }
}

/// Whether the counts of the origins are right.
pub open spec fn f1_is(
    f1: F1,
    origins: Seq<Origin>,
    pieces: Seq<(Seq<char>, Role)>,
    color: Color,
) -> bool {
    &&& forall|i: int|
        0 <= i < 3 ==> {
            let t = #[trigger] f1.by_class@[i];
            &&& t.0 == origins.filter(|o: Origin| o.class == class_at(i)).len()
            &&& t.1 == origins.filter(
                |o: Origin| o.class == class_at(i) && is_covered(pieces, color, o.sq),
            ).len()
            &&& t.2 == origins.filter(
                |o: Origin| o.class == class_at(i) && sure_cover(pieces, color).contains(o.sq),
            ).len()
        }
    &&& forall|i: int|
        0 <= i < 4 ==> {
            let t = #[trigger] f1.by_dist@[i];
            &&& t.0 == origins.filter(|o: Origin| bucket_of(o.dist as int) == i).len()
            &&& t.1 == origins.filter(
                |o: Origin| bucket_of(o.dist as int) == i && is_covered(pieces, color, o.sq),
            ).len()
        }
}

/// The eight directions around the king, in the order in which they are gone through.
pub open spec fn king_dirs() -> Seq<Delta> {
    ray_deltas(Role::Rook) + ray_deltas(Role::Bishop)
}

/// Whether a direction is open up to the edge.
pub open spec fn open_to_edge(own: Set<Coord>, king: Coord, d: Delta) -> bool {
    !is_on_board(along(king, d, (ray_reach(own, king, d, 0) + 1) as int))
}

/// The open squares over several directions.
pub open spec fn open_squares(own: Set<Coord>, king: Coord, dirs: Seq<Delta>) -> nat
    decreases dirs.len(),
{
    if dirs.len() == 0 {
        0
    } else {
        open_squares(own, king, dirs.drop_last()) + ray_reach(own, king, dirs.last(), 0)
    }
}

/// Whether the square next to the king in a direction has no own piece on it.
pub open spec fn can_flee(own: Set<Coord>, king: Coord, d: Delta) -> bool {
    is_open(own, shifted(king, d))
}

/// Whether the square beyond the one next to the king is off the board or held by an own piece.
pub open spec fn backed(own: Set<Coord>, king: Coord, d: Delta) -> bool {
    !is_open(own, along(king, d, 2))
}

/// The square where a king starts.
pub open spec fn home_of(color: Color) -> Coord {
    match color {
        Color::Sente => Coord { file: 5, rank: 9 },
        Color::Gote => Coord { file: 5, rank: 1 },
    }
}

/// Whether the least distance from a known enemy piece to an origin is right.
pub open spec fn nearest_is(res: Option<u32>, origins: Seq<Origin>, known: Seq<Coord>) -> bool {
    match res {
        None => origins.len() == 0 || known.len() == 0,
        Some(m) => {
            &&& exists|i: int, j: int|
                0 <= i < origins.len() && 0 <= j < known.len() && #[trigger] span(
                    origins[i].sq,
                    known[j],
                ) == m
            &&& forall|i: int, j: int|
                0 <= i < origins.len() && 0 <= j < known.len() ==> #[trigger] span(
                    origins[i].sq,
                    known[j],
                ) >= m
        },
    }
}

/// Whether the exposure of the king is right.
pub open spec fn f2_is(
    f2: F2,
    king: Coord,
    own: Set<Coord>,
    color: Color,
    known: Seq<Coord>,
) -> bool {
    &&& f2.open_dirs == king_dirs().filter(|d: Delta| open_to_edge(own, king, d)).len()
    &&& f2.open_len == open_squares(own, king, king_dirs())
    &&& f2.flight_all == king_dirs().filter(|d: Delta| can_flee(own, king, d)).len()
    &&& f2.flight_shielded == king_dirs().filter(
        |d: Delta| can_flee(own, king, d) && backed(own, king, d),
    ).len()
    &&& f2.king_home == (king == home_of(color))
    &&& nearest_is(f2.known_enemy_to_origin, origin_list(king, color), known)
}

/// Whether the state of the squares around the king is right.
pub open spec fn f3_is(
    f3: F3,
    king: Coord,
    pieces: Seq<(Seq<char>, Role)>,
    color: Color,
) -> bool {
    let own = occupied_by(pieces);
    &&& f3.open_uncovered == king_dirs().filter(
        |d: Delta| can_flee(own, king, d) && !is_covered(pieces, color, shifted(king, d)),
    ).len()
    &&& f3.open_covered == king_dirs().filter(
        |d: Delta| can_flee(own, king, d) && is_covered(pieces, color, shifted(king, d)),
    ).len()
    &&& f3.own_occupied == king_dirs().filter(
        |d: Delta| is_on_board(shifted(king, d)) && own.contains(shifted(king, d)),
    ).len()
    &&& f3.adj_total == king_dirs().filter(|d: Delta| is_on_board(shifted(king, d))).len()
    &&& f3.adj_covered == king_dirs().filter(
        |d: Delta| is_on_board(shifted(king, d)) && is_covered(pieces, color, shifted(king, d)),
    ).len()
}

/// Whether the features describe the pieces. Without a king in sight all counts are zero.
pub open spec fn features_are(
    f: PrepFeatures,
    pieces: Seq<(Seq<char>, Role)>,
    color: Color,
    known: Seq<Coord>,
) -> bool {
    &&& f.king == shown_king(pieces)
    &&& match shown_king(pieces) {
        Some(king) => {
            &&& f1_is(f.f1, origin_list(king, color), pieces, color)
            &&& f2_is(f.f2, king, occupied_by(pieces), color, known)
            &&& f3_is(f.f3, king, pieces, color)
        },
        None => no_features(f),
    }
}

/// Whether all counts are zero.
pub open spec fn no_features(f: PrepFeatures) -> bool {
    &&& forall|i: int| 0 <= i < 3 ==> #[trigger] f.f1.by_class@[i] == (0u32, 0u32, 0u32)
    &&& forall|i: int| 0 <= i < 4 ==> #[trigger] f.f1.by_dist@[i] == (0u32, 0u32)
    &&& f.f2 == (F2 {
        open_dirs: 0,
        open_len: 0,
        flight_all: 0,
        flight_shielded: 0,
        king_home: false,
        known_enemy_to_origin: None,
    })
    &&& f.f3 == (F3 {
        open_uncovered: 0,
        open_covered: 0,
        own_occupied: 0,
        adj_total: 0,
        adj_covered: 0,
    })
}

impl Default for PrepFeatures {
    fn default() -> (res: PrepFeatures)
        ensures
            no_features(res),
            res.king is None,
    {
        PrepFeatures {
            king: None,
            f1: F1 { by_class: [(0, 0, 0); 3], by_dist: [(0, 0); 4] },
            f2: F2 {
                open_dirs: 0,
                open_len: 0,
                flight_all: 0,
                flight_shielded: 0,
                king_home: false,
                known_enemy_to_origin: None,
            },
            f3: F3 {
                open_uncovered: 0,
                open_covered: 0,
                own_occupied: 0,
                adj_total: 0,
                adj_covered: 0,
            },
        }
    }
}

fn count_class(origins: &Vec<Origin>, cov: &Coverage, class: OriginClass) -> (res: (u32, u32, u32))
    requires
        origins@.len() <= u32::MAX,
    ensures
        res.0 == origins@.filter(|o: Origin| o.class == class).len(),
        res.1 == origins@.filter(
            |o: Origin| o.class == class && (cov.sure@.contains(o.sq) || cov.ray@.contains(o.sq)),
        ).len(),
        res.2 == origins@.filter(|o: Origin| o.class == class && cov.sure@.contains(o.sq)).len(),
{
    let ghost all = origins@;
    let ghost p0 = |o: Origin| o.class == class;
    let ghost p1 = |o: Origin|
        o.class == class && (cov.sure@.contains(o.sq) || cov.ray@.contains(o.sq));
    let ghost p2 = |o: Origin| o.class == class && cov.sure@.contains(o.sq);
    let mut n0: u32 = 0;
    let mut n1: u32 = 0;
    let mut n2: u32 = 0;
    let mut i: usize = 0;
    proof {
        all.take(0).lemma_filter_len(p0);
        all.take(0).lemma_filter_len(p1);
        all.take(0).lemma_filter_len(p2);
    }
    while i < origins.len()
        invariant
            i <= all.len() <= u32::MAX,
            all == origins@,
            p0 == (|o: Origin| o.class == class),
            p1 == (|o: Origin|
                o.class == class && (cov.sure@.contains(o.sq) || cov.ray@.contains(o.sq))),
            p2 == (|o: Origin| o.class == class && cov.sure@.contains(o.sq)),
            n0 == all.take(i as int).filter(p0).len(),
            n1 == all.take(i as int).filter(p1).len(),
            n2 == all.take(i as int).filter(p2).len(),
            n0 <= i,
            n1 <= i,
            n2 <= i,
        decreases all.len() - i,
    {
        let o = origins[i];
        proof {
            assert(all.take(i + 1) =~= all.take(i as int).push(o));
            all.take(i as int).lemma_filter_push(o, p0);
            all.take(i as int).lemma_filter_push(o, p1);
            all.take(i as int).lemma_filter_push(o, p2);
        }
        if o.class == class {
            n0 += 1;
            if cov.covered(o.sq) {
                n1 += 1;
            }
            if cov.covered_sure(o.sq) {
                n2 += 1;
            }
        }
        i += 1;
    }
    assert(all.take(i as int) =~= all);
    (n0, n1, n2)
}

fn count_bucket(origins: &Vec<Origin>, cov: &Coverage, bucket: usize) -> (res: (u32, u32))
    requires
        origins@.len() <= u32::MAX,
    ensures
        res.0 == origins@.filter(|o: Origin| bucket_of(o.dist as int) == bucket).len(),
        res.1 == origins@.filter(
            |o: Origin|
                bucket_of(o.dist as int) == bucket && (cov.sure@.contains(o.sq)
                    || cov.ray@.contains(o.sq)),
        ).len(),
{
    let ghost all = origins@;
    let ghost p0 = |o: Origin| bucket_of(o.dist as int) == bucket;
    let ghost p1 = |o: Origin|
        bucket_of(o.dist as int) == bucket && (cov.sure@.contains(o.sq) || cov.ray@.contains(o.sq));
    let mut n0: u32 = 0;
    let mut n1: u32 = 0;
    let mut i: usize = 0;
    proof {
        all.take(0).lemma_filter_len(p0);
        all.take(0).lemma_filter_len(p1);
    }
    while i < origins.len()
        invariant
            i <= all.len() <= u32::MAX,
            all == origins@,
            p0 == (|o: Origin| bucket_of(o.dist as int) == bucket),
            p1 == (|o: Origin|
                bucket_of(o.dist as int) == bucket && (cov.sure@.contains(o.sq)
                    || cov.ray@.contains(o.sq))),
            n0 == all.take(i as int).filter(p0).len(),
            n1 == all.take(i as int).filter(p1).len(),
            n0 <= i,
            n1 <= i,
        decreases all.len() - i,
    {
        let o = origins[i];
        proof {
            assert(all.take(i + 1) =~= all.take(i as int).push(o));
            all.take(i as int).lemma_filter_push(o, p0);
            all.take(i as int).lemma_filter_push(o, p1);
        }
        if dist_bucket(o.dist) == bucket {
            n0 += 1;
            if cov.covered(o.sq) {
                n1 += 1;
            }
        }
        i += 1;
    }
    assert(all.take(i as int) =~= all);
    (n0, n1)
}

/// There are few origins.
proof fn lemma_origin_count(king: Coord, bot: Color)
    requires
        is_on_board(king),
    ensures
        origin_list(king, bot).len() <= 58,
{
    let back = |d: Delta|
        Coord {
            file: (king.file - oriented(d, other_color(bot)).0) as i8,
            rank: (king.rank - oriented(d, other_color(bot)).1) as i8,
        };
    let good = |c: Coord| is_on_board(c);
    step_deltas(Role::Knight).map_values(back).lemma_filter_len(good);
    let line = |d: Delta| far_origins(king, d, OriginClass::Line);
    let diag = |d: Delta| far_origins(king, d, OriginClass::Diag);
    lemma_deltas(Role::Rook);
    lemma_deltas(Role::Bishop);
    assert forall|i: int| 0 <= i < ray_deltas(Role::Rook).len() implies (#[trigger] line(
        ray_deltas(Role::Rook)[i],
    )).len() <= 7 by {
        lemma_ray_reach(Set::empty(), king, ray_deltas(Role::Rook)[i], 0);
    }
    assert forall|i: int| 0 <= i < ray_deltas(Role::Bishop).len() implies (#[trigger] diag(
        ray_deltas(Role::Bishop)[i],
    )).len() <= 7 by {
        lemma_ray_reach(Set::empty(), king, ray_deltas(Role::Bishop)[i], 0);
    }
    lemma_flat_map_len(ray_deltas(Role::Rook), line, 7);
    lemma_flat_map_len(ray_deltas(Role::Bishop), diag, 7);
}

/// The king-move distance of two squares.
pub fn cheb(a: Coord, b: Coord) -> (res: u32)
    ensures
        res == span(a, b),
{
    let df: i32 = b.file as i32 - a.file as i32;
    let dr: i32 = b.rank as i32 - a.rank as i32;
    let af: i32 = if df < 0 {
        -df
    } else {
        df
    };
    let ar: i32 = if dr < 0 {
        -dr
    } else {
        dr
    };
    if af >= ar {
        af as u32
    } else {
        ar as u32
    }
}

/// The least distance from a known enemy piece to an origin.
fn nearest(origins: &Vec<Origin>, known: &[Coord]) -> (res: Option<u32>)
    ensures
        nearest_is(res, origins@, known@),
{
    if known.len() == 0 {
        return None;
    }
    let mut best: Option<u32> = None;
    let mut i: usize = 0;
    while i < origins.len()
        invariant
            i <= origins@.len(),
            known@.len() > 0,
            i == 0 ==> best is None,
            i > 0 ==> best is Some,
            best matches Some(m) ==> exists|a: int, b: int|
                0 <= a < origins@.len() && 0 <= b < known@.len() && #[trigger] span(
                    origins@[a].sq,
                    known@[b],
                ) == m,
            best matches Some(m) ==> forall|a: int, b: int|
                0 <= a < i && 0 <= b < known@.len() ==> #[trigger] span(origins@[a].sq, known@[b])
                    >= m,
        decreases origins@.len() - i,
    {
        let mut j: usize = 0;
        while j < known.len()
            invariant
                i < origins@.len(),
                j <= known@.len(),
                known@.len() > 0,
                i > 0 || j > 0 ==> best is Some,
                i == 0 && j == 0 ==> best is None,
                best matches Some(m) ==> exists|a: int, b: int|
                    0 <= a < origins@.len() && 0 <= b < known@.len() && #[trigger] span(
                        origins@[a].sq,
                        known@[b],
                    ) == m,
                best matches Some(m) ==> forall|a: int, b: int|
                    0 <= a < i && 0 <= b < known@.len() ==> #[trigger] span(
                        origins@[a].sq,
                        known@[b],
                    ) >= m,
                best matches Some(m) ==> forall|b: int|
                    0 <= b < j ==> #[trigger] span(origins@[i as int].sq, known@[b]) >= m,
            decreases known@.len() - j,
        {
            let here: u32 = cheb(origins[i].sq, known[j]);
            assert(span(origins@[i as int].sq, known@[j as int]) == here);
            best = match best {
                Some(m) => if here < m {
                    Some(here)
                } else {
                    Some(m)
                },
                None => Some(here),
            };
            j += 1;
        }
        i += 1;
    }
    best
}

/// How far an open run goes, and whether it reaches the edge.
fn open_run(own: &SquareSet, king: Coord, d: Delta) -> (res: (u32, bool))
    requires
        is_on_board(king),
        is_direction(d),
    ensures
        res.0 == ray_reach(own@, king, d, 0),
        res.0 <= 8,
        res.1 == open_to_edge(own@, king, d),
{
    let mut n: u32 = 0;
    let mut c = Coord { file: king.file + d.0, rank: king.rank + d.1 };
    while on_board(c) && !own.contains(c)
        invariant
            is_on_board(king),
            is_direction(d),
            n <= 8,
            c == along(king, d, n + 1),
            ray_reach(own@, king, d, 0) == ray_reach(own@, king, d, n as nat),
        decreases 8 - n,
    {
        c = Coord { file: c.file + d.0, rank: c.rank + d.1 };
        n += 1;
    }
    (n, !on_board(c))
}

/// Counts the directions around the king.
fn surroundings(king: Coord, cov: &Coverage, color: Color) -> (res: (F2, F3))
    requires
        is_on_board(king),
    ensures
        res.0.open_dirs == king_dirs().filter(
            |d: Delta| open_to_edge(cov.occupied@, king, d),
        ).len(),
        res.0.open_len == open_squares(cov.occupied@, king, king_dirs()),
        res.0.flight_all == king_dirs().filter(|d: Delta| can_flee(cov.occupied@, king, d)).len(),
        res.0.flight_shielded == king_dirs().filter(
            |d: Delta| can_flee(cov.occupied@, king, d) && backed(cov.occupied@, king, d),
        ).len(),
        res.0.king_home == (king == home_of(color)),
        res.1.open_uncovered == king_dirs().filter(
            |d: Delta|
                can_flee(cov.occupied@, king, d) && !(cov.sure@.contains(shifted(king, d))
                    || cov.ray@.contains(shifted(king, d))),
        ).len(),
        res.1.open_covered == king_dirs().filter(
            |d: Delta|
                can_flee(cov.occupied@, king, d) && (cov.sure@.contains(shifted(king, d))
                    || cov.ray@.contains(shifted(king, d))),
        ).len(),
        res.1.own_occupied == king_dirs().filter(
            |d: Delta| is_on_board(shifted(king, d)) && cov.occupied@.contains(shifted(king, d)),
        ).len(),
        res.1.adj_total == king_dirs().filter(|d: Delta| is_on_board(shifted(king, d))).len(),
        res.1.adj_covered == king_dirs().filter(
            |d: Delta|
                is_on_board(shifted(king, d)) && (cov.sure@.contains(shifted(king, d))
                    || cov.ray@.contains(shifted(king, d))),
        ).len(),
{
    let mut dirs = rays(Role::Rook);
    let mut slanted = rays(Role::Bishop);
    dirs.append(&mut slanted);
    let ghost all = king_dirs();
    assert(dirs@ =~= all);
    proof {
        lemma_deltas(Role::Rook);
        lemma_deltas(Role::Bishop);
    }
    assert forall|k: int| 0 <= k < all.len() implies is_direction(#[trigger] all[k]) by {
        if k < 4 {
            assert(all[k] == ray_deltas(Role::Rook)[k]);
        } else {
            assert(all[k] == ray_deltas(Role::Bishop)[k - 4]);
        }
    }
    let ghost own = cov.occupied@;
    let ghost q0 = |d: Delta| open_to_edge(cov.occupied@, king, d);
    let ghost q1 = |d: Delta| can_flee(cov.occupied@, king, d);
    let ghost q2 = |d: Delta| can_flee(cov.occupied@, king, d) && backed(cov.occupied@, king, d);
    let ghost q3 = |d: Delta|
        can_flee(cov.occupied@, king, d) && !(cov.sure@.contains(shifted(king, d))
            || cov.ray@.contains(shifted(king, d)));
    let ghost q4 = |d: Delta|
        can_flee(cov.occupied@, king, d) && (cov.sure@.contains(shifted(king, d))
            || cov.ray@.contains(shifted(king, d)));
    let ghost q5 = |d: Delta|
        is_on_board(shifted(king, d)) && cov.occupied@.contains(shifted(king, d));
    let ghost q6 = |d: Delta| is_on_board(shifted(king, d));
    let ghost q7 = |d: Delta|
        is_on_board(shifted(king, d)) && (cov.sure@.contains(shifted(king, d)) || cov.ray@.contains(
            shifted(king, d),
        ));
    let mut open_dirs: u32 = 0;
    let mut open_len: u32 = 0;
    let mut flight_all: u32 = 0;
    let mut flight_shielded: u32 = 0;
    let mut open_uncovered: u32 = 0;
    let mut open_covered: u32 = 0;
    let mut own_occupied: u32 = 0;
    let mut adj_total: u32 = 0;
    let mut adj_covered: u32 = 0;
    let mut k: usize = 0;
    proof {
        all.take(0).lemma_filter_len(q0);
        all.take(0).lemma_filter_len(q1);
        all.take(0).lemma_filter_len(q2);
        all.take(0).lemma_filter_len(q3);
        all.take(0).lemma_filter_len(q4);
        all.take(0).lemma_filter_len(q5);
        all.take(0).lemma_filter_len(q6);
        all.take(0).lemma_filter_len(q7);
    }
    while k < dirs.len()
        invariant
            is_on_board(king),
            dirs@ == all,
            all == king_dirs(),
            all.len() == 8,
            own == cov.occupied@,
            forall|m: int| 0 <= m < all.len() ==> is_direction(#[trigger] all[m]),
            k <= 8,
            q0 == (|d: Delta| open_to_edge(cov.occupied@, king, d)),
            q1 == (|d: Delta| can_flee(cov.occupied@, king, d)),
            q2 == (|d: Delta|
                can_flee(cov.occupied@, king, d) && backed(cov.occupied@, king, d)),
            q3 == (|d: Delta|
                can_flee(cov.occupied@, king, d) && !(cov.sure@.contains(shifted(king, d))
                    || cov.ray@.contains(shifted(king, d)))),
            q4 == (|d: Delta|
                can_flee(cov.occupied@, king, d) && (cov.sure@.contains(shifted(king, d))
                    || cov.ray@.contains(shifted(king, d)))),
            q5 == (|d: Delta|
                is_on_board(shifted(king, d)) && cov.occupied@.contains(shifted(king, d))),
            q6 == (|d: Delta| is_on_board(shifted(king, d))),
            q7 == (|d: Delta|
                is_on_board(shifted(king, d)) && (cov.sure@.contains(shifted(king, d))
                    || cov.ray@.contains(shifted(king, d)))),
            open_dirs == all.take(k as int).filter(q0).len(),
            flight_all == all.take(k as int).filter(q1).len(),
            flight_shielded == all.take(k as int).filter(q2).len(),
            open_uncovered == all.take(k as int).filter(q3).len(),
            open_covered == all.take(k as int).filter(q4).len(),
            own_occupied == all.take(k as int).filter(q5).len(),
            adj_total == all.take(k as int).filter(q6).len(),
            adj_covered == all.take(k as int).filter(q7).len(),
            open_len == open_squares(own, king, all.take(k as int)),
            open_len <= 8 * k,
            open_dirs <= k,
            flight_all <= k,
            flight_shielded <= k,
            open_uncovered <= k,
            open_covered <= k,
            own_occupied <= k,
            adj_total <= k,
            adj_covered <= k,
        decreases 8 - k,
    {
        let d = dirs[k];
        proof {
            assert(is_direction(all[k as int]));
            let t = all.take(k as int);
            assert(all.take(k + 1) =~= t.push(d));
            assert(all.take(k + 1).drop_last() =~= t);
            t.lemma_filter_push(d, q0);
            t.lemma_filter_push(d, q1);
            t.lemma_filter_push(d, q2);
            t.lemma_filter_push(d, q3);
            t.lemma_filter_push(d, q4);
            t.lemma_filter_push(d, q5);
            t.lemma_filter_push(d, q6);
            t.lemma_filter_push(d, q7);
        }
        let (run, to_edge) = open_run(&cov.occupied, king, d);
        open_len += run;
        if to_edge {
            open_dirs += 1;
        }
        let adj = Coord { file: king.file + d.0, rank: king.rank + d.1 };
        assert(adj == shifted(king, d));
        if on_board(adj) {
            adj_total += 1;
            let is_cov = cov.covered(adj);
            if is_cov {
                adj_covered += 1;
            }
            if cov.occupied.contains(adj) {
                own_occupied += 1;
            } else {
                flight_all += 1;
                if is_cov {
                    open_covered += 1;
                } else {
                    open_uncovered += 1;
                }
                let behind = Coord { file: adj.file + d.0, rank: adj.rank + d.1 };
                assert(behind == along(king, d, 2));
                if !on_board(behind) || cov.occupied.contains(behind) {
                    flight_shielded += 1;
                }
            }
        }
        k += 1;
    }
    assert(all.take(8) =~= all);
    let home = match color {
        Color::Sente => Coord { file: 5, rank: 9 },
        Color::Gote => Coord { file: 5, rank: 1 },
    };
    (
        F2 {
            open_dirs,
            open_len,
            flight_all,
            flight_shielded,
            king_home: king == home,
            known_enemy_to_origin: None,
        },
        F3 { open_uncovered, open_covered, own_occupied, adj_total, adj_covered },
    )
}

/// The square of the first king among the pieces.
fn first_king(pieces: &[VisiblePiece]) -> (res: Option<Coord>)
    ensures
        res == shown_king(visible_list(pieces@)),
        res matches Some(c) ==> is_on_board(c),
{
    let ghost all = visible_list(pieces@);
    let mut i: usize = 0;
    assert(all.skip(0) =~= all);
    while i < pieces.len()
        invariant
            i <= pieces@.len(),
            all == visible_list(pieces@),
            shown_king(all) == shown_king(all.skip(i as int)),
        decreases pieces@.len() - i,
    {
        proof {
            let rest = all.skip(i as int);
            assert(rest[0] == pieces@[i as int]@);
            assert(rest.drop_first() =~= all.skip(i + 1));
        }
        if pieces[i].role == Role::King {
            return parse_usi_square(pieces[i].square.as_str());
        }
        i += 1;
    }
    None
}

/// Counts the origins by class and by distance.
fn count_origins(
    origins: &Vec<Origin>,
    cov: &Coverage,
    Ghost(pieces): Ghost<Seq<(Seq<char>, Role)>>,
    color: Color,
) -> (res: F1)
    requires
        origins@.len() <= u32::MAX,
        coverage_is(*cov, pieces, color),
    ensures
        f1_is(res, origins@, pieces, color),
{
    let f1 = F1 {
        by_class: [
            count_class(origins, cov, OriginClass::Knight),
            count_class(origins, cov, OriginClass::Line),
            count_class(origins, cov, OriginClass::Diag),
        ],
        by_dist: [
            count_bucket(origins, cov, 0),
            count_bucket(origins, cov, 1),
            count_bucket(origins, cov, 2),
            count_bucket(origins, cov, 3),
        ],
    };
    proof {
        lemma_f1(f1, origins@, pieces, color, *cov);
    }
    f1
}

/// The shape of a side before a check, from its own pieces and the known enemy squares.
pub fn features(pieces: &[VisiblePiece], color: Color, known_enemy: &[Coord]) -> (res: PrepFeatures)
    requires
        pieces@.len() <= u32::MAX,
    ensures
        features_are(res, visible_list(pieces@), color, known_enemy@),
{
    let king = match first_king(pieces) {
        Some(king) => king,
        None => return PrepFeatures::default(),
    };
    let cov = coverage_of(pieces, color);
    let ghost list = visible_list(pieces@);
    let origins = origin_squares(king, color);
    proof {
        lemma_origin_count(king, color);
    }
    let f1 = count_origins(&origins, &cov, Ghost(list), color);
    let (around, f3) = surroundings(king, &cov, color);
    proof {
        lemma_f3(f3, king, list, color, cov);
    }
    let f2 = F2 { known_enemy_to_origin: nearest(&origins, known_enemy), ..around };
    PrepFeatures { king: Some(king), f1, f2, f3 }
}

/// Two predicates that agree keep the same elements.
pub proof fn lemma_filter_same<A>(s: Seq<A>, p: spec_fn(A) -> bool, q: spec_fn(A) -> bool)
    requires
        forall|x: A| p(x) == #[trigger] q(x),
    ensures
        s.filter(p) == s.filter(q),
{
    assert(p =~= q);
}

proof fn lemma_f1(
    f1: F1,
    origins: Seq<Origin>,
    pieces: Seq<(Seq<char>, Role)>,
    color: Color,
    cov: Coverage,
)
    requires
        coverage_is(cov, pieces, color),
        forall|i: int|
            0 <= i < 3 ==> {
                let t = #[trigger] f1.by_class@[i];
                &&& t.0 == origins.filter(|o: Origin| o.class == class_at(i)).len()
                &&& t.1 == origins.filter(
                    |o: Origin|
                        o.class == class_at(i) && (cov.sure@.contains(o.sq) || cov.ray@.contains(
                            o.sq,
                        )),
                ).len()
                &&& t.2 == origins.filter(
                    |o: Origin| o.class == class_at(i) && cov.sure@.contains(o.sq),
                ).len()
            },
        forall|i: int|
            0 <= i < 4 ==> {
                let t = #[trigger] f1.by_dist@[i];
                &&& t.0 == origins.filter(|o: Origin| bucket_of(o.dist as int) == i).len()
                &&& t.1 == origins.filter(
                    |o: Origin|
                        bucket_of(o.dist as int) == i && (cov.sure@.contains(o.sq)
                            || cov.ray@.contains(o.sq)),
                ).len()
            },
    ensures
        f1_is(f1, origins, pieces, color),
{
    assert forall|i: int| 0 <= i < 3 implies {
        let t = #[trigger] f1.by_class@[i];
        &&& t.0 == origins.filter(|o: Origin| o.class == class_at(i)).len()
        &&& t.1 == origins.filter(
            |o: Origin| o.class == class_at(i) && is_covered(pieces, color, o.sq),
        ).len()
        &&& t.2 == origins.filter(
            |o: Origin| o.class == class_at(i) && sure_cover(pieces, color).contains(o.sq),
        ).len()
    } by {
        let a = |o: Origin|
            o.class == class_at(i) && (cov.sure@.contains(o.sq) || cov.ray@.contains(o.sq));
        let b = |o: Origin| o.class == class_at(i) && is_covered(pieces, color, o.sq);
        lemma_filter_same(origins, a, b);
        let c = |o: Origin| o.class == class_at(i) && cov.sure@.contains(o.sq);
        let e = |o: Origin| o.class == class_at(i) && sure_cover(pieces, color).contains(o.sq);
        lemma_filter_same(origins, c, e);
    }
    assert forall|i: int| 0 <= i < 4 implies {
        let t = #[trigger] f1.by_dist@[i];
        &&& t.0 == origins.filter(|o: Origin| bucket_of(o.dist as int) == i).len()
        &&& t.1 == origins.filter(
            |o: Origin| bucket_of(o.dist as int) == i && is_covered(pieces, color, o.sq),
        ).len()
    } by {
        let a = |o: Origin|
            bucket_of(o.dist as int) == i && (cov.sure@.contains(o.sq) || cov.ray@.contains(o.sq));
        let b = |o: Origin| bucket_of(o.dist as int) == i && is_covered(pieces, color, o.sq);
        lemma_filter_same(origins, a, b);
    }
}

proof fn lemma_f3(
    f3: F3,
    king: Coord,
    pieces: Seq<(Seq<char>, Role)>,
    color: Color,
    cov: Coverage,
)
    requires
        coverage_is(cov, pieces, color),
        f3.open_uncovered == king_dirs().filter(
            |d: Delta|
                can_flee(cov.occupied@, king, d) && !(cov.sure@.contains(shifted(king, d))
                    || cov.ray@.contains(shifted(king, d))),
        ).len(),
        f3.open_covered == king_dirs().filter(
            |d: Delta|
                can_flee(cov.occupied@, king, d) && (cov.sure@.contains(shifted(king, d))
                    || cov.ray@.contains(shifted(king, d))),
        ).len(),
        f3.own_occupied == king_dirs().filter(
            |d: Delta| is_on_board(shifted(king, d)) && cov.occupied@.contains(shifted(king, d)),
        ).len(),
        f3.adj_total == king_dirs().filter(|d: Delta| is_on_board(shifted(king, d))).len(),
        f3.adj_covered == king_dirs().filter(
            |d: Delta|
                is_on_board(shifted(king, d)) && (cov.sure@.contains(shifted(king, d))
                    || cov.ray@.contains(shifted(king, d))),
        ).len(),
    ensures
        f3_is(f3, king, pieces, color),
{
    let own = occupied_by(pieces);
    let dirs = king_dirs();
    let a = |d: Delta|
        can_flee(cov.occupied@, king, d) && !(cov.sure@.contains(shifted(king, d))
            || cov.ray@.contains(shifted(king, d)));
    let b = |d: Delta| can_flee(own, king, d) && !is_covered(pieces, color, shifted(king, d));
    lemma_filter_same(dirs, a, b);
    let c = |d: Delta|
        can_flee(cov.occupied@, king, d) && (cov.sure@.contains(shifted(king, d))
            || cov.ray@.contains(shifted(king, d)));
    let e = |d: Delta| can_flee(own, king, d) && is_covered(pieces, color, shifted(king, d));
    lemma_filter_same(dirs, c, e);
    let g = |d: Delta| is_on_board(shifted(king, d)) && cov.occupied@.contains(shifted(king, d));
    let h = |d: Delta| is_on_board(shifted(king, d)) && own.contains(shifted(king, d));
    lemma_filter_same(dirs, g, h);
    let u = |d: Delta|
        is_on_board(shifted(king, d)) && (cov.sure@.contains(shifted(king, d)) || cov.ray@.contains(
            shifted(king, d),
        ));
    let v = |d: Delta|
        is_on_board(shifted(king, d)) && is_covered(pieces, color, shifted(king, d));
    lemma_filter_same(dirs, u, v);
}

/// Whether pieces other than the king cover a square, and how many do. For the square that a king
/// leaves, the pieces are those after the move.
pub fn f4_from_covered(pieces_after: &[VisiblePiece], color: Color, from: Coord) -> (res: (bool, u32))
    requires
        pieces_after@.len() <= u32::MAX,
    ensures
        res.0 == is_covered(visible_list(pieces_after@), color, from),
        res.1 == (if is_on_board(from) {
            cover_count(visible_list(pieces_after@), color, from) as int
        } else {
            0
        }),
{
    let cov = coverage_of(pieces_after, color);
    proof {
        if is_on_board(from) {
            lemma_square_index(from, 0);
            assert(cov.count@[square_index(from)] == cover_count(
                visible_list(pieces_after@),
                color,
                square_at(square_index(from)),
            ));
        }
    }
    (cov.covered(from), cov.count_at(from))
}

/// The place of the first piece on a square.
pub open spec fn first_on(pieces: Seq<(Seq<char>, Role)>, square: Seq<char>, i: int) -> Option<int>
    decreases pieces.len() - i,
{
    if i < 0 || i >= pieces.len() {
        None
    } else if pieces[i].0 == square {
        Some(i)
    } else {
        first_on(pieces, square, i + 1)
    }
}

/// The own pieces after an own move. What was taken is not seen.
pub open spec fn list_after(pieces: Seq<(Seq<char>, Role)>, mv: ShogiMove) -> Seq<
    (Seq<char>, Role),
> {
    match mv {
        ShogiMove::Board { from, to, promote } => match first_on(pieces, square_text(from), 0) {
            Some(i) => pieces.update(i, (square_text(to), arriving_role(pieces[i].1, promote))),
            None => pieces,
        },
        ShogiMove::Drop { role, to } => pieces.push((square_text(to), role)),
    }
}

fn copy_pieces(pieces: &[VisiblePiece]) -> (res: Vec<VisiblePiece>)
    ensures
        visible_list(res@) == visible_list(pieces@),
{
    let mut out: Vec<VisiblePiece> = Vec::new();
    let mut i: usize = 0;
    while i < pieces.len()
        invariant
            i <= pieces@.len(),
            out@.len() == i,
            forall|k: int| 0 <= k < i ==> (#[trigger] out@[k])@ == pieces@[k]@,
        decreases pieces@.len() - i,
    {
        out.push(pieces[i].clone());
        i += 1;
    }
    assert(visible_list(out@) =~= visible_list(pieces@));
    out
}

/// The own pieces after an own move.
pub fn pieces_after(pieces: &[VisiblePiece], mv: &ShogiMove) -> (res: Vec<VisiblePiece>)
    requires
        match *mv {
            ShogiMove::Board { from, to, promote } => 1 <= from.rank <= 9 && (first_on(
                visible_list(pieces@),
                square_text(from),
                0,
            ) is Some ==> 1 <= to.rank <= 9),
            ShogiMove::Drop { role, to } => 1 <= to.rank <= 9,
        },
    ensures
        visible_list(res@) == list_after(visible_list(pieces@), *mv),
{
    let mut out = copy_pieces(pieces);
    let ghost all = visible_list(pieces@);
    match *mv {
        ShogiMove::Board { from, to, promote } => {
            let from_usi = make_usi_square(from);
            let mut i: usize = 0;
            while i < out.len()
                invariant
                    i <= out@.len(),
                    first_on(all, square_text(from), 0) is Some ==> 1 <= to.rank <= 9,
                    *mv == (ShogiMove::Board { from, to, promote }),
                    all == visible_list(pieces@),
                    visible_list(out@) == all,
                    from_usi@ == square_text(from),
                    first_on(all, square_text(from), 0) == first_on(
                        all,
                        square_text(from),
                        i as int,
                    ),
                decreases out@.len() - i,
            {
                assert(all[i as int] == out@[i as int]@);
                if out[i].square == from_usi {
                    let old_role = out[i].role;
                    let role = if promote {
                        match promote_role(old_role) {
                            Some(r) => r,
                            None => old_role,
                        }
                    } else {
                        old_role
                    };
                    let ghost before = out@;
                    out.set(i, VisiblePiece { square: make_usi_square(to), role });
                    assert(visible_list(out@) =~= visible_list(before).update(
                        i as int,
                        out@[i as int]@,
                    ));
                    return out;
                }
                i += 1;
            }
        },
        ShogiMove::Drop { role, to } => {
            let ghost before = out@;
            out.push(VisiblePiece { square: make_usi_square(to), role });
            assert(visible_list(out@) =~= visible_list(before).push(out@.last()@));
        },
    }
    out
}

/// The squares on which the observations show an enemy piece: where an own piece was taken, and
/// where an own drop was refused, as long as nothing was taken there since.
pub open spec fn known_enemies(events: Seq<Event>) -> Set<Coord>
    decreases events.len(),
{
    if events.len() == 0 {
        Set::empty()
    } else {
        let known = known_enemies(events.drop_last());
        match events.last() {
            Event::OpponentMoved { move_number, captured_at: Some(sq) } => match square_of_text(sq) {
                Some(c) => known.insert(c),
                None => known,
            },
            Event::MyFoul { move_number, usi } => match move_of_text(usi) {
                Some(ShogiMove::Drop { role, to }) => known.insert(to),
                _ => known,
            },
            Event::MyMove { move_number, usi, captured: Some(_) } => match move_of_text(usi) {
                Some(ShogiMove::Board { from, to, promote }) => known.remove(to),
                _ => known,
            },
            _ => known,
        }
    }
}

/// The squares on which the observations show an enemy piece, in file-major order.
pub fn known_enemy_squares(log: &ObservationLog) -> (res: Vec<Coord>)
    ensures
        res@ == all_squares().filter(|c: Coord| known_enemies(log@).contains(c)),
{
    let mut known = SquareSet::empty();
    let events = log.events();
    let mut n: usize = 0;
    while n < events.len()
        invariant
            n <= log@.len(),
            log@.len() == events@.len(),
            forall|k: int| 0 <= k < events@.len() ==> (#[trigger] events@[k])@ == log@[k],
            known@ == known_enemies(log@.take(n as int)),
        decreases log@.len() - n,
    {
        proof {
            let t = log@.take(n + 1);
            assert(t.drop_last() =~= log@.take(n as int));
            assert(t.last() == events@[n as int]@);
        }
        match &events[n] {
            Observation::OpponentMoved { move_number: _, captured_my_piece_at: Some(sq) } => {
                if let Some(c) = parse_usi_square(sq.as_str()) {
                    known.insert(c);
                }
            },
            Observation::MyFoul { move_number: _, usi } => {
                if let Some(ShogiMove::Drop { role: _, to }) = parse_usi(usi.as_str()) {
                    known.insert(to);
                }
            },
            Observation::MyMove { move_number: _, usi, captured: Some(_) } => {
                if let Some(ShogiMove::Board { from: _, to, promote: _ }) = parse_usi(usi.as_str()) {
                    known.remove(to);
                }
            },
            _ => {},
        }
        n += 1;
    }
    assert(log@.take(n as int) =~= log@);
    let mut out: Vec<Coord> = Vec::new();
    let ghost all = all_squares();
    let ghost good = |c: Coord| known_enemies(log@).contains(c);
    let mut i: usize = 0;
    assert(all.take(0).filter(good) =~= Seq::<Coord>::empty()) by {
        reveal(Seq::filter);
    }
    while i < 81
        invariant
            i <= 81,
            known@ == known_enemies(log@),
            all == all_squares(),
            good == (|c: Coord| known_enemies(log@).contains(c)),
            out@ == all.take(i as int).filter(good),
        decreases 81 - i,
    {
        let c = coord_at(i);
        proof {
            assert(all.take(i + 1) =~= all.take(i as int).push(c));
            all.take(i as int).lemma_filter_push(c, good);
        }
        if known.contains(c) {
            out.push(c);
        }
        i += 1;
    }
    assert(all.take(81) =~= all);
    out
}

/// Taking a piece on a square makes that square, and no other, unknown again.
pub proof fn law_recapture_clears(
    events: Seq<Event>,
    move_number: u32,
    from: Coord,
    to: Coord,
    promote: bool,
    taken: Role,
)
    requires
        is_on_board(from),
        is_on_board(to),
    ensures
        known_enemies(
            events.push(
                Event::MyMove {
                    move_number,
                    usi: crate::shogi::text_of_move(ShogiMove::Board { from, to, promote }),
                    captured: Some(taken),
                },
            ),
        ) == known_enemies(events).remove(to),
{
    let mv = ShogiMove::Board { from, to, promote };
    crate::shogi::law_usi_round_trip(mv);
    let e = Event::MyMove {
        move_number,
        usi: crate::shogi::text_of_move(mv),
        captured: Some(taken),
    };
    assert(events.push(e).drop_last() =~= events);
}

/// How many legal moves the side to move really has. In check, every one of them answers it.
pub fn k_def_truth(truth: &Position) -> (res: u32)
    ensures
        res == legal_list(truth@).len(),
{
    proof {
        let good = |mv: ShogiMove| legal(truth@, mv);
        Seq::new(crate::shogi::move_count() as nat, |n: int| crate::shogi::move_at(n)).lemma_filter_len(good);
    }
    let moves = truth.legal_moves();
    moves.len() as u32
}

/// Whether a legal move takes a checking piece with a piece other than the king.
pub open spec fn takes_without_king(truth: PositionModel, bot: Color, mv: ShogiMove) -> bool {
    &&& legal(truth, mv)
    &&& mv matches ShogiMove::Board { from, to, promote }
    &&& Some(from) != king_of(truth, bot)
    &&& is_true_checker(truth, bot, to)
}

/// Whether a checking piece could really be taken by a piece other than the king.
pub fn nonking_capture_of_checker(truth: &Position, bot: Color) -> (res: bool)
    ensures
        res == (king_of(truth@, bot) is Some && exists|mv: ShogiMove| #[trigger]
            takes_without_king(truth@, bot, mv)),
{
    let king = match truth.king_square(bot) {
        Some(king) => king,
        None => return false,
    };
    let checkers = true_checkers(truth, bot);
    let moves = truth.legal_moves();
    let mut i: usize = 0;
    while i < moves.len()
        invariant
            i <= moves@.len(),
            moves@ == legal_list(truth@),
            checkers@ == checker_list(truth@, bot),
            king_of(truth@, bot) == Some(king),
            forall|k: int| 0 <= k < i ==> !takes_without_king(truth@, bot, #[trigger] moves@[k]),
        decreases moves@.len() - i,
    {
        let mv = moves[i];
        proof {
            law_legal_moves(truth@, mv);
            assert(legal_list(truth@).contains(mv));
        }
        if let ShogiMove::Board { from, to, promote: _ } = mv {
            proof {
                lemma_checker_list(truth@, bot, to);
            }
            if from != king && stands_at(&checkers, to) {
                assert(takes_without_king(truth@, bot, mv));
                return true;
            }
        }
        i += 1;
    }
    assert forall|mv: ShogiMove| !takes_without_king(truth@, bot, mv) by {
        if takes_without_king(truth@, bot, mv) {
            law_legal_moves(truth@, mv);
            let k = choose|k: int| 0 <= k < moves@.len() && moves@[k] == mv;
            assert(!takes_without_king(truth@, bot, moves@[k]));
        }
    }
    false
}

/// Whether one of the listed pieces stands on a square.
fn stands_at(pieces: &Vec<(Coord, Role)>, c: Coord) -> (res: bool)
    ensures
        res == exists|i: int| 0 <= i < pieces@.len() && (#[trigger] pieces@[i]).0 == c,
{
    let mut i: usize = 0;
    while i < pieces.len()
        invariant
            i <= pieces@.len(),
            forall|k: int| 0 <= k < i ==> (#[trigger] pieces@[k]).0 != c,
        decreases pieces@.len() - i,
    {
        if pieces[i].0 == c {
            assert(pieces@[i as int].0 == c);
            return true;
        }
        i += 1;
    }
    false
}

/// How many fouls a side has tried at a move number.
pub open spec fn fouls_by(fouls: Seq<FoulRecord>, bot: Color, number: u32) -> nat {
    fouls.filter(|f: FoulRecord| f.by_color == bot && f.move_number == number).len()
}

/// Whether a map holds the number of fouls by move number, and nothing for the others.
pub open spec fn counts_fouls(counts: Map<u32, u32>, fouls: Seq<FoulRecord>, bot: Color) -> bool {
    forall|number: u32|
        #![trigger counts.dom().contains(number)]
        #![trigger counts[number]]
        {
            &&& counts.dom().contains(number) <==> fouls_by(fouls, bot, number) > 0
            &&& counts.dom().contains(number) ==> counts[number] == fouls_by(fouls, bot, number)
        }
}

/// The fouls of one side by move number, those of the turn that ended the game among them.
pub fn bot_foul_counts(end: &GameEndPayload, bot: Color) -> (res: HashMap<u32, u32>)
    requires
        end.foul_attempts@.len() <= u32::MAX,
    ensures
        counts_fouls(res@, end.foul_attempts@, bot),
{
    broadcast use group_hash_axioms;

    let mut out: HashMap<u32, u32> = HashMap::new();
    let ghost all = end.foul_attempts@;
    let mut i: usize = 0;
    assert forall|number: u32| fouls_by(all.take(0), bot, number) == 0 by {
        all.take(0).lemma_filter_len(
            |f: FoulRecord| f.by_color == bot && f.move_number == number,
        );
    }
    while i < end.foul_attempts.len()
        invariant
            i <= all.len() <= u32::MAX,
            all == end.foul_attempts@,
            counts_fouls(out@, all.take(i as int), bot),
        decreases all.len() - i,
    {
        let f = &end.foul_attempts[i];
        let ghost t = all.take(i as int);
        let ghost before = out@;
        proof {
            assert(all.take(i + 1) =~= t.push(*f));
            assert forall|number: u32| #[trigger]
                fouls_by(all.take(i + 1), bot, number) == fouls_by(t, bot, number) + (if f.by_color
                    == bot && f.move_number == number {
                    1nat
                } else {
                    0nat
                }) && fouls_by(t, bot, number) <= i by {
                let p = |f: FoulRecord| f.by_color == bot && f.move_number == number;
                t.lemma_filter_push(*f, p);
                t.lemma_filter_len(p);
            }
        }
        if f.by_color == bot {
            let number: u32 = f.move_number;
            let tried: u32 = match out.get(&number) {
                Some(n) => *n,
                None => 0,
            };
            assert(before.dom().contains(number) <==> fouls_by(t, bot, number) > 0);
            assert(tried == fouls_by(t, bot, number));
            out.insert(number, tried + 1);
        }
        assert(counts_fouls(out@, all.take(i + 1), bot)) by {
            assert forall|number: u32|
                out@.dom().contains(number) <==> fouls_by(all.take(i + 1), bot, number) > 0 by {
                assert(before.dom().contains(number) <==> fouls_by(t, bot, number) > 0);
            }
            assert forall|number: u32| #[trigger] out@.dom().contains(number) implies out@[number]
                == fouls_by(all.take(i + 1), bot, number) by {
                assert(before.dom().contains(number) <==> fouls_by(t, bot, number) > 0);
            }
        }
        i += 1;
    }
    assert(all.take(i as int) =~= all);
    out
}

/// Where the piece stands that checks again after the king has fled from a check.
#[derive(Clone, Copy, Debug, PartialEq, Eq, Hash, Structural)]
pub enum ChaseClass {
    /// On the square that the king left.
    AtPrevKing,
    /// Next to the square that the king left.
    AdjacentPrevKing,
    /// Anywhere else.
    Elsewhere,
}

impl ChaseClass {
    /// All classes, in the order in which they are counted.
    pub fn all() -> (res: [ChaseClass; 3])
        ensures
            res@ == seq![
                ChaseClass::AtPrevKing,
                ChaseClass::AdjacentPrevKing,
                ChaseClass::Elsewhere,
            ],
    {
        let res = [ChaseClass::AtPrevKing, ChaseClass::AdjacentPrevKing, ChaseClass::Elsewhere];
        assert(res@ =~= seq![
            ChaseClass::AtPrevKing,
            ChaseClass::AdjacentPrevKing,
            ChaseClass::Elsewhere,
        ]);
        res
    }

    /// The name shown in reports.
    pub fn label(self) -> (res: &'static str)
        ensures
            res@ == match self {
                ChaseClass::AtPrevKing => "(a) 前の玉位置"@,
                ChaseClass::AdjacentPrevKing => "(b) 前の玉位置の隣接"@,
                ChaseClass::Elsewhere => "(c) それ以外"@,
            },
    {
        match self {
            ChaseClass::AtPrevKing => "(a) 前の玉位置",
            ChaseClass::AdjacentPrevKing => "(b) 前の玉位置の隣接",
            ChaseClass::Elsewhere => "(c) それ以外",
        }
    }
}

/// A check that follows at once on one from which the king has fled.
#[derive(Clone, Copy, Debug, PartialEq, Eq)]
pub struct ChaseEvent {
    /// The move number of the turn in which the second check stands.
    pub move_number: u32,
    pub prev_king: Coord,
    pub new_king: Coord,
    pub class: ChaseClass,
    /// Whether two pieces give the second check.
    pub double_check: bool,
    /// Whether the piece that moved is one of those that gave the first check.
    pub same_piece: bool,
    /// Whether a piece other than the king covered the square that the king left.
    pub prev_king_covered: bool,
    /// Whether pieces other than the king covered every piece that gives the second check.
    pub checkers_covered: bool,
    /// The fouls of the turn in which the second check stands.
    pub fouls: u32,
}

/// Where the checking pieces stand relative to the square that the king left.
pub open spec fn chase_class(checkers: Seq<(Coord, Role)>, prev_king: Coord) -> ChaseClass {
    if exists|i: int| 0 <= i < checkers.len() && (#[trigger] checkers[i]).0 == prev_king {
        ChaseClass::AtPrevKing
    } else if exists|i: int|
        0 <= i < checkers.len() && span((#[trigger] checkers[i]).0, prev_king) == 1 {
        ChaseClass::AdjacentPrevKing
    } else {
        ChaseClass::Elsewhere
    }
}

/// The repeated check that answers the `k`-th move, if that was a flight of the side's king from a
/// check and the opponent's next move checks again.
pub open spec fn chase_at(
    moves: Seq<MoveRecord>,
    positions: Seq<Position>,
    bot: Color,
    fouls: Map<u32, u32>,
    k: int,
) -> Option<ChaseEvent> {
    let flight = move_of_text(moves[k].usi@);
    if moves[k].by_color == bot && k + 2 < positions.len() && k + 1 < moves.len()
        && moves[k + 1].by_color != bot && checked(positions[k]@, bot) && flight is Some
        && flight->0 is Board && king_of(positions[k]@, bot) == Some(flight->0->from) && checked(
        positions[k + 2]@,
        bot,
    ) {
        let prev_king = flight->0->from;
        let second = positions[k + 2]@;
        let checkers = checker_list(second, bot);
        let own = pieces_of_side(positions[k + 1]@, bot);
        Some(
            ChaseEvent {
                move_number: second.move_number,
                prev_king,
                new_king: flight->0->Board_to,
                class: chase_class(checkers, prev_king),
                double_check: checkers.len() > 1,
                same_piece: move_of_text(moves[k + 1].usi@) matches Some(
                    ShogiMove::Board { from, to, promote },
                ) && is_true_checker(positions[k]@, bot, from),
                prev_king_covered: is_covered(own, bot, prev_king),
                checkers_covered: forall|i: int|
                    0 <= i < checkers.len() ==> is_covered(own, bot, (#[trigger] checkers[i]).0),
                fouls: if fouls.dom().contains(second.move_number) {
                    fouls[second.move_number]
                } else {
                    0
                },
            },
        )
    } else {
        None
    }
}

/// All repeated checks of a game.
pub open spec fn chases(
    moves: Seq<MoveRecord>,
    positions: Seq<Position>,
    bot: Color,
    fouls: Map<u32, u32>,
) -> Seq<ChaseEvent> {
    Seq::new(moves.len(), |k: int| k).filter_map(
        |k: int| chase_at(moves, positions, bot, fouls, k),
    )
}

fn class_of_chase(checkers: &Vec<(Coord, Role)>, prev_king: Coord) -> (res: ChaseClass)
    ensures
        res == chase_class(checkers@, prev_king),
{
    if stands_at(checkers, prev_king) {
        return ChaseClass::AtPrevKing;
    }
    let mut i: usize = 0;
    while i < checkers.len()
        invariant
            i <= checkers@.len(),
            forall|k: int| 0 <= k < checkers@.len() ==> (#[trigger] checkers@[k]).0 != prev_king,
            forall|k: int| 0 <= k < i ==> span((#[trigger] checkers@[k]).0, prev_king) != 1,
        decreases checkers@.len() - i,
    {
        if cheb(checkers[i].0, prev_king) == 1 {
            assert(span(checkers@[i as int].0, prev_king) == 1);
            return ChaseClass::AdjacentPrevKing;
        }
        i += 1;
    }
    ChaseClass::Elsewhere
}

fn all_covered(checkers: &Vec<(Coord, Role)>, cov: &Coverage) -> (res: bool)
    ensures
        res == forall|i: int|
            0 <= i < checkers@.len() ==> cov.sure@.contains((#[trigger] checkers@[i]).0)
                || cov.ray@.contains(checkers@[i].0),
{
    let mut i: usize = 0;
    while i < checkers.len()
        invariant
            i <= checkers@.len(),
            forall|k: int|
                0 <= k < i ==> cov.sure@.contains((#[trigger] checkers@[k]).0) || cov.ray@.contains(
                    checkers@[k].0,
                ),
        decreases checkers@.len() - i,
    {
        if !cov.covered(checkers[i].0) {
            assert(!cov.sure@.contains(checkers@[i as int].0));
            return false;
        }
        i += 1;
    }
    true
}

/// The repeated check that answers one move.
fn chase_after(
    end: &GameEndPayload,
    positions: &[Position],
    bot: Color,
    fouls_at: &HashMap<u32, u32>,
    k: usize,
) -> (res: Option<ChaseEvent>)
    requires
        k < end.moves@.len(),
    ensures
        res == chase_at(end.moves@, positions@, bot, fouls_at@, k as int),
{
    broadcast use group_hash_axioms;

    if end.moves[k].by_color != bot || positions.len() < 3 || k >= positions.len() - 2 {
        return None;
    }
    if k + 1 >= end.moves.len() || end.moves[k + 1].by_color == bot {
        return None;
    }
    let before = &positions[k];
    if !before.in_check(bot) {
        return None;
    }
    let prev_king = match before.king_square(bot) {
        Some(king) => king,
        None => return None,
    };
    let (from, to) = match parse_usi(end.moves[k].usi.as_str()) {
        Some(ShogiMove::Board { from, to, promote: _ }) => (from, to),
        _ => return None,
    };
    if from != prev_king {
        return None;
    }
    let second = &positions[k + 2];
    if !second.in_check(bot) {
        return None;
    }
    let checkers = true_checkers(second, bot);
    let same_piece = match parse_usi(end.moves[k + 1].usi.as_str()) {
        Some(ShogiMove::Board { from: mover, to: _, promote: _ }) => {
            let first_checkers = true_checkers(before, bot);
            proof {
                lemma_checker_list(before@, bot, mover);
            }
            stands_at(&first_checkers, mover)
        },
        _ => false,
    };
    let own = visible_pieces(&side_only(&positions[k + 1], bot));
    proof {
        lemma_own_list_len(crate::replay::only_side(positions@[k + 1]@, bot));
    }
    let cov = coverage_of(&own, bot);
    let number: u32 = second.move_number();
    let fouls: u32 = match fouls_at.get(&number) {
        Some(n) => *n,
        None => 0,
    };
    Some(
        ChaseEvent {
            move_number: number,
            prev_king,
            new_king: to,
            class: class_of_chase(&checkers, prev_king),
            double_check: checkers.len() > 1,
            same_piece,
            prev_king_covered: cov.covered(prev_king),
            checkers_covered: all_covered(&checkers, &cov),
            fouls,
        },
    )
}

/// A side has at most as many pieces as the board has squares.
proof fn lemma_own_list_len(own: PositionModel)
    ensures
        crate::model::own_list(own).len() <= 81,
{
    all_squares().lemma_filter_len(|c: Coord| own.at(c) is Some);
}

/// Takes all repeated checks out of a game. `positions` holds the position before each move.
pub fn chase_events(
    end: &GameEndPayload,
    positions: &[Position],
    bot: Color,
    fouls_at: &HashMap<u32, u32>,
) -> (res: Vec<ChaseEvent>)
    ensures
        res@ == chases(end.moves@, positions@, bot, fouls_at@),
{
    let ghost all = Seq::new(end.moves@.len(), |k: int| k);
    let ghost pick = |k: int| chase_at(end.moves@, positions@, bot, fouls_at@, k);
    let mut out: Vec<ChaseEvent> = Vec::new();
    let mut k: usize = 0;
    assert(all.take(0).filter_map(pick) =~= Seq::<ChaseEvent>::empty());
    while k < end.moves.len()
        invariant
            k <= end.moves@.len(),
            all == Seq::new(end.moves@.len(), |k: int| k),
            pick == (|k: int| chase_at(end.moves@, positions@, bot, fouls_at@, k)),
            out@ == all.take(k as int).filter_map(pick),
        decreases end.moves@.len() - k,
    {
        proof {
            all.lemma_filter_map_take_succ(pick, k as int);
        }
        if let Some(event) = chase_after(end, positions, bot, fouls_at, k) {
            out.push(event);
        }
        k += 1;
    }
    assert(all.take(k as int) =~= all);
    out
}

/// The squares around the king fall into the three states, each into one: an own piece on it, open
/// and covered, or open and uncovered.
pub proof fn law_adjacent_states(
    f3: F3,
    king: Coord,
    pieces: Seq<(Seq<char>, Role)>,
    color: Color,
)
    requires
        f3_is(f3, king, pieces, color),
    ensures
        f3.open_uncovered + f3.open_covered + f3.own_occupied == f3.adj_total,
        f3.adj_total <= 8,
        f3.open_covered <= f3.adj_covered <= f3.adj_total,
{
    let own = occupied_by(pieces);
    let dirs = king_dirs();
    let p = |d: Delta| can_flee(own, king, d) && !is_covered(pieces, color, shifted(king, d));
    let q = |d: Delta| can_flee(own, king, d) && is_covered(pieces, color, shifted(king, d));
    let r = |d: Delta| is_on_board(shifted(king, d)) && own.contains(shifted(king, d));
    let whole = |d: Delta| is_on_board(shifted(king, d));
    let cov = |d: Delta|
        is_on_board(shifted(king, d)) && is_covered(pieces, color, shifted(king, d));
    lemma_filter_three_ways(dirs, whole, p, q, r);
    lemma_filter_fewer(dirs, q, cov);
    lemma_filter_fewer(dirs, cov, whole);
    dirs.lemma_filter_len(whole);
    lemma_deltas(Role::Rook);
    lemma_deltas(Role::Bishop);
}

/// Every origin belongs to one class, those covered for certain are covered, and those covered are
/// origins.
pub proof fn law_origin_counts(
    f1: F1,
    origins: Seq<Origin>,
    pieces: Seq<(Seq<char>, Role)>,
    color: Color,
)
    requires
        f1_is(f1, origins, pieces, color),
    ensures
        f1.spec_total() == origins.len(),
        f1.spec_covered_sure() <= f1.spec_covered() <= f1.spec_total(),
{
    let c0 = |o: Origin| o.class == class_at(0);
    let c1 = |o: Origin| o.class == class_at(1);
    let c2 = |o: Origin| o.class == class_at(2);
    let any = |o: Origin| true;
    lemma_filter_three_ways(origins, any, c0, c1, c2);
    lemma_filter_all(origins, any);
    assert(f1.by_class@[0].0 == origins.filter(c0).len());
    assert(f1.by_class@[1].0 == origins.filter(c1).len());
    assert(f1.by_class@[2].0 == origins.filter(c2).len());
    assert forall|i: int| 0 <= i < 3 implies (#[trigger] f1.by_class@[i]).2 <= f1.by_class@[i].1
        <= f1.by_class@[i].0 by {
        let all = |o: Origin| o.class == class_at(i);
        let cov = |o: Origin| o.class == class_at(i) && is_covered(pieces, color, o.sq);
        let sure = |o: Origin|
            o.class == class_at(i) && sure_cover(pieces, color).contains(o.sq);
        lemma_filter_fewer(origins, cov, all);
        lemma_filter_fewer(origins, sure, cov);
    }
}

/// The numbers of origins depend on the square of the king alone, whatever else stands on the board. In
/// each class those covered for certain are covered, and those covered are origins; the distances
/// count the same origins as the classes. Without a king nothing is counted.
pub proof fn law_features_of_one_king(
    fa: PrepFeatures,
    fb: PrepFeatures,
    a: Seq<(Seq<char>, Role)>,
    b: Seq<(Seq<char>, Role)>,
    color: Color,
    known_a: Seq<Coord>,
    known_b: Seq<Coord>,
)
    requires
        features_are(fa, a, color, known_a),
        features_are(fb, b, color, known_b),
        shown_king(a) == shown_king(b),
    ensures
        forall|i: int|
            0 <= i < 3 ==> (#[trigger] fa.f1.by_class@[i]).0 == fb.f1.by_class@[i].0
                && fa.f1.by_class@[i].2 <= fa.f1.by_class@[i].1 <= fa.f1.by_class@[i].0,
        forall|j: int|
            0 <= j < 4 ==> (#[trigger] fa.f1.by_dist@[j]).0 == fb.f1.by_dist@[j].0
                && fa.f1.by_dist@[j].1 <= fa.f1.by_dist@[j].0,
        fa.f1.by_dist@[0].0 + fa.f1.by_dist@[1].0 + fa.f1.by_dist@[2].0 + fa.f1.by_dist@[3].0
            == fa.f1.spec_total(),
        fa.f1.by_dist@[0].1 + fa.f1.by_dist@[1].1 + fa.f1.by_dist@[2].1 + fa.f1.by_dist@[3].1
            == fa.f1.spec_covered(),
        shown_king(a) is None ==> no_features(fa) && fa.king is None,
{
    match shown_king(a) {
        Some(king) => {
            let origins = origin_list(king, color);
            assert forall|i: int| 0 <= i < 3 implies (#[trigger] fa.f1.by_class@[i]).0
                == fb.f1.by_class@[i].0 && fa.f1.by_class@[i].2 <= fa.f1.by_class@[i].1
                <= fa.f1.by_class@[i].0 by {
                let all = |o: Origin| o.class == class_at(i);
                let cov = |o: Origin| o.class == class_at(i) && is_covered(a, color, o.sq);
                let sure = |o: Origin|
                    o.class == class_at(i) && sure_cover(a, color).contains(o.sq);
                lemma_filter_fewer(origins, cov, all);
                lemma_filter_fewer(origins, sure, cov);
                assert(fb.f1.by_class@[i].0 == origins.filter(all).len());
            }
            assert forall|j: int| 0 <= j < 4 implies (#[trigger] fa.f1.by_dist@[j]).0
                == fb.f1.by_dist@[j].0 && fa.f1.by_dist@[j].1 <= fa.f1.by_dist@[j].0 by {
                let all = |o: Origin| bucket_of(o.dist as int) == j;
                let cov = |o: Origin|
                    bucket_of(o.dist as int) == j && is_covered(a, color, o.sq);
                lemma_filter_fewer(origins, cov, all);
                assert(fb.f1.by_dist@[j].0 == origins.filter(all).len());
            }
            lemma_origins_both_ways(fa.f1, origins, a, color);
        },
        None => {},
    }
}

/// Classes and distances count the same origins.
proof fn lemma_origins_both_ways(
    f1: F1,
    origins: Seq<Origin>,
    pieces: Seq<(Seq<char>, Role)>,
    color: Color,
)
    requires
        f1_is(f1, origins, pieces, color),
    ensures
        f1.by_dist@[0].0 + f1.by_dist@[1].0 + f1.by_dist@[2].0 + f1.by_dist@[3].0
            == f1.spec_total(),
        f1.by_dist@[0].1 + f1.by_dist@[1].1 + f1.by_dist@[2].1 + f1.by_dist@[3].1
            == f1.spec_covered(),
{
    let no = |o: Origin| false;
    let any = |o: Origin| true;
    let c0 = |o: Origin| o.class == class_at(0);
    let c1 = |o: Origin| o.class == class_at(1);
    let c2 = |o: Origin| o.class == class_at(2);
    let d0 = |o: Origin| bucket_of(o.dist as int) == 0;
    let d1 = |o: Origin| bucket_of(o.dist as int) == 1;
    let d2 = |o: Origin| bucket_of(o.dist as int) == 2;
    let d3 = |o: Origin| bucket_of(o.dist as int) == 3;
    let far = |o: Origin| bucket_of(o.dist as int) >= 2;
    lemma_filter_three_ways(origins, any, c0, c1, c2);
    lemma_filter_three_ways(origins, any, d0, d1, far);
    lemma_filter_three_ways(origins, far, d2, d3, no);
    let in_all = |o: Origin| is_covered(pieces, color, o.sq);
    let k0 = |o: Origin| o.class == class_at(0) && is_covered(pieces, color, o.sq);
    let k1 = |o: Origin| o.class == class_at(1) && is_covered(pieces, color, o.sq);
    let k2 = |o: Origin| o.class == class_at(2) && is_covered(pieces, color, o.sq);
    let e0 = |o: Origin| bucket_of(o.dist as int) == 0 && is_covered(pieces, color, o.sq);
    let e1 = |o: Origin| bucket_of(o.dist as int) == 1 && is_covered(pieces, color, o.sq);
    let e2 = |o: Origin| bucket_of(o.dist as int) == 2 && is_covered(pieces, color, o.sq);
    let e3 = |o: Origin| bucket_of(o.dist as int) == 3 && is_covered(pieces, color, o.sq);
    let efar = |o: Origin| bucket_of(o.dist as int) >= 2 && is_covered(pieces, color, o.sq);
    lemma_filter_three_ways(origins, in_all, k0, k1, k2);
    lemma_filter_three_ways(origins, in_all, e0, e1, efar);
    lemma_filter_three_ways(origins, efar, e2, e3, no);
    lemma_filter_three_ways(origins, no, no, no, no);
    assert(f1.by_class@[0].0 == origins.filter(c0).len());
    assert(f1.by_class@[1].0 == origins.filter(c1).len());
    assert(f1.by_class@[2].0 == origins.filter(c2).len());
    assert(f1.by_dist@[0].0 == origins.filter(d0).len());
    assert(f1.by_dist@[1].0 == origins.filter(d1).len());
    assert(f1.by_dist@[2].0 == origins.filter(d2).len());
    assert(f1.by_dist@[3].0 == origins.filter(d3).len());
}

/// The three states take up the squares around the king that are on the board, of which there are none
/// exactly where no king is shown. The flight squares are those of the two open states; the covered
/// squares are the open covered ones and some of those that own pieces hold.
pub proof fn law_surroundings_agree(
    f: PrepFeatures,
    pieces: Seq<(Seq<char>, Role)>,
    color: Color,
    known: Seq<Coord>,
)
    requires
        features_are(f, pieces, color, known),
    ensures
        f.f3.open_uncovered + f.f3.open_covered + f.f3.own_occupied == f.f3.adj_total,
        f.f3.adj_total == 0 <==> f.king is None,
        f.f2.flight_all == f.f3.open_uncovered + f.f3.open_covered,
        f.f3.open_covered <= f.f3.adj_covered <= f.f3.open_covered + f.f3.own_occupied,
        f.f2.flight_shielded <= f.f2.flight_all,
{
    match shown_king(pieces) {
        Some(king) => {
            law_adjacent_states(f.f3, king, pieces, color);
            let own = occupied_by(pieces);
            let dirs = king_dirs();
            let no = |d: Delta| false;
            let p = |d: Delta| can_flee(own, king, d) && !is_covered(pieces, color, shifted(king, d));
            let q = |d: Delta| can_flee(own, king, d) && is_covered(pieces, color, shifted(king, d));
            let flee = |d: Delta| can_flee(own, king, d);
            let shielded = |d: Delta| can_flee(own, king, d) && backed(own, king, d);
            let held = |d: Delta| is_on_board(shifted(king, d)) && own.contains(shifted(king, d));
            let cov = |d: Delta|
                is_on_board(shifted(king, d)) && is_covered(pieces, color, shifted(king, d));
            let both = |d: Delta| held(d) && is_covered(pieces, color, shifted(king, d));
            lemma_filter_three_ways(dirs, no, no, no, no);
            lemma_filter_three_ways(dirs, flee, p, q, no);
            lemma_filter_three_ways(dirs, cov, q, both, no);
            lemma_filter_fewer(dirs, both, held);
            lemma_filter_fewer(dirs, shielded, flee);
            lemma_shown_king_on_board(pieces);
            let whole = |d: Delta| is_on_board(shifted(king, d));
            let rook = ray_deltas(Role::Rook);
            assert(dirs[0] == rook[0] && dirs[1] == rook[1]);
            if king.rank > 1 {
                assert(whole(dirs[0]));
                dirs.lemma_filter_contains(whole, 0);
            } else {
                assert(whole(dirs[1]));
                dirs.lemma_filter_contains(whole, 1);
            }
        },
        None => {},
    }
}

proof fn lemma_shown_king_on_board(pieces: Seq<(Seq<char>, Role)>)
    ensures
        shown_king(pieces) matches Some(king) ==> is_on_board(king),
    decreases pieces.len(),
{
    if pieces.len() > 0 {
        lemma_shown_king_on_board(pieces.drop_first());
    }
}

/// A property that always holds keeps everything.
proof fn lemma_filter_all<A>(s: Seq<A>, p: spec_fn(A) -> bool)
    requires
        forall|x: A| #[trigger] p(x),
    ensures
        s.filter(p).len() == s.len(),
    decreases s.len(),
{
    if s.len() == 0 {
        s.lemma_filter_len(p);
    } else {
        let front = s.drop_last();
        lemma_filter_all(front, p);
        assert(s =~= front.push(s.last()));
        front.lemma_filter_push(s.last(), p);
        assert(p(s.last()));
    }
}

/// Every origin is on the board and two or more squares from the king.
pub proof fn law_origins_are_far(king: Coord, bot: Color, o: Origin)
    requires
        is_on_board(king),
        origin_list(king, bot).contains(o),
    ensures
        is_on_board(o.sq),
        o.dist >= 2,
        o.dist == span(king, o.sq),
{
    let a = knight_origins(king, bot);
    let line = |d: Delta| far_origins(king, d, OriginClass::Line);
    let diag = |d: Delta| far_origins(king, d, OriginClass::Diag);
    let b = ray_deltas(Role::Rook).flat_map(line);
    let c = ray_deltas(Role::Bishop).flat_map(diag);
    let list = origin_list(king, bot);
    let n = choose|n: int| 0 <= n < list.len() && list[n] == o;
    lemma_deltas(Role::Rook);
    lemma_deltas(Role::Bishop);
    if n < a.len() {
        let back = |d: Delta|
            Coord {
                file: (king.file - oriented(d, other_color(bot)).0) as i8,
                rank: (king.rank - oriented(d, other_color(bot)).1) as i8,
            };
        let good = |x: Coord| is_on_board(x);
        let spots = step_deltas(Role::Knight).map_values(back);
        spots.lemma_filter_pred(good, n);
        let x = spots.filter(good)[n];
        assert(spots.filter(good).contains(x));
        lemma_filter_contains_iff(spots, good, x);
        let k = choose|k: int| 0 <= k < spots.len() && spots[k] == x;
        assert(spots[k] == back(step_deltas(Role::Knight)[k]));
        assert(o.sq == x);
    } else if n < a.len() + b.len() {
        assert(b[n - a.len()] == o);
        assert(b.contains(o));
        lemma_flat_map_contains(ray_deltas(Role::Rook), line, o);
        let i = choose|i: int|
            0 <= i < ray_deltas(Role::Rook).len() && #[trigger] line(
                ray_deltas(Role::Rook)[i],
            ).contains(o);
        lemma_far_origin(king, ray_deltas(Role::Rook)[i], OriginClass::Line, o);
    } else {
        assert(c[n - a.len() - b.len()] == o);
        assert(c.contains(o));
        lemma_flat_map_contains(ray_deltas(Role::Bishop), diag, o);
        let i = choose|i: int|
            0 <= i < ray_deltas(Role::Bishop).len() && #[trigger] diag(
                ray_deltas(Role::Bishop)[i],
            ).contains(o);
        lemma_far_origin(king, ray_deltas(Role::Bishop)[i], OriginClass::Diag, o);
    }
}

proof fn lemma_far_origin(king: Coord, d: Delta, class: OriginClass, o: Origin)
    requires
        is_on_board(king),
        is_direction(d),
        far_origins(king, d, class).contains(o),
    ensures
        is_on_board(o.sq),
        o.dist >= 2,
        o.dist == span(king, o.sq),
{
    lemma_ray_reach(Set::empty(), king, d, 0);
    let list = far_origins(king, d, class);
    let j = choose|j: int| 0 <= j < list.len() && list[j] == o;
    assert(is_open(Set::empty(), along(king, d, j + 2)));
}

/// A decision of a replayed game. The turn in which a game ended without an accepted move is one,
/// too: its fouls would otherwise be missing.
#[derive(Debug)]
pub struct Snapshot {
    pub pos: Position,
    pub side: Color,
    pub logs: SideLogs,
    pub fouls: [u32; 2],
    /// The fouls that the side to move has tried at this decision.
    pub fouls_this_turn: u32,
    /// The index of the move that answers the decision.
    pub decision_id: u64,
    /// Whether no accepted move answers the decision.
    pub terminal: bool,
}

/// The mathematical content of a `Snapshot`.
pub struct SnapshotModel {
    pub pos: PositionModel,
    pub side: Color,
    pub logs: SideEvents,
    pub fouls: Seq<u32>,
    pub fouls_this_turn: u32,
    pub decision_id: u64,
    pub terminal: bool,
}

impl View for Snapshot {
    type V = SnapshotModel;

    open spec fn view(&self) -> SnapshotModel {
        SnapshotModel {
            pos: self.pos@,
            side: self.side,
            logs: self.logs@,
            fouls: self.fouls@,
            fouls_this_turn: self.fouls_this_turn,
            decision_id: self.decision_id,
            terminal: self.terminal,
        }
    }
}

/// The snapshot of a decision that a move answers.
pub open spec fn snapshot_of(d: DecisionModel) -> SnapshotModel {
    SnapshotModel {
        pos: d.pos,
        side: d.side,
        logs: d.logs,
        fouls: d.fouls,
        fouls_this_turn: d.fouls_this_turn,
        decision_id: d.plies as u64,
        terminal: false,
    }
}

/// The fouls of the turn at hand.
pub open spec fn fouls_at_hand(s: TruthState, records: Seq<FoulRecord>) -> Seq<FoulRecord> {
    records.filter(
        |f: FoulRecord| f.by_color == s.pos.turn && f.move_number == s.pos.move_number,
    )
}

/// The state after a list of fouls.
pub open spec fn after_tried(s: TruthState, tried: Seq<FoulRecord>) -> TruthState
    decreases tried.len(),
{
    if tried.len() == 0 {
        s
    } else {
        foul_taken(after_tried(s, tried.drop_last()), tried.last())
    }
}

/// All decisions of a game with the turn in which it ended, though no move may have been accepted;
/// nothing where the record does not hold together.
pub open spec fn snapshots_of(end: GameEndPayload) -> Option<Seq<SnapshotModel>> {
    let run = game_run(end);
    if !run.ok {
        None
    } else {
        let tried = fouls_at_hand(run.state, by_number(end.foul_attempts@));
        let s = after_tried(run.state, tried);
        Some(
            run.decisions.map_values(|d: DecisionModel| snapshot_of(d)).push(
                SnapshotModel {
                    pos: s.pos,
                    side: s.pos.turn,
                    logs: s.logs,
                    fouls: s.fouls,
                    fouls_this_turn: tried.len() as u32,
                    decision_id: end.moves@.len() as u64,
                    terminal: true,
                },
            ),
        )
    }
}

/// The contents of a list of snapshots.
pub open spec fn snapshot_list(snapshots: Seq<Snapshot>) -> Seq<SnapshotModel> {
    snapshots.map_values(|s: Snapshot| s@)
}

/// Adds the fouls of the turn at hand to a replayed state, and counts them.
fn try_fouls(
    records: &Vec<FoulRecord>,
    pos: &Position,
    logs: &mut SideLogs,
    fouls: &mut [u32; 2],
    Ghost(s): Ghost<TruthState>,
) -> (res: u32)
    requires
        records@.len() <= u32::MAX,
        s.pos == pos@,
        s.logs == old(logs)@,
        s.fouls == old(fouls)@,
    ensures
        res == fouls_at_hand(s, records@).len(),
        final(logs)@ == after_tried(s, fouls_at_hand(s, records@)).logs,
        final(fouls)@ == after_tried(s, fouls_at_hand(s, records@)).fouls,
        after_tried(s, fouls_at_hand(s, records@)).pos == pos@,
{
    let side = pos.turn();
    let number: u32 = pos.move_number();
    let ghost good = |f: FoulRecord| f.by_color == s.pos.turn && f.move_number == s.pos.move_number;
    let mut count: u32 = 0;
    let mut i: usize = 0;
    proof {
        records@.take(0).lemma_filter_len(good);
    }
    while i < records.len()
        invariant
            i <= records@.len() <= u32::MAX,
            s.pos == pos@,
            side == pos@.turn,
            number == pos@.move_number,
            good == (|f: FoulRecord|
                f.by_color == s.pos.turn && f.move_number == s.pos.move_number),
            count <= i,
            count == records@.take(i as int).filter(good).len(),
            logs@ == after_tried(s, records@.take(i as int).filter(good)).logs,
            fouls@ == after_tried(s, records@.take(i as int).filter(good)).fouls,
            after_tried(s, records@.take(i as int).filter(good)).pos == pos@,
        decreases records@.len() - i,
    {
        let f = &records[i];
        let ghost before = records@.take(i as int).filter(good);
        proof {
            assert(records@.take(i + 1) =~= records@.take(i as int).push(*f));
            records@.take(i as int).lemma_filter_push(*f, good);
            assert(before.push(*f).drop_last() =~= before);
        }
        if f.by_color == side && f.move_number == number {
            add_foul_obs(side, f.usi.clone(), pos, logs, fouls);
            count += 1;
        }
        i += 1;
    }
    assert(records@.take(i as int) =~= records@);
    count
}

/// Restores every decision of a finished game, the turn in which it ended among them.
pub fn decision_snapshots(end: &GameEndPayload) -> (res: Option<Vec<Snapshot>>)
    requires
        end.moves@.len() <= u32::MAX,
        end.foul_attempts@.len() <= u32::MAX,
    ensures
        res is Some <==> snapshots_of(*end) is Some,
        res matches Some(list) ==> Some(snapshot_list(list@)) == snapshots_of(*end),
{
    let replay = replay_game(end);
    if !replay.ok {
        return None;
    }
    let ghost run = game_run(*end);
    let mut out: Vec<Snapshot> = Vec::new();
    let mut i: usize = 0;
    let ghost pick = |d: DecisionModel| snapshot_of(d);
    assert(snapshot_list(out@) =~= run.decisions.take(0).map_values(pick));
    while i < replay.decisions.len()
        invariant
            i <= replay.decisions@.len(),
            pick == (|d: DecisionModel| snapshot_of(d)),
            crate::replay::decision_list(replay.decisions@) == run.decisions,
            snapshot_list(out@) == run.decisions.take(i as int).map_values(pick),
        decreases replay.decisions@.len() - i,
    {
        let d = &replay.decisions[i];
        let ghost before = out@;
        out.push(
            Snapshot {
                pos: d.pos,
                side: d.side,
                logs: d.logs.clone(),
                fouls: d.fouls,
                fouls_this_turn: d.fouls_this_turn,
                decision_id: d.plies as u64,
                terminal: false,
            },
        );
        proof {
            assert(run.decisions[i as int] == d@);
            assert(out@.last()@ == snapshot_of(d@));
            assert(snapshot_list(out@) =~= snapshot_list(before).push(out@.last()@));
            assert(run.decisions.take(i + 1).map_values(pick) =~= run.decisions.take(
                i as int,
            ).map_values(pick).push(snapshot_of(d@)));
        }
        i += 1;
    }
    assert(run.decisions.take(i as int) =~= run.decisions);
    let records = sort_fouls(&end.foul_attempts);
    proof {
        lemma_by_number_len(end.foul_attempts@);
    }
    let last = replay.last;
    let pos = last.pos;
    let mut logs = last.logs;
    let mut fouls = last.fouls;
    let fouls_this_turn: u32 = try_fouls(&records, &pos, &mut logs, &mut fouls, Ghost(run.state));
    let ghost before = out@;
    out.push(
        Snapshot {
            side: pos.turn(),
            pos,
            logs,
            fouls,
            fouls_this_turn,
            decision_id: end.moves.len() as u64,
            terminal: true,
        },
    );
    assert(snapshot_list(out@) =~= snapshot_list(before).push(out@.last()@));
    Some(out)
}

/// One snapshot for every move, in order, and one for the turn in which the game ended.
pub proof fn law_snapshots_cover_the_game(end: GameEndPayload)
    requires
        snapshots_of(end) is Some,
        end.moves@.len() <= u32::MAX,
    ensures
        snapshots_of(end)->0.len() == end.moves@.len() + 1,
        forall|i: int|
            0 <= i <= end.moves@.len() ==> {
                let s = #[trigger] snapshots_of(end)->0[i];
                s.decision_id == i && s.terminal == (i == end.moves@.len())
            },
{
    lemma_decision_ids(end.moves@, by_number(end.foul_attempts@), end.moves@.len() as int);
}

/// A game that is lost on fouls before a move was accepted has one snapshot: the turn in which it
/// ended, at the initial position, with all those fouls.
pub proof fn law_game_lost_before_a_move(end: GameEndPayload)
    requires
        end.moves@.len() == 0,
        end.foul_attempts@.len() <= u32::MAX,
        forall|i: int|
            0 <= i < end.foul_attempts@.len() ==> {
                let f = #[trigger] end.foul_attempts@[i];
                f.by_color == Color::Sente && f.move_number == 1
            },
    ensures
        snapshots_of(end) is Some,
        snapshots_of(end)->0.len() == 1,
        ({
            let s = snapshots_of(end)->0[0];
            let n = end.foul_attempts@.len();
            s.terminal && s.decision_id == 0 && s.side == Color::Sente && s.pos == initial_model()
                && s.fouls_this_turn == n && s.fouls == seq![n as u32, 0u32]
        }),
{
    let fouls = end.foul_attempts@;
    let start = truth_start();
    lemma_one_turn(fouls);
    lemma_all_at_hand(fouls);
    lemma_tried_counts(fouls, fouls.len() as int);
    assert(fouls.take(fouls.len() as int) =~= fouls);
    assert(game_run(end).state == start);
}

/// Records of one move number keep their order.
proof fn lemma_one_turn(fouls: Seq<FoulRecord>)
    requires
        forall|i: int| 0 <= i < fouls.len() ==> (#[trigger] fouls[i]).move_number == 1,
    ensures
        by_number(fouls) == fouls,
    decreases fouls.len(),
{
    if fouls.len() > 0 {
        let rest = fouls.drop_last();
        assert forall|i: int| 0 <= i < rest.len() implies (#[trigger] rest[i]).move_number == 1 by {
            assert(fouls[i].move_number == 1);
        }
        lemma_one_turn(rest);
        assert(fouls.last().move_number == 1);
        assert(rest.len() > 0 ==> rest.last().move_number == 1);
        assert(rest.push(fouls.last()) =~= fouls);
    } else {
        assert(by_number(fouls) =~= fouls);
    }
}

/// Fouls of the first turn are all at hand at the start.
proof fn lemma_all_at_hand(fouls: Seq<FoulRecord>)
    requires
        forall|i: int|
            0 <= i < fouls.len() ==> {
                let f = #[trigger] fouls[i];
                f.by_color == Color::Sente && f.move_number == 1
            },
    ensures
        fouls_at_hand(truth_start(), fouls) == fouls,
    decreases fouls.len(),
{
    let s = truth_start();
    let hit = |f: FoulRecord| f.by_color == s.pos.turn && f.move_number == s.pos.move_number;
    if fouls.len() > 0 {
        let rest = fouls.drop_last();
        assert forall|i: int| 0 <= i < rest.len() implies {
            let f = #[trigger] rest[i];
            f.by_color == Color::Sente && f.move_number == 1
        } by {
            assert(fouls[i].move_number == 1);
        }
        lemma_all_at_hand(rest);
        let last = fouls.last();
        assert(fouls[fouls.len() - 1].move_number == 1);
        rest.lemma_filter_push(last, hit);
        assert(rest.push(last) =~= fouls);
    } else {
        fouls.lemma_filter_len(hit);
        assert(fouls.filter(hit) =~= fouls);
    }
}

/// Each foul of the first turn raises the count of the first side.
proof fn lemma_tried_counts(fouls: Seq<FoulRecord>, n: int)
    requires
        0 <= n <= fouls.len() <= u32::MAX,
    ensures
        ({
            let s = after_tried(truth_start(), fouls.take(n));
            s.pos == initial_model() && s.fouls == seq![n as u32, 0u32]
        }),
    decreases n,
{
    let t = fouls.take(n);
    if n > 0 {
        lemma_tried_counts(fouls, n - 1);
        assert(t.drop_last() =~= fouls.take(n - 1));
        let s = after_tried(truth_start(), t);
        assert(s.fouls =~= seq![n as u32, 0u32]);
    }
}

pub proof fn lemma_decision_ids(moves: Seq<MoveRecord>, records: Seq<FoulRecord>, k: int)
    requires
        0 <= k <= u32::MAX,
        truth_run(moves, records, k).ok,
    ensures
        truth_run(moves, records, k).decisions.len() == k,
        forall|i: int|
            0 <= i < k ==> (#[trigger] truth_run(moves, records, k).decisions[i]).plies == i,
    decreases k,
{
    if k > 0 {
        lemma_decision_ids(moves, records, k - 1);
    }
}

} // verus!
