//! What the roles can do, told by the files and ranks of the squares they go between.

use crate::board::{
    along, is_on_board, is_open, law_move_targets, oriented, ray_deltas, runs_onto, scaled, shifted,
    step_deltas, steps_onto, targets_from, Coord,
};
use crate::protocol::{Color, Role};
use crate::shogi::{attacks_from, ray_hits, run_reaches, step_hits, PositionModel};
use vstd::prelude::*;

verus! {

/// How far a square lies ahead of another, as a side looks at the board.
pub open spec fn ahead(from: Coord, to: Coord, color: Color) -> int {
    match color {
        Color::Sente => from.rank - to.rank,
        Color::Gote => to.rank - from.rank,
    }
}

/// The distance between two files.
pub open spec fn aside(from: Coord, to: Coord) -> int {
    if from.file <= to.file {
        to.file - from.file
    } else {
        from.file - to.file
    }
}

/// The square `k` steps from one square towards another on the same file, rank or diagonal.
pub open spec fn on_the_way(from: Coord, to: Coord, k: int) -> Coord {
    Coord {
        file: (if from.file < to.file {
            from.file + k
        } else if from.file > to.file {
            from.file - k
        } else {
            from.file as int
        }) as i8,
        rank: (if from.rank < to.rank {
            from.rank + k
        } else if from.rank > to.rank {
            from.rank - k
        } else {
            from.rank as int
        }) as i8,
    }
}

/// Whether nothing of a set stands between two squares `n` steps apart.
pub open spec fn way_is_free(own: Set<Coord>, from: Coord, to: Coord, n: int) -> bool {
    forall|k: int| 0 < k < n ==> !own.contains(#[trigger] on_the_way(from, to, k))
}

/// A pawn goes one square straight ahead.
pub proof fn law_pawn(own: Set<Coord>, from: Coord, to: Coord, color: Color)
    requires
        is_on_board(from),
    ensures
        targets_from(own, from, Role::Pawn, color).contains(to) <==> is_on_board(to) && !own.contains(
            to,
        ) && ahead(from, to, color) == 1 && from.file == to.file,
{
    lemma_targets(own, from, Role::Pawn, color, to);
}

/// A knight jumps two squares ahead and one aside, whatever stands between.
pub proof fn law_knight(own: Set<Coord>, from: Coord, to: Coord, color: Color)
    requires
        is_on_board(from),
    ensures
        targets_from(own, from, Role::Knight, color).contains(to) <==> is_on_board(to)
            && !own.contains(to) && ahead(from, to, color) == 2 && aside(from, to) == 1,
{
    lemma_targets(own, from, Role::Knight, color, to);
}

/// A silver goes one square straight ahead or one square along any diagonal.
pub proof fn law_silver(own: Set<Coord>, from: Coord, to: Coord, color: Color)
    requires
        is_on_board(from),
    ensures
        targets_from(own, from, Role::Silver, color).contains(to) <==> is_on_board(to)
            && !own.contains(to) && ((ahead(from, to, color) == 1 && from.file == to.file) || (aside(
            from,
            to,
        ) == 1 && (ahead(from, to, color) == 1 || ahead(from, to, color) == -1))),
{
    lemma_targets(own, from, Role::Silver, color, to);
}

/// A gold, and a promoted pawn, lance, knight or silver, goes to any neighbouring square but the two
/// diagonal ones behind it.
pub proof fn law_gold(own: Set<Coord>, from: Coord, to: Coord, role: Role, color: Color)
    requires
        is_on_board(from),
        role == Role::Gold || role == Role::Tokin || role == Role::Promotedlance || role
            == Role::Promotedknight || role == Role::Promotedsilver,
    ensures
        targets_from(own, from, role, color).contains(to) <==> is_on_board(to) && !own.contains(to)
            && from != to && aside(from, to) <= 1 && -1 <= ahead(from, to, color) <= 1 && !(aside(
            from,
            to,
        ) == 1 && ahead(from, to, color) == -1),
{
    lemma_targets(own, from, role, color, to);
}

/// A king goes to any neighbouring square.
pub proof fn law_king(own: Set<Coord>, from: Coord, to: Coord, color: Color)
    requires
        is_on_board(from),
    ensures
        targets_from(own, from, Role::King, color).contains(to) <==> is_on_board(to) && !own.contains(
            to,
        ) && from != to && aside(from, to) <= 1 && -1 <= ahead(from, to, color) <= 1,
{
    lemma_targets(own, from, Role::King, color, to);
}

/// A lance runs straight ahead as far as the way is free.
pub proof fn law_lance(own: Set<Coord>, from: Coord, to: Coord, color: Color)
    requires
        is_on_board(from),
    ensures
        targets_from(own, from, Role::Lance, color).contains(to) <==> is_on_board(to)
            && !own.contains(to) && from.file == to.file && ahead(from, to, color) >= 1
            && way_is_free(own, from, to, ahead(from, to, color)),
{
    lemma_targets(own, from, Role::Lance, color, to);
    lemma_ways(own, from, to, color);
}

/// A bishop runs along the diagonals as far as the way is free; a horse does so too, and goes one
/// square straight in any direction.
pub proof fn law_bishop(own: Set<Coord>, from: Coord, to: Coord, color: Color)
    requires
        is_on_board(from),
    ensures
        targets_from(own, from, Role::Bishop, color).contains(to) <==> is_on_board(to)
            && !own.contains(to) && aside(from, to) >= 1 && (ahead(from, to, color) == aside(from, to)
            || ahead(from, to, color) == -aside(from, to)) && way_is_free(
            own,
            from,
            to,
            aside(from, to),
        ),
        targets_from(own, from, Role::Horse, color).contains(to) <==> targets_from(
            own,
            from,
            Role::Bishop,
            color,
        ).contains(to) || targets_from(own, from, Role::King, color).contains(to),
{
    lemma_targets(own, from, Role::Bishop, color, to);
    lemma_targets(own, from, Role::Horse, color, to);
    lemma_targets(own, from, Role::King, color, to);
    lemma_ways(own, from, to, color);
}

/// A rook runs along its file and its rank as far as the way is free; a dragon does so too, and goes
/// one square along any diagonal.
pub proof fn law_rook(own: Set<Coord>, from: Coord, to: Coord, color: Color)
    requires
        is_on_board(from),
    ensures
        targets_from(own, from, Role::Rook, color).contains(to) <==> is_on_board(to)
            && !own.contains(to) && from != to && ((from.file == to.file && way_is_free(
            own,
            from,
            to,
            if from.rank < to.rank {
                to.rank - from.rank
            } else {
                from.rank - to.rank
            },
        )) || (from.rank == to.rank && way_is_free(own, from, to, aside(from, to)))),
        targets_from(own, from, Role::Dragon, color).contains(to) <==> targets_from(
            own,
            from,
            Role::Rook,
            color,
        ).contains(to) || targets_from(own, from, Role::King, color).contains(to),
{
    lemma_targets(own, from, Role::Rook, color, to);
    lemma_targets(own, from, Role::Dragon, color, to);
    lemma_targets(own, from, Role::King, color, to);
    lemma_ways(own, from, to, color);
}

/// A piece attacks a square exactly where its role could go there with all other pieces in the way,
/// whatever stands on the square itself.
pub proof fn law_attacks_are_moves(m: PositionModel, from: Coord, to: Coord)
    ensures
        attacks_from(m, from, to) <==> is_on_board(from) && is_on_board(to) && (m.at(from) matches Some(
            p,
        ) && targets_from(
            Set::new(|c: Coord| m.at(c) is Some && c != to),
            from,
            p.role,
            p.color,
        ).contains(to)),
{
    if is_on_board(from) && is_on_board(to) && m.at(from) is Some {
        let p = m.at(from)->0;
        let own = Set::new(|c: Coord| m.at(c) is Some && c != to);
        law_move_targets(own, from, p.role, p.color, to);
        if step_hits(p.role, p.color, from, to) {
            let i = choose|i: int|
                0 <= i < step_deltas(p.role).len() && #[trigger] shifted(
                    from,
                    oriented(step_deltas(p.role)[i], p.color),
                ) == to;
            assert(steps_onto(own, from, p.role, p.color, to, i));
        }
        if exists|i: int| #[trigger] steps_onto(own, from, p.role, p.color, to, i) {
            let i = choose|i: int| #[trigger] steps_onto(own, from, p.role, p.color, to, i);
            assert(shifted(from, oriented(step_deltas(p.role)[i], p.color)) == to);
        }
        if ray_hits(m, p.role, p.color, from, to) {
            let (i, n) = choose|i: int, n: int| #[trigger]
                run_reaches(m, p.role, p.color, from, to, i, n);
            let d = oriented(ray_deltas(p.role)[i], p.color);
            lemma_run(p.role, i);
            assert forall|k: int| 0 < k <= n implies is_open(own, #[trigger] along(from, d, k)) by {
                if k < n {
                    assert(is_on_board(along(from, d, k)) && m.at(along(from, d, k)) is None);
                }
            }
            assert(runs_onto(own, from, p.role, p.color, to, i, n));
        }
        if exists|i: int, n: int| #[trigger] runs_onto(own, from, p.role, p.color, to, i, n) {
            let (i, n) = choose|i: int, n: int| #[trigger]
                runs_onto(own, from, p.role, p.color, to, i, n);
            let d = oriented(ray_deltas(p.role)[i], p.color);
            lemma_run(p.role, i);
            lemma_same_way(from, to, ray_deltas(p.role)[i], p.color, n);
            assert forall|k: int| 0 < k < n implies is_on_board(#[trigger] along(from, d, k)) && m.at(
                along(from, d, k),
            ) is None by {
                assert(is_open(own, along(from, d, k)));
                assert(along(from, d, k) != to);
            }
            assert(run_reaches(m, p.role, p.color, from, to, i, n));
        }
    }
}

/// The displacement from one square to another, as the side that moves sees it.
spec fn seen(from: Coord, to: Coord, color: Color) -> (int, int) {
    match color {
        Color::Sente => (to.file - from.file, to.rank - from.rank),
        Color::Gote => (from.file - to.file, from.rank - to.rank),
    }
}

/// Whether the first `n` squares towards another are open.
spec fn open_way(own: Set<Coord>, from: Coord, to: Coord, n: int) -> bool {
    forall|k: int| 0 < k <= n ==> is_open(own, #[trigger] on_the_way(from, to, k))
}

proof fn lemma_targets(own: Set<Coord>, from: Coord, role: Role, color: Color, to: Coord)
    requires
        is_on_board(from),
    ensures
        ({
            let (f, r) = seen(from, to, color);
            let n = if f > 0 {
                f
            } else if f < 0 {
                -f
            } else if r > 0 {
                r
            } else {
                -r
            };
            &&& targets_from(own, from, role, color).contains(to) <==> (is_open(own, to) && step_form(
                role,
                f,
                r,
            )) || (n >= 1 && is_on_board(to) && run_form(role, f, r) && open_way(own, from, to, n))
        }),
{
    law_move_targets(own, from, role, color, to);
    let (f, r) = seen(from, to, color);
    let n = if f > 0 {
        f
    } else if f < 0 {
        -f
    } else if r > 0 {
        r
    } else {
        -r
    };
    if exists|i: int| #[trigger] steps_onto(own, from, role, color, to, i) {
        let i = choose|i: int| #[trigger] steps_onto(own, from, role, color, to, i);
        lemma_step(role, i);
        let d = step_deltas(role)[i];
        assert(d.0 == f && d.1 == r);
    }
    if is_open(own, to) && step_form(role, f, r) {
        let i = lemma_step_place(role, f, r);
        assert(steps_onto(own, from, role, color, to, i));
    }
    if exists|i: int, k: int| #[trigger] runs_onto(own, from, role, color, to, i, k) {
        let (i, k) = choose|i: int, k: int| #[trigger] runs_onto(own, from, role, color, to, i, k);
        let d = ray_deltas(role)[i];
        lemma_run(role, i);
        assert(along(from, oriented(d, color), k) == to);
        assert(is_open(own, along(from, oriented(d, color), k)));
        lemma_same_way(from, to, d, color, k);
        assert(n == k);
        assert forall|j: int| 0 < j <= n implies is_open(own, #[trigger] on_the_way(from, to, j)) by {
            assert(on_the_way(from, to, j) == along(from, oriented(d, color), j));
            assert(is_open(own, along(from, oriented(d, color), j)));
        }
    }
    if n >= 1 && is_on_board(to) && run_form(role, f, r) && open_way(own, from, to, n) {
        let i = lemma_run_place(role, f, r, n);
        let d = ray_deltas(role)[i];
        assert(along(from, oriented(d, color), n) == to);
        lemma_same_way(from, to, d, color, n);
        assert forall|j: int| 0 < j <= n implies is_open(
            own,
            #[trigger] along(from, oriented(d, color), j),
        ) by {
            assert(on_the_way(from, to, j) == along(from, oriented(d, color), j));
        }
        assert(runs_onto(own, from, role, color, to, i, n));
    }
}

/// The squares of a run are those on the way to its end.
proof fn lemma_same_way(from: Coord, to: Coord, d: (i8, i8), color: Color, n: int)
    requires
        is_on_board(from),
        is_on_board(to),
        -1 <= d.0 <= 1,
        -1 <= d.1 <= 1,
        1 <= n <= 8,
        along(from, oriented(d, color), n) == to,
    ensures
        forall|j: int|
            0 < j <= n ==> #[trigger] on_the_way(from, to, j) == along(
                from,
                oriented(d, color),
                j,
            ),
        seen(from, to, color).0 == scaled(d.0, n),
        seen(from, to, color).1 == scaled(d.1, n),
{
    let o = oriented(d, color);
    assert(-8 <= scaled(o.0, n) <= 8 && -8 <= scaled(o.1, n) <= 8);
    assert(to.file == from.file + scaled(o.0, n));
    assert(to.rank == from.rank + scaled(o.1, n));
}

/// The steps of a role, told apart: `f` files to the left and `r` ranks back as Sente sees it.
spec fn step_form(role: Role, f: int, r: int) -> bool {
    match role {
        Role::Pawn => f == 0 && r == -1,
        Role::Knight => (f == 1 || f == -1) && r == -2,
        Role::Silver => (f == 0 && r == -1) || ((f == 1 || f == -1) && (r == 1 || r == -1)),
        Role::Gold
        | Role::Tokin
        | Role::Promotedlance
        | Role::Promotedknight
        | Role::Promotedsilver => -1 <= f <= 1 && -1 <= r <= 1 && !(f == 0 && r == 0) && !(r == 1
            && f != 0),
        Role::King => -1 <= f <= 1 && -1 <= r <= 1 && !(f == 0 && r == 0),
        Role::Horse => (f == 0 && (r == 1 || r == -1)) || (r == 0 && (f == 1 || f == -1)),
        Role::Dragon => (f == 1 || f == -1) && (r == 1 || r == -1),
        _ => false,
    }
}

/// The directions in which a role runs.
spec fn run_form(role: Role, f: int, r: int) -> bool {
    match role {
        Role::Lance => f == 0 && r < 0,
        Role::Bishop | Role::Horse => f != 0 && (f == r || f == -r),
        Role::Rook | Role::Dragon => (f == 0) != (r == 0),
        _ => false,
    }
}

proof fn lemma_step(role: Role, i: int)
    requires
        0 <= i < step_deltas(role).len(),
    ensures
        step_form(role, step_deltas(role)[i].0 as int, step_deltas(role)[i].1 as int),
        -2 <= step_deltas(role)[i].0 <= 2,
        -2 <= step_deltas(role)[i].1 <= 2,
{
}

proof fn lemma_run(role: Role, i: int)
    requires
        0 <= i < ray_deltas(role).len(),
    ensures
        run_form(role, ray_deltas(role)[i].0 as int, ray_deltas(role)[i].1 as int),
        -1 <= ray_deltas(role)[i].0 <= 1,
        -1 <= ray_deltas(role)[i].1 <= 1,
{
}

proof fn lemma_step_place(role: Role, f: int, r: int) -> (i: int)
    requires
        step_form(role, f, r),
    ensures
        0 <= i < step_deltas(role).len(),
        step_deltas(role)[i].0 == f,
        step_deltas(role)[i].1 == r,
{
    let s = step_deltas(role);
    if s.len() > 0 && s[0].0 == f && s[0].1 == r {
        0
    } else if s.len() > 1 && s[1].0 == f && s[1].1 == r {
        1
    } else if s.len() > 2 && s[2].0 == f && s[2].1 == r {
        2
    } else if s.len() > 3 && s[3].0 == f && s[3].1 == r {
        3
    } else if s.len() > 4 && s[4].0 == f && s[4].1 == r {
        4
    } else if s.len() > 5 && s[5].0 == f && s[5].1 == r {
        5
    } else if s.len() > 6 && s[6].0 == f && s[6].1 == r {
        6
    } else {
        7
    }
}

proof fn lemma_run_place(role: Role, f: int, r: int, n: int) -> (i: int)
    requires
        run_form(role, f, r),
        n >= 1,
        n == f || n == -f || (f == 0 && (n == r || n == -r)),
    ensures
        0 <= i < ray_deltas(role).len(),
        scaled(ray_deltas(role)[i].0, n) == f,
        scaled(ray_deltas(role)[i].1, n) == r,
{
    let s = ray_deltas(role);
    if s.len() > 0 && scaled(s[0].0, n) == f && scaled(s[0].1, n) == r {
        0
    } else if s.len() > 1 && scaled(s[1].0, n) == f && scaled(s[1].1, n) == r {
        1
    } else if s.len() > 2 && scaled(s[2].0, n) == f && scaled(s[2].1, n) == r {
        2
    } else {
        3
    }
}

/// Between two squares on the board every square on the way is on the board.
proof fn lemma_ways(own: Set<Coord>, from: Coord, to: Coord, color: Color)
    requires
        is_on_board(from),
    ensures
        ({
            let (f, r) = seen(from, to, color);
            let n = if f > 0 {
                f
            } else if f < 0 {
                -f
            } else if r > 0 {
                r
            } else {
                -r
            };
            n >= 1 && is_on_board(to) && (f == 0 || r == 0 || f == r || f == -r) ==> (open_way(
                own,
                from,
                to,
                n,
            ) <==> !own.contains(to) && way_is_free(own, from, to, n))
        }),
{
    let (f, r) = seen(from, to, color);
    let n = if f > 0 {
        f
    } else if f < 0 {
        -f
    } else if r > 0 {
        r
    } else {
        -r
    };
    if n >= 1 && is_on_board(to) && (f == 0 || r == 0 || f == r || f == -r) {
        assert(on_the_way(from, to, n) == to);
        assert forall|k: int| 0 < k <= n implies is_on_board(#[trigger] on_the_way(from, to, k)) by {
        }
        if open_way(own, from, to, n) {
            assert(is_open(own, on_the_way(from, to, n)));
            assert forall|k: int| 0 < k < n implies !own.contains(
                #[trigger] on_the_way(from, to, k),
            ) by {
                assert(is_open(own, on_the_way(from, to, k)));
            }
        }
    }
}

/// No role stays where it is.
pub proof fn lemma_goes_elsewhere(own: Set<Coord>, from: Coord, to: Coord, role: Role, color: Color)
    requires
        is_on_board(from),
        targets_from(own, from, role, color).contains(to),
    ensures
        from != to,
{
    lemma_targets(own, from, role, color, to);
}

} // verus!
