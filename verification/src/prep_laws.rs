//! What the preparation against checks is measured by: from where the king can be checked, which squares
//! the own pieces cover, how open the king stands, and which checks follow each other.

use crate::board::{
    along, is_on_board, is_open, law_move_targets, lemma_deltas, lemma_ray_reach, oriented, ray_deltas,
    ray_reach, runs_onto, shifted, square_of_text, square_text, step_deltas, steps_onto, targets_from, Coord, Delta,
};
use crate::check_economy::{checker_list, is_true_checker};
use crate::check_prep::{
    after_tried, backed, bucket_of, can_flee, chase_at, chase_class, far_origins, first_on, fouls_at_hand,
    fouls_by, home_of, king_dirs, knight_origins, known_enemies, law_origins_are_far, list_after,
    open_squares, open_to_edge, origin_list, piece_covers, run_covers, runs_cover, steps_cover,
    takes_without_king, ChaseClass, Origin, OriginClass,
};
use crate::geometry::{ahead, aside};
use crate::lists::{lemma_filter_contains_iff, lemma_filter_push, lemma_flat_map_contains};
use crate::observation::Event;
use crate::protocol::{other_color, Color, FoulRecord, MoveRecord, Role};
use crate::replay::TruthState;
use crate::shogi::{
    attacks_from, checked, king_of, legal, move_of_text, step_hits, Position, PositionModel,
    ShogiMove,
};
use vstd::prelude::*;

verus! {

/// How far two squares are apart in ranks.
pub open spec fn apart(a: Coord, b: Coord) -> int {
    if a.rank <= b.rank {
        b.rank - a.rank
    } else {
        a.rank - b.rank
    }
}

/// The squares from which the king can be checked from afar: those a knight of the opponent jumps from,
/// and all on the king's file, rank and diagonals that are not next to it, with their distance.
pub proof fn law_origins(king: Coord, bot: Color, o: Origin)
    requires
        is_on_board(king),
    ensures
        origin_list(king, bot).contains(o) <==> is_on_board(o.sq) && o.dist >= 2 && (match o.class {
            OriginClass::Knight => o.dist == 2 && aside(o.sq, king) == 1 && ahead(
                o.sq,
                king,
                other_color(bot),
            ) == 2,
            OriginClass::Line => (o.sq.file == king.file && apart(o.sq, king) == o.dist) || (o.sq.rank
                == king.rank && aside(o.sq, king) == o.dist),
            OriginClass::Diag => aside(o.sq, king) == o.dist && apart(o.sq, king) == o.dist,
        }),
{
    let a = knight_origins(king, bot);
    let line = |d: Delta| far_origins(king, d, OriginClass::Line);
    let diag = |d: Delta| far_origins(king, d, OriginClass::Diag);
    let b = ray_deltas(Role::Rook).flat_map(line);
    let c = ray_deltas(Role::Bishop).flat_map(diag);
    let list = origin_list(king, bot);
    lemma_deltas(Role::Rook);
    lemma_deltas(Role::Bishop);
    lemma_flat_map_contains(ray_deltas(Role::Rook), line, o);
    lemma_flat_map_contains(ray_deltas(Role::Bishop), diag, o);
    assert(list =~= a + b + c);
    assert(list.contains(o) <==> a.contains(o) || b.contains(o) || c.contains(o)) by {
        if a.contains(o) {
            let n = choose|n: int| 0 <= n < a.len() && a[n] == o;
            assert(list[n] == o);
        }
        if b.contains(o) {
            let n = choose|n: int| 0 <= n < b.len() && b[n] == o;
            assert(list[a.len() + n] == o);
        }
        if c.contains(o) {
            let n = choose|n: int| 0 <= n < c.len() && c[n] == o;
            assert(list[a.len() + b.len() + n] == o);
        }
        if list.contains(o) {
            let n = choose|n: int| 0 <= n < list.len() && list[n] == o;
            if n < a.len() {
                assert(a[n] == o);
            } else if n < a.len() + b.len() {
                assert(b[n - a.len()] == o);
            } else {
                assert(c[n - a.len() - b.len()] == o);
            }
        }
    }
    lemma_knight_origins(king, bot, o);
    assert(ray_deltas(Role::Rook) =~= seq![(0i8, -1i8), (0i8, 1i8), (1i8, 0i8), (-1i8, 0i8)]);
    assert(ray_deltas(Role::Bishop) =~= seq![
        (1i8, -1i8),
        (-1i8, -1i8),
        (1i8, 1i8),
        (-1i8, 1i8),
    ]);
    assert forall|i: int| 0 <= i < 4 implies (#[trigger] line(ray_deltas(Role::Rook)[i]).contains(o) <==> (
    o.class == OriginClass::Line && 2 <= o.dist <= 8 && is_on_board(o.sq) && o.sq == along(
        king,
        ray_deltas(Role::Rook)[i],
        o.dist as int,
    ))) by {
        lemma_far(king, ray_deltas(Role::Rook)[i], OriginClass::Line, o);
    }
    assert forall|i: int| 0 <= i < 4 implies (#[trigger] diag(ray_deltas(Role::Bishop)[i]).contains(o) <==> (
    o.class == OriginClass::Diag && 2 <= o.dist <= 8 && is_on_board(o.sq) && o.sq == along(
        king,
        ray_deltas(Role::Bishop)[i],
        o.dist as int,
    ))) by {
        lemma_far(king, ray_deltas(Role::Bishop)[i], OriginClass::Diag, o);
    }
    if list.contains(o) {
        law_origins_are_far(king, bot, o);
    }
    if is_on_board(o.sq) && o.dist >= 2 {
        if o.class == OriginClass::Line && o.sq.file == king.file && apart(o.sq, king) == o.dist {
            if o.sq.rank < king.rank {
                assert(line(ray_deltas(Role::Rook)[0]).contains(o));
            } else {
                assert(line(ray_deltas(Role::Rook)[1]).contains(o));
            }
        }
        if o.class == OriginClass::Line && o.sq.rank == king.rank && aside(o.sq, king) == o.dist {
            if o.sq.file > king.file {
                assert(line(ray_deltas(Role::Rook)[2]).contains(o));
            } else {
                assert(line(ray_deltas(Role::Rook)[3]).contains(o));
            }
        }
        if o.class == OriginClass::Diag && aside(o.sq, king) == o.dist && apart(o.sq, king) == o.dist {
            if o.sq.file > king.file {
                if o.sq.rank < king.rank {
                    assert(diag(ray_deltas(Role::Bishop)[0]).contains(o));
                } else {
                    assert(diag(ray_deltas(Role::Bishop)[2]).contains(o));
                }
            } else {
                if o.sq.rank < king.rank {
                    assert(diag(ray_deltas(Role::Bishop)[1]).contains(o));
                } else {
                    assert(diag(ray_deltas(Role::Bishop)[3]).contains(o));
                }
            }
        }
    }
}

proof fn lemma_far(king: Coord, d: Delta, class: OriginClass, o: Origin)
    requires
        is_on_board(king),
        crate::board::is_direction(d),
    ensures
        far_origins(king, d, class).contains(o) <==> o.class == class && o.dist >= 2 && is_on_board(o.sq)
            && o.sq == along(king, d, o.dist as int) && o.dist <= 8,
{
    let list = far_origins(king, d, class);
    let reach = ray_reach(Set::empty(), king, d, 0);
    lemma_ray_reach(Set::empty(), king, d, 0);
    if list.contains(o) {
        let j = choose|j: int| 0 <= j < list.len() && list[j] == o;
        assert(is_open(Set::empty(), along(king, d, j + 2)));
    }
    if o.class == class && o.dist >= 2 && is_on_board(o.sq) && o.sq == along(king, d, o.dist as int)
        && o.dist <= 8 {
        if reach < o.dist {
            assert(is_on_board(along(king, d, (reach + 1) as int)));
            assert(is_open(Set::empty(), along(king, d, (reach + 1) as int)));
        }
        assert(list[o.dist - 2] == o);
    }
}

proof fn lemma_knight_origins(king: Coord, bot: Color, o: Origin)
    requires
        is_on_board(king),
    ensures
        knight_origins(king, bot).contains(o) <==> is_on_board(o.sq) && o.class == OriginClass::Knight
            && o.dist == 2 && aside(o.sq, king) == 1 && ahead(o.sq, king, other_color(bot)) == 2,
{
    let back = |d: Delta|
        Coord {
            file: (king.file - oriented(d, other_color(bot)).0) as i8,
            rank: (king.rank - oriented(d, other_color(bot)).1) as i8,
        };
    let good = |x: Coord| is_on_board(x);
    let spots = step_deltas(Role::Knight).map_values(back);
    let kept = spots.filter(good);
    let list = knight_origins(king, bot);
    lemma_filter_contains_iff(spots, good, o.sq);
    assert(spots.len() == 2);
    assert(spots[0] == back((1i8, -2i8)));
    assert(spots[1] == back((-1i8, -2i8)));
    if list.contains(o) {
        let n = choose|n: int| 0 <= n < list.len() && list[n] == o;
        assert(kept[n] == o.sq);
        assert(kept.contains(o.sq));
    }
    if is_on_board(o.sq) && o.class == OriginClass::Knight && o.dist == 2 && aside(o.sq, king) == 1
        && ahead(o.sq, king, other_color(bot)) == 2 {
        assert(o.sq == spots[0] || o.sq == spots[1]);
        assert(spots.contains(o.sq));
        let n = choose|n: int| 0 <= n < kept.len() && kept[n] == o.sq;
        assert(list[n] == o);
    }
}

/// A piece covers a square where it could go if no own piece stood on that very square; the king covers
/// none. A lance, bishop or rook covers by runs alone, and of the others only a horse or a dragon runs.
pub proof fn law_cover(own: Set<Coord>, p: (Seq<char>, Role), color: Color, from: Coord, c: Coord)
    requires
        square_of_text(p.0) == Some(from),
        is_on_board(from),
        is_on_board(c),
    ensures
        piece_covers(own, p, color, c) <==> p.1 != Role::King && targets_from(
            own.remove(c),
            from,
            p.1,
            color,
        ).contains(c),
        p.1 == Role::Lance || p.1 == Role::Bishop || p.1 == Role::Rook ==> !steps_cover(p, color, c),
        p.1 != Role::Lance && p.1 != Role::Bishop && p.1 != Role::Rook && p.1 != Role::Horse && p.1
            != Role::Dragon ==> !runs_cover(own, p, color, c),
{
    let rest = own.remove(c);
    law_move_targets(rest, from, p.1, color, c);
    lemma_deltas(p.1);
    assert(is_open(rest, c));
    if p.1 != Role::King {
        if step_hits(p.1, color, from, c) {
            let i = choose|i: int|
                0 <= i < step_deltas(p.1).len() && #[trigger] shifted(
                    from,
                    oriented(step_deltas(p.1)[i], color),
                ) == c;
            assert(steps_onto(rest, from, p.1, color, c, i));
        }
        if exists|i: int| #[trigger] steps_onto(rest, from, p.1, color, c, i) {
            let i = choose|i: int| #[trigger] steps_onto(rest, from, p.1, color, c, i);
            assert(shifted(from, oriented(step_deltas(p.1)[i], color)) == c);
            assert(step_hits(p.1, color, from, c));
        }
        if exists|i: int, n: int| #[trigger] run_covers(own, p.1, color, from, c, i, n) {
            let (i, n) = choose|i: int, n: int| #[trigger] run_covers(own, p.1, color, from, c, i, n);
            let d = oriented(ray_deltas(p.1)[i], color);
            assert forall|k: int| 0 < k <= n implies is_open(rest, #[trigger] along(from, d, k)) by {
                if k < n {
                    assert(is_open(own, along(from, d, k)));
                }
            }
            assert(runs_onto(rest, from, p.1, color, c, i, n));
        }
        if exists|i: int, n: int| #[trigger] runs_onto(rest, from, p.1, color, c, i, n) {
            let (i, n) = choose|i: int, n: int| #[trigger] runs_onto(rest, from, p.1, color, c, i, n);
            let d = oriented(ray_deltas(p.1)[i], color);
            assert(crate::board::is_direction(ray_deltas(p.1)[i]));
            assert forall|k: int| 0 < k < n implies is_open(own, #[trigger] along(from, d, k)) by {
                assert(is_open(rest, along(from, d, k)));
                assert(along(from, d, k) != along(from, d, n));
            }
            assert(run_covers(own, p.1, color, from, c, i, n));
        }
    }
}

/// The directions around the king are the eight to its neighbours, none twice.
pub proof fn law_directions(d: Delta)
    ensures
        king_dirs().contains(d) <==> -1 <= d.0 <= 1 && -1 <= d.1 <= 1 && (d.0 != 0 || d.1 != 0),
        king_dirs().len() == 8,
        king_dirs().no_duplicates(),
{
    let dirs = king_dirs();
    assert(dirs =~= seq![
        (0i8, -1i8),
        (0i8, 1i8),
        (1i8, 0i8),
        (-1i8, 0i8),
        (1i8, -1i8),
        (-1i8, -1i8),
        (1i8, 1i8),
        (-1i8, 1i8),
    ]);
    assert(dirs[0] == (0i8, -1i8) && dirs[1] == (0i8, 1i8) && dirs[2] == (1i8, 0i8) && dirs[3] == (
    -1i8, 0i8));
    assert(dirs[4] == (1i8, -1i8) && dirs[5] == (-1i8, -1i8) && dirs[6] == (1i8, 1i8) && dirs[7] == (
    -1i8, 1i8));
    if -1 <= d.0 <= 1 && -1 <= d.1 <= 1 && (d.0 != 0 || d.1 != 0) {
        assert(d == dirs[0] || d == dirs[1] || d == dirs[2] || d == dirs[3] || d == dirs[4] || d
            == dirs[5] || d == dirs[6] || d == dirs[7]);
    }
}

/// A direction is open where no own piece stands on it up to the edge; the king can flee next to itself
/// where the board goes on and no own piece stands; a flight is backed where the square behind it is
/// off the board or an own piece stands there.
pub proof fn law_open_directions(own: Set<Coord>, king: Coord, d: Delta)
    requires
        is_on_board(king),
        crate::board::is_direction(d),
    ensures
        open_to_edge(own, king, d) <==> forall|k: int|
            1 <= k <= 8 && is_on_board(#[trigger] along(king, d, k)) ==> !own.contains(along(king, d, k)),
        can_flee(own, king, d) <==> is_on_board(along(king, d, 1)) && !own.contains(along(king, d, 1)),
        backed(own, king, d) <==> !is_on_board(along(king, d, 2)) || own.contains(along(king, d, 2)),
{
    lemma_ray_reach(own, king, d, 0);
    let reach = ray_reach(own, king, d, 0);
    let stop = along(king, d, (reach + 1) as int);
    if open_to_edge(own, king, d) {
        assert forall|k: int| 1 <= k <= 8 && is_on_board(#[trigger] along(king, d, k)) implies !own.contains(
            along(king, d, k),
        ) by {
            if k <= reach {
                assert(is_open(own, along(king, d, k)));
            } else {
                assert(!is_on_board(stop));
            }
        }
    } else {
        assert(is_on_board(stop));
        assert(own.contains(stop));
        assert(reach + 1 <= 8);
        assert(is_on_board(along(king, d, (reach + 1) as int)));
    }
    assert(shifted(king, d) == along(king, d, 1));
}

/// The open squares over some directions are those of each, counted up to the first own piece or the
/// edge.
pub proof fn law_open_squares(own: Set<Coord>, king: Coord, dirs: Seq<Delta>, d: Delta, n: int)
    requires
        is_on_board(king),
        crate::board::is_direction(d),
        0 <= n <= 8,
        forall|k: int| 1 <= k <= n ==> is_open(own, #[trigger] along(king, d, k)),
        !is_open(own, along(king, d, n + 1)),
    ensures
        open_squares(own, king, dirs.push(d)) == open_squares(own, king, dirs) + n,
        open_squares(own, king, Seq::empty()) == 0,
{
    assert(dirs.push(d).drop_last() =~= dirs);
    lemma_ray_reach(own, king, d, 0);
    let reach = ray_reach(own, king, d, 0);
    if reach < n {
        assert(is_open(own, along(king, d, (reach + 1) as int)));
    }
    if reach > n {
        assert(is_open(own, along(king, d, n + 1)));
    }
}

/// Distances fall into four groups: two, three, four, and more.
pub proof fn law_distance_groups(dist: int)
    requires
        dist >= 2,
    ensures
        dist <= 4 ==> bucket_of(dist) == dist - 2,
        dist > 4 ==> bucket_of(dist) == 3,
{
}

/// A king's home is the middle of the rank nearest to its side, as in the first position.
pub proof fn law_home(color: Color)
    ensures
        crate::shogi::initial_model().at(home_of(color)) == Some(
            crate::shogi::Piece { color, role: Role::King },
        ),
{
}

/// The own pieces behind an own move: the one on the square that was left stands on the square it went to,
/// promoted or not; all others stay where they are, and a dropped piece is one more.
pub proof fn law_own_pieces_after(
    pieces: Seq<(Seq<char>, Role)>,
    i: int,
    from: Coord,
    to: Coord,
    promote: bool,
    role: Role,
    k: int,
)
    requires
        0 <= i < pieces.len(),
        pieces[i].0 == square_text(from),
        forall|j: int| 0 <= j < i ==> (#[trigger] pieces[j]).0 != square_text(from),
        0 <= k < pieces.len(),
    ensures
        ({
            let out = list_after(pieces, ShogiMove::Board { from, to, promote });
            &&& out.len() == pieces.len()
            &&& out[i].0 == square_text(to)
            &&& out[i].1 == (if promote && crate::protocol::promoted(pieces[i].1) is Some {
                crate::protocol::promoted(pieces[i].1)->0
            } else {
                pieces[i].1
            })
            &&& k != i ==> out[k] == pieces[k]
        }),
        ({
            let out = list_after(pieces, ShogiMove::Drop { role, to });
            &&& out.len() == pieces.len() + 1
            &&& out.last() == (square_text(to), role)
            &&& out[k] == pieces[k]
        }),
{
    lemma_first_on(pieces, square_text(from), i, 0);
}

proof fn lemma_first_on(pieces: Seq<(Seq<char>, Role)>, square: Seq<char>, i: int, n: int)
    requires
        0 <= n <= i < pieces.len(),
        pieces[i].0 == square,
        forall|j: int| 0 <= j < i ==> (#[trigger] pieces[j]).0 != square,
    ensures
        first_on(pieces, square, n) == Some(i),
    decreases i - n,
{
    if n < i {
        assert(pieces[n].0 != square);
        lemma_first_on(pieces, square, i, n + 1);
    }
}

/// A square is known to hold an enemy piece from the moment an own piece is taken there or an own drop
/// there is refused, until something is taken there; no other event adds or clears one.
pub proof fn law_news_of_enemies(events: Seq<Event>, e: Event, c: Coord)
    ensures
        known_enemies(events.push(e)).contains(c) <==> (match e {
            Event::OpponentMoved { move_number, captured_at } => known_enemies(events).contains(c) || (
            captured_at matches Some(sq) && square_of_text(sq) == Some(c)),
            Event::MyFoul { move_number, usi } => known_enemies(events).contains(c) || (move_of_text(
                usi,
            ) matches Some(ShogiMove::Drop { role, to }) && to == c),
            Event::MyMove { move_number, usi, captured } => known_enemies(events).contains(c) && !(
            captured is Some && (move_of_text(usi) matches Some(
                ShogiMove::Board { from, to, promote },
            ) && to == c)),
            _ => known_enemies(events).contains(c),
        }),
        !known_enemies(Seq::empty()).contains(c),
{
    assert(events.push(e).drop_last() =~= events);
}

/// A checker can be taken without the king by a legal move of another piece onto the square of an enemy
/// piece that attacks the king.
pub proof fn law_takes_without_king(
    truth: PositionModel,
    bot: Color,
    king: Coord,
    from: Coord,
    to: Coord,
    promote: bool,
)
    requires
        is_on_board(to),
        king_of(truth, bot) == Some(king),
    ensures
        takes_without_king(truth, bot, ShogiMove::Board { from, to, promote }) <==> legal(
            truth,
            ShogiMove::Board { from, to, promote },
        ) && from != king && attacks_from(truth, to, king) && (truth.at(to) matches Some(p) && p.color
            != bot),
{
}

/// The fouls of a side in a turn are counted one by one.
pub proof fn law_fouls_of_turns(fouls: Seq<FoulRecord>, f: FoulRecord, bot: Color, number: u32)
    ensures
        fouls_by(fouls.push(f), bot, number) == fouls_by(fouls, bot, number) + (if f.by_color == bot
            && f.move_number == number {
            1int
        } else {
            0
        }),
        fouls_by(Seq::empty(), bot, number) == 0,
{
    lemma_filter_push(fouls, f, |f: FoulRecord| f.by_color == bot && f.move_number == number);
    reveal(Seq::filter);
}

/// Where the checking pieces stand to the square that the king has left: on it, else next to it, else
/// elsewhere.
pub proof fn law_chase_classes(checkers: Seq<(Coord, Role)>, prev: Coord)
    ensures
        chase_class(checkers, prev) == ChaseClass::AtPrevKing <==> exists|i: int|
            0 <= i < checkers.len() && (#[trigger] checkers[i]).0 == prev,
        chase_class(checkers, prev) == ChaseClass::Elsewhere <==> forall|i: int|
            0 <= i < checkers.len() ==> aside((#[trigger] checkers[i]).0, prev) > 1 || apart(
                checkers[i].0,
                prev,
            ) > 1,
{
    if exists|i: int| 0 <= i < checkers.len() && (#[trigger] checkers[i]).0 == prev {
        let i = choose|i: int| 0 <= i < checkers.len() && (#[trigger] checkers[i]).0 == prev;
        assert(aside(checkers[i].0, prev) == 0 && apart(checkers[i].0, prev) == 0);
    }
}

/// A chase: the king of a side in check moves away, and the opponent's next move gives check again. What
/// is noted of it are the squares the king went between, and the fouls of the turn that follows.
pub proof fn law_chases(
    moves: Seq<MoveRecord>,
    positions: Seq<Position>,
    bot: Color,
    fouls: Map<u32, u32>,
    k: int,
    from: Coord,
    to: Coord,
    promote: bool,
)
    requires
        0 <= k,
        k + 1 < moves.len(),
        k + 2 < positions.len(),
        move_of_text(moves[k].usi@) == Some(ShogiMove::Board { from, to, promote }),
    ensures
        chase_at(moves, positions, bot, fouls, k) is Some <==> moves[k].by_color == bot && moves[k
            + 1].by_color != bot && king_of(positions[k]@, bot) == Some(from) && checked(
            positions[k]@,
            bot,
        ) && checked(positions[k + 2]@, bot),
        chase_at(moves, positions, bot, fouls, k) matches Some(e) ==> {
            let after = positions[k + 2]@;
            &&& e.prev_king == from && e.new_king == to
            &&& e.move_number == after.move_number
            &&& e.double_check <==> checker_list(after, bot).len() >= 2
            &&& e.class == chase_class(checker_list(after, bot), from)
            &&& fouls.dom().contains(after.move_number) ==> e.fouls == fouls[after.move_number]
            &&& !fouls.dom().contains(after.move_number) ==> e.fouls == 0
            &&& e.same_piece ==> exists|c: Coord| #[trigger] is_true_checker(positions[k]@, bot, c)
        },
{
}

/// The fouls tried in a turn are taken in one by one; the position stays as it is.
pub proof fn law_tried_fouls(s: TruthState, tried: Seq<FoulRecord>, f: FoulRecord)
    ensures
        after_tried(s, tried).pos == s.pos,
        after_tried(s, tried.push(f)).used == after_tried(s, tried).used + 1,
        after_tried(s, tried.push(f)).logs.of(s.pos.turn) == after_tried(s, tried).logs.of(s.pos.turn).push(
            Event::MyFoul { move_number: s.pos.move_number, usi: f.usi@ },
        ),
        after_tried(s, Seq::empty()) == s,
    decreases tried.len(),
{
    assert(tried.push(f).drop_last() =~= tried);
    if tried.len() > 0 {
        law_tried_fouls(s, tried.drop_last(), tried.last());
    }
}

/// The fouls of the turn at hand are the records of the side to move under the number of the turn.
pub proof fn law_fouls_at_hand(s: TruthState, records: Seq<FoulRecord>, f: FoulRecord)
    ensures
        fouls_at_hand(s, records).contains(f) <==> records.contains(f) && f.by_color == s.pos.turn
            && f.move_number == s.pos.move_number,
{
    lemma_filter_contains_iff(
        records,
        |f: FoulRecord| f.by_color == s.pos.turn && f.move_number == s.pos.move_number,
        f,
    );
}

/// One for what holds, else nothing.
pub open spec fn tick(b: bool) -> int {
    if b {
        1
    } else {
        0
    }
}

proof fn lemma_eight(p: spec_fn(Delta) -> bool)
    ensures
        king_dirs().filter(p).len() == tick(p((0i8, -1i8))) + tick(p((0i8, 1i8))) + tick(p((1i8, 0i8))) + tick(
            p((-1i8, 0i8)),
        ) + tick(p((1i8, -1i8))) + tick(p((-1i8, -1i8))) + tick(p((1i8, 1i8))) + tick(p((-1i8, 1i8))),
{
    let none = Seq::<Delta>::empty();
    assert(none.filter(p).len() == 0) by {
        reveal(Seq::filter);
    }
    let a = none.push((0i8, -1i8));
    let b = a.push((0i8, 1i8));
    let c = b.push((1i8, 0i8));
    let d = c.push((-1i8, 0i8));
    let e = d.push((1i8, -1i8));
    let f = e.push((-1i8, -1i8));
    let g = f.push((1i8, 1i8));
    let h = g.push((-1i8, 1i8));
    lemma_filter_push(none, (0i8, -1i8), p);
    lemma_filter_push(a, (0i8, 1i8), p);
    lemma_filter_push(b, (1i8, 0i8), p);
    lemma_filter_push(c, (-1i8, 0i8), p);
    lemma_filter_push(d, (1i8, -1i8), p);
    lemma_filter_push(e, (-1i8, -1i8), p);
    lemma_filter_push(f, (1i8, 1i8), p);
    lemma_filter_push(g, (-1i8, 1i8), p);
    assert(king_dirs() =~= h);
}

/// How open the king stands is counted over its eight neighbours: the directions without an own piece up
/// to the edge, the neighbours it could flee to, and those of them that are backed.
pub proof fn law_exposure(f2: crate::check_prep::F2, king: Coord, own: Set<Coord>, color: Color, known: Seq<Coord>)
    requires
        crate::check_prep::f2_is(f2, king, own, color, known),
    ensures
        ({
            let sum = |p: spec_fn(Delta) -> bool|
                tick(p((0i8, -1i8))) + tick(p((0i8, 1i8))) + tick(p((1i8, 0i8))) + tick(p((-1i8, 0i8))) + tick(
                    p((1i8, -1i8)),
                ) + tick(p((-1i8, -1i8))) + tick(p((1i8, 1i8))) + tick(p((-1i8, 1i8)));
            &&& f2.open_dirs == sum(|d: Delta| open_to_edge(own, king, d))
            &&& f2.flight_all == sum(|d: Delta| can_flee(own, king, d))
            &&& f2.flight_shielded == sum(|d: Delta| can_flee(own, king, d) && backed(own, king, d))
            &&& f2.king_home <==> king.file == 5 && king.rank == (if color == Color::Sente {
                9int
            } else {
                1
            })
        }),
{
    lemma_eight(|d: Delta| open_to_edge(own, king, d));
    lemma_eight(|d: Delta| can_flee(own, king, d));
    lemma_eight(|d: Delta| can_flee(own, king, d) && backed(own, king, d));
}

/// The states of the king's neighbours are counted over all eight of them: held by an own piece, or free and
/// covered or not.
pub proof fn law_neighbours(f3: crate::check_prep::F3, king: Coord, pieces: Seq<(Seq<char>, Role)>, color: Color)
    requires
        crate::check_prep::f3_is(f3, king, pieces, color),
    ensures
        ({
            let own = crate::board::occupied_by(pieces);
            let sum = |p: spec_fn(Delta) -> bool|
                tick(p((0i8, -1i8))) + tick(p((0i8, 1i8))) + tick(p((1i8, 0i8))) + tick(p((-1i8, 0i8))) + tick(
                    p((1i8, -1i8)),
                ) + tick(p((-1i8, -1i8))) + tick(p((1i8, 1i8))) + tick(p((-1i8, 1i8)));
            let covered = |d: Delta| crate::check_prep::is_covered(pieces, color, shifted(king, d));
            &&& f3.adj_total == sum(|d: Delta| is_on_board(shifted(king, d)))
            &&& f3.own_occupied == sum(
                |d: Delta| is_on_board(shifted(king, d)) && own.contains(shifted(king, d)),
            )
            &&& f3.open_covered == sum(|d: Delta| can_flee(own, king, d) && covered(d))
            &&& f3.open_uncovered == sum(|d: Delta| can_flee(own, king, d) && !covered(d))
            &&& f3.adj_covered == sum(|d: Delta| is_on_board(shifted(king, d)) && covered(d))
        }),
{
    let own = crate::board::occupied_by(pieces);
    lemma_eight(
        |d: Delta| can_flee(own, king, d) && !crate::check_prep::is_covered(pieces, color, shifted(king, d)),
    );
    lemma_eight(
        |d: Delta| can_flee(own, king, d) && crate::check_prep::is_covered(pieces, color, shifted(king, d)),
    );
    lemma_eight(|d: Delta| is_on_board(shifted(king, d)) && own.contains(shifted(king, d)));
    lemma_eight(|d: Delta| is_on_board(shifted(king, d)));
    lemma_eight(
        |d: Delta| is_on_board(shifted(king, d)) && crate::check_prep::is_covered(
            pieces,
            color,
            shifted(king, d),
        ),
    );
}

/// A square is covered where some piece covers it; the cover is sure where a step does.
pub proof fn law_covered_squares(pieces: Seq<(Seq<char>, Role)>, color: Color, c: Coord)
    ensures
        crate::check_prep::is_covered(pieces, color, c) <==> exists|i: int|
            0 <= i < pieces.len() && piece_covers(
                crate::board::occupied_by(pieces),
                #[trigger] pieces[i],
                color,
                c,
            ),
        crate::check_prep::sure_cover(pieces, color).contains(c) <==> exists|i: int|
            0 <= i < pieces.len() && steps_cover(#[trigger] pieces[i], color, c),
{
    let own = crate::board::occupied_by(pieces);
    if exists|i: int| 0 <= i < pieces.len() && piece_covers(own, #[trigger] pieces[i], color, c) {
        let i = choose|i: int| 0 <= i < pieces.len() && piece_covers(own, #[trigger] pieces[i], color, c);
        assert(steps_cover(pieces[i], color, c) || runs_cover(own, pieces[i], color, c));
    }
}

/// What is noted of the cover in a chase is that of the own pieces right behind the flight: whether it
/// reached the square that the king left, and whether it reached every piece that then gave check. The
/// piece is the same where the second check comes with a move of one that gave the first.
pub proof fn law_chase_cover(
    moves: Seq<MoveRecord>,
    positions: Seq<Position>,
    bot: Color,
    fouls: Map<u32, u32>,
    k: int,
    i: int,
    from: Coord,
    to: Coord,
    promote: bool,
    role: Role,
)
    requires
        0 <= k,
        chase_at(moves, positions, bot, fouls, k) is Some,
        0 <= i < checker_list(positions[k + 2]@, bot).len(),
    ensures
        ({
            let e = chase_at(moves, positions, bot, fouls, k)->0;
            let own = crate::replay::pieces_of_side(positions[k + 1]@, bot);
            let checkers = checker_list(positions[k + 2]@, bot);
            &&& e.prev_king_covered <==> crate::check_prep::is_covered(own, bot, e.prev_king)
            &&& e.checkers_covered ==> crate::check_prep::is_covered(own, bot, checkers[i].0)
            &&& (forall|j: int|
                0 <= j < checkers.len() ==> crate::check_prep::is_covered(
                    own,
                    bot,
                    (#[trigger] checkers[j]).0,
                )) ==> e.checkers_covered
            &&& move_of_text(moves[k + 1].usi@) == Some(ShogiMove::Board { from, to, promote }) ==> (
            e.same_piece <==> is_true_checker(positions[k]@, bot, from))
            &&& move_of_text(moves[k + 1].usi@) == Some(ShogiMove::Drop { role, to }) ==> !e.same_piece
        }),
{
}

/// The nearest known enemy to an origin: no pair is nearer, one is as near, and there is none only where
/// there is no origin or no known enemy.
pub proof fn law_nearest_enemy(
    f2: crate::check_prep::F2,
    king: Coord,
    own: Set<Coord>,
    color: Color,
    known: Seq<Coord>,
    i: int,
    j: int,
)
    requires
        crate::check_prep::f2_is(f2, king, own, color, known),
        0 <= i < origin_list(king, color).len(),
        0 <= j < known.len(),
    ensures
        f2.known_enemy_to_origin matches Some(m) && m <= crate::check::span(
            origin_list(king, color)[i].sq,
            known[j],
        ) && exists|a: int, b: int|
            0 <= a < origin_list(king, color).len() && 0 <= b < known.len() && #[trigger] crate::check::span(
                origin_list(king, color)[a].sq,
                known[b],
            ) == m,
{
    let d = crate::check::span(origin_list(king, color)[i].sq, known[j]);
    let m = f2.known_enemy_to_origin->0;
    assert(d >= m);
}

/// One origin more counts in its class and in the group of its distance, as covered where it is, and as
/// surely covered where a step reaches it.
pub proof fn law_origins_are_counted(
    f: crate::check_prep::F1,
    g: crate::check_prep::F1,
    origins: Seq<Origin>,
    o: Origin,
    pieces: Seq<(Seq<char>, Role)>,
    color: Color,
    i: int,
    b: int,
)
    requires
        crate::check_prep::f1_is(f, origins, pieces, color),
        crate::check_prep::f1_is(g, origins.push(o), pieces, color),
        0 <= i < 3,
        0 <= b < 4,
    ensures
        ({
            let class = if i == 0 {
                OriginClass::Knight
            } else if i == 1 {
                OriginClass::Line
            } else {
                OriginClass::Diag
            };
            let here = o.class == class;
            let covered = crate::check_prep::is_covered(pieces, color, o.sq);
            let sure = crate::check_prep::sure_cover(pieces, color).contains(o.sq);
            let near = if o.dist <= 2 {
                b == 0
            } else if o.dist >= 5 {
                b == 3
            } else {
                b == o.dist - 2
            };
            &&& g.by_class@[i].0 == f.by_class@[i].0 + tick(here)
            &&& g.by_class@[i].1 == f.by_class@[i].1 + tick(here && covered)
            &&& g.by_class@[i].2 == f.by_class@[i].2 + tick(here && sure)
            &&& g.by_dist@[b].0 == f.by_dist@[b].0 + tick(near)
            &&& g.by_dist@[b].1 == f.by_dist@[b].1 + tick(near && covered)
        }),
{
    lemma_filter_push(origins, o, |o: Origin| o.class == crate::check_prep::class_at(i));
    lemma_filter_push(
        origins,
        o,
        |o: Origin| o.class == crate::check_prep::class_at(i) && crate::check_prep::is_covered(
            pieces,
            color,
            o.sq,
        ),
    );
    lemma_filter_push(
        origins,
        o,
        |o: Origin| o.class == crate::check_prep::class_at(i) && crate::check_prep::sure_cover(
            pieces,
            color,
        ).contains(o.sq),
    );
    lemma_filter_push(origins, o, |o: Origin| bucket_of(o.dist as int) == b);
    lemma_filter_push(
        origins,
        o,
        |o: Origin| bucket_of(o.dist as int) == b && crate::check_prep::is_covered(pieces, color, o.sq),
    );
}

/// The decisions of a game are kept as they were met, the move that answers each by its index.
pub proof fn law_snapshots(end: crate::protocol::GameEndPayload, i: int)
    requires
        crate::check_prep::snapshots_of(end) is Some,
        0 <= i < crate::replay::game_run(end).decisions.len(),
    ensures
        ({
            let s = crate::check_prep::snapshots_of(end)->0[i];
            let d = crate::replay::game_run(end).decisions[i];
            s.pos == d.pos && s.side == d.side && s.logs == d.logs && s.fouls == d.fouls && s.fouls_this_turn
                == d.fouls_this_turn && s.decision_id == d.plies && !s.terminal
        }),
        ({
            let last = crate::check_prep::snapshots_of(end)->0.last();
            let s = crate::replay::game_run(end).state;
            last.terminal && last.pos == s.pos && last.side == s.pos.turn
        }),
{
    let s = crate::replay::game_run(end).state;
    let tried = fouls_at_hand(s, crate::replay::by_number(end.foul_attempts@));
    lemma_tried_keeps(s, tried);
}

proof fn lemma_tried_keeps(s: TruthState, tried: Seq<FoulRecord>)
    ensures
        after_tried(s, tried).pos == s.pos,
    decreases tried.len(),
{
    if tried.len() > 0 {
        lemma_tried_keeps(s, tried.drop_last());
    }
}

} // verus!
