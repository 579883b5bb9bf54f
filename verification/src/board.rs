//! Board coordinates and the candidate moves that one side can see with its own pieces alone.
//!
//! The opponent's pieces are hidden, so a candidate here is a move that would be playable if no
//! enemy piece stood in the way. The server decides what is actually legal.

use crate::lists::lemma_flat_map_contains;
use crate::protocol::{other_color, visible_list, Color, Role, VisiblePiece};
use crate::text::{append_signed, signed_decimal};
use vstd::prelude::*;
use vstd::string::*;

verus! {

/// A square: file 1 to 9 from the right, rank 1 to 9 from the top (`a` to `i`).
#[derive(Clone, Copy, Debug, PartialEq, Eq, Hash, Structural)]
pub struct Coord {
    pub file: i8,
    pub rank: i8,
}

/// A displacement (file, rank) as Sente sees it: a negative rank goes forward.
pub type Delta = (i8, i8);

/// Whether the coordinate lies on the nine by nine board.
pub open spec fn is_on_board(c: Coord) -> bool {
    1 <= c.file <= 9 && 1 <= c.rank <= 9
}

/// The letter of a rank, `a` for rank 1.
pub open spec fn rank_letter(rank: int) -> char {
    (96 + rank) as char
}

/// The USI text of a square.
pub open spec fn square_text(c: Coord) -> Seq<char> {
    signed_decimal(c.file as int).push(rank_letter(c.rank as int))
}

/// The square that a USI text names, if it names one.
pub open spec fn square_of_text(s: Seq<char>) -> Option<Coord> {
    if s.len() == 2 && 49 <= s[0] as int <= 57 && 97 <= s[1] as int <= 105 {
        Some(Coord { file: (s[0] as int - 48) as i8, rank: (s[1] as int - 96) as i8 })
    } else {
        None
    }
}

/// Reads a square such as `7g`.
pub fn parse_usi_square(sq: &str) -> (res: Option<Coord>)
    ensures
        res == square_of_text(sq@),
{
    if sq.unicode_len() != 2 {
        return None;
    }
    let file: char = sq.get_char(0);
    let rank: char = sq.get_char(1);
    if '1' <= file && file <= '9' && 'a' <= rank && rank <= 'i' {
        Some(Coord { file: (file as u32 - 48) as i8, rank: (rank as u32 - 96) as i8 })
    } else {
        None
    }
}

fn rank_str(rank: i8) -> (res: &'static str)
    requires
        1 <= rank <= 9,
    ensures
        res@ == seq![rank_letter(rank as int)],
{
    proof {
        reveal_strlit("a");
        reveal_strlit("b");
        reveal_strlit("c");
        reveal_strlit("d");
        reveal_strlit("e");
        reveal_strlit("f");
        reveal_strlit("g");
        reveal_strlit("h");
        reveal_strlit("i");
    }
    match rank {
        1 => "a",
        2 => "b",
        3 => "c",
        4 => "d",
        5 => "e",
        6 => "f",
        7 => "g",
        8 => "h",
        _ => "i",
    }
}

/// The USI text of a square.
pub fn make_usi_square(c: Coord) -> (res: String)
    requires
        1 <= c.rank <= 9,
    ensures
        res@ == square_text(c),
{
    let mut out = String::new();
    append_signed(&mut out, c.file as i64);
    out.append(rank_str(c.rank));
    assert(out@ == square_text(c));
    out
}

/// The USI text of a board move.
pub open spec fn move_text(from: Coord, to: Coord, promote: bool) -> Seq<char> {
    square_text(from) + square_text(to) + (if promote {
        seq!['+']
    } else {
        Seq::<char>::empty()
    })
}

/// The USI text of a board move, with `+` where the piece promotes.
pub fn make_usi_move(from: Coord, to: Coord, promote: bool) -> (res: String)
    requires
        1 <= from.rank <= 9,
        1 <= to.rank <= 9,
    ensures
        res@ == move_text(from, to, promote),
{
    let mut out = make_usi_square(from);
    out.append(make_usi_square(to).as_str());
    if promote {
        proof {
            reveal_strlit("+");
        }
        out.append("+");
    }
    assert(out@ == move_text(from, to, promote));
    out
}

/// The USI letter of a role that can be dropped.
pub open spec fn drop_letter_of(role: Role) -> Option<char> {
    match role {
        Role::Pawn => Some('P'),
        Role::Lance => Some('L'),
        Role::Knight => Some('N'),
        Role::Silver => Some('S'),
        Role::Gold => Some('G'),
        Role::Bishop => Some('B'),
        Role::Rook => Some('R'),
        _ => None,
    }
}

/// The letters of `drop_letter_of` as text followed by the drop mark.
fn drop_prefix(role: Role) -> (res: Option<&'static str>)
    ensures
        res is Some <==> drop_letter_of(role) is Some,
        res is Some ==> res->0@ == seq![drop_letter_of(role)->0, '*'],
{
    proof {
        reveal_strlit("P*");
        reveal_strlit("L*");
        reveal_strlit("N*");
        reveal_strlit("S*");
        reveal_strlit("G*");
        reveal_strlit("B*");
        reveal_strlit("R*");
    }
    match role {
        Role::Pawn => Some("P*"),
        Role::Lance => Some("L*"),
        Role::Knight => Some("N*"),
        Role::Silver => Some("S*"),
        Role::Gold => Some("G*"),
        Role::Bishop => Some("B*"),
        Role::Rook => Some("R*"),
        _ => None,
    }
}

/// The letter under which a role is dropped, for the seven roles that can be held in hand.
pub fn drop_letter(role: Role) -> (res: Option<char>)
    ensures
        res == drop_letter_of(role),
{
    match role {
        Role::Pawn => Some('P'),
        Role::Lance => Some('L'),
        Role::Knight => Some('N'),
        Role::Silver => Some('S'),
        Role::Gold => Some('G'),
        Role::Bishop => Some('B'),
        Role::Rook => Some('R'),
        _ => None,
    }
}

/// The USI text of a drop.
pub open spec fn drop_text(letter: char, to: Coord) -> Seq<char> {
    seq![letter, '*'] + square_text(to)
}

/// The USI text of a drop, for a role that can be dropped.
pub fn make_usi_drop(role: Role, to: Coord) -> (res: Option<String>)
    requires
        drop_letter_of(role) is Some ==> 1 <= to.rank <= 9,
    ensures
        res is Some <==> drop_letter_of(role) is Some,
        res is Some ==> res->0@ == drop_text(drop_letter_of(role)->0, to),
{
    match drop_prefix(role) {
        Some(prefix) => {
            let mut out = prefix.to_owned();
            out.append(make_usi_square(to).as_str());
            Some(out)
        },
        None => None,
    }
}

/// The single steps of a role, as Sente sees them.
pub open spec fn step_deltas(role: Role) -> Seq<Delta> {
    match role {
        Role::Pawn => seq![(0i8, -1i8)],
        Role::Knight => seq![(1i8, -2i8), (-1i8, -2i8)],
        Role::Silver => seq![(0i8, -1i8), (1i8, -1i8), (-1i8, -1i8), (1i8, 1i8), (-1i8, 1i8)],
        Role::Gold
        | Role::Tokin
        | Role::Promotedlance
        | Role::Promotedknight
        | Role::Promotedsilver => seq![
            (0i8, -1i8),
            (1i8, -1i8),
            (-1i8, -1i8),
            (1i8, 0i8),
            (-1i8, 0i8),
            (0i8, 1i8),
        ],
        Role::King => seq![
            (0i8, -1i8),
            (1i8, -1i8),
            (-1i8, -1i8),
            (1i8, 0i8),
            (-1i8, 0i8),
            (0i8, 1i8),
            (1i8, 1i8),
            (-1i8, 1i8),
        ],
        Role::Horse => seq![(0i8, -1i8), (0i8, 1i8), (1i8, 0i8), (-1i8, 0i8)],
        Role::Dragon => seq![(1i8, -1i8), (-1i8, -1i8), (1i8, 1i8), (-1i8, 1i8)],
        _ => Seq::<Delta>::empty(),
    }
}

/// The directions in which a role runs any distance, as Sente sees them.
pub open spec fn ray_deltas(role: Role) -> Seq<Delta> {
    match role {
        Role::Lance => seq![(0i8, -1i8)],
        Role::Bishop | Role::Horse => seq![(1i8, -1i8), (-1i8, -1i8), (1i8, 1i8), (-1i8, 1i8)],
        Role::Rook | Role::Dragon => seq![(0i8, -1i8), (0i8, 1i8), (1i8, 0i8), (-1i8, 0i8)],
        _ => Seq::<Delta>::empty(),
    }
}

/// The single steps of a role.
pub fn steps(role: Role) -> (res: Vec<Delta>)
    ensures
        res@ == step_deltas(role),
{
    match role {
        Role::Pawn => vec![(0i8, -1i8)],
        Role::Knight => vec![(1i8, -2i8), (-1i8, -2i8)],
        Role::Silver => vec![(0i8, -1i8), (1i8, -1i8), (-1i8, -1i8), (1i8, 1i8), (-1i8, 1i8)],
        Role::Gold
        | Role::Tokin
        | Role::Promotedlance
        | Role::Promotedknight
        | Role::Promotedsilver => vec![
            (0i8, -1i8),
            (1i8, -1i8),
            (-1i8, -1i8),
            (1i8, 0i8),
            (-1i8, 0i8),
            (0i8, 1i8),
        ],
        Role::King => vec![
            (0i8, -1i8),
            (1i8, -1i8),
            (-1i8, -1i8),
            (1i8, 0i8),
            (-1i8, 0i8),
            (0i8, 1i8),
            (1i8, 1i8),
            (-1i8, 1i8),
        ],
        Role::Horse => vec![(0i8, -1i8), (0i8, 1i8), (1i8, 0i8), (-1i8, 0i8)],
        Role::Dragon => vec![(1i8, -1i8), (-1i8, -1i8), (1i8, 1i8), (-1i8, 1i8)],
        _ => Vec::new(),
    }
}

/// The directions in which a role runs any distance.
pub fn rays(role: Role) -> (res: Vec<Delta>)
    ensures
        res@ == ray_deltas(role),
{
    match role {
        Role::Lance => vec![(0i8, -1i8)],
        Role::Bishop | Role::Horse => vec![(1i8, -1i8), (-1i8, -1i8), (1i8, 1i8), (-1i8, 1i8)],
        Role::Rook | Role::Dragon => vec![(0i8, -1i8), (0i8, 1i8), (1i8, 0i8), (-1i8, 0i8)],
        _ => Vec::new(),
    }
}

/// Whether the coordinate lies on the board.
pub fn on_board(c: Coord) -> (res: bool)
    ensures
        res == is_on_board(c),
{
    1 <= c.file && c.file <= 9 && 1 <= c.rank && c.rank <= 9
}

/// A displacement turned to the side that moves: Gote looks the other way.
pub open spec fn oriented(d: Delta, color: Color) -> Delta {
    match color {
        Color::Sente => d,
        Color::Gote => ((-d.0) as i8, (-d.1) as i8),
    }
}

/// Turns a displacement to the side that moves.
pub fn orient(d: Delta, color: Color) -> (res: Delta)
    requires
        -127 <= d.0,
        -127 <= d.1,
    ensures
        res == oriented(d, color),
{
    match color {
        Color::Sente => d,
        Color::Gote => (-d.0, -d.1),
    }
}

/// The square one displacement away.
pub open spec fn shifted(c: Coord, d: Delta) -> Coord {
    Coord { file: (c.file + d.0) as i8, rank: (c.rank + d.1) as i8 }
}

/// `j` times a direction component, which is -1, 0 or 1.
pub open spec fn scaled(component: i8, j: int) -> int {
    if component == 0 {
        0
    } else if component > 0 {
        j
    } else {
        -j
    }
}

/// The square `j` steps away in the direction `d`.
pub open spec fn along(c: Coord, d: Delta, j: int) -> Coord {
    Coord { file: (c.file + scaled(d.0, j)) as i8, rank: (c.rank + scaled(d.1, j)) as i8 }
}

/// Whether `d` is one of the eight directions.
pub open spec fn is_direction(d: Delta) -> bool {
    -1 <= d.0 <= 1 && -1 <= d.1 <= 1 && d != (0i8, 0i8)
}


/// The place of an on-board square in file-major order.
pub open spec fn square_index(c: Coord) -> int {
    (c.file - 1) * 9 + (c.rank - 1)
}

/// The square at a place in file-major order.
pub open spec fn square_at(i: int) -> Coord {
    Coord { file: (i / 9 + 1) as i8, rank: (i % 9 + 1) as i8 }
}

/// `square_index` and `square_at` undo each other.
pub proof fn lemma_square_index(c: Coord, i: int)
    ensures
        is_on_board(c) ==> 0 <= square_index(c) < 81 && square_at(square_index(c)) == c,
        0 <= i < 81 ==> is_on_board(square_at(i)) && square_index(square_at(i)) == i,
{
}

/// The place of an on-board square in file-major order.
pub fn index_of(c: Coord) -> (res: usize)
    requires
        is_on_board(c),
    ensures
        res == square_index(c),
        res < 81,
{
    (c.file as usize - 1) * 9 + (c.rank as usize - 1)
}

/// The square at a place in file-major order.
pub fn coord_at(i: usize) -> (res: Coord)
    requires
        i < 81,
    ensures
        res == square_at(i as int),
        is_on_board(res),
        square_index(res) == i,
{
    Coord { file: (i / 9) as i8 + 1, rank: (i % 9) as i8 + 1 }
}

/// A set of on-board squares.
#[derive(Clone, Copy, Debug)]
pub struct SquareSet {
    cells: [bool; 81],
}

impl View for SquareSet {
    type V = Set<Coord>;

    closed spec fn view(&self) -> Set<Coord> {
        Set::new(|c: Coord| is_on_board(c) && self.cells@[square_index(c)])
    }
}

impl SquareSet {
    /// The set holds on-board squares only.
    pub proof fn lemma_on_board(&self, c: Coord)
        ensures
            self@.contains(c) ==> is_on_board(c),
    {
    }

    /// The empty set.
    pub fn empty() -> (res: SquareSet)
        ensures
            res@ == Set::<Coord>::empty(),
    {
        let res = SquareSet { cells: [false; 81] };
        proof {
            assert forall|c: Coord| #[trigger] res@.contains(c) implies false by {
                lemma_square_index(c, 0);
            }
        }
        assert(res@ =~= Set::<Coord>::empty());
        res
    }

    /// Adds a square; a coordinate off the board is left out.
    pub fn insert(&mut self, c: Coord)
        ensures
            is_on_board(c) ==> final(self)@ == old(self)@.insert(c),
            !is_on_board(c) ==> final(self)@ == old(self)@,
    {
        if on_board(c) {
            self.cells[index_of(c)] = true;
            proof {
                assert forall|x: Coord| self@.contains(x) <==> old(self)@.insert(c).contains(x) by {
                    lemma_square_index(x, 0);
                    lemma_square_index(c, 0);
                }
            }
            assert(self@ =~= old(self)@.insert(c));
        }
    }

    /// Takes a square out.
    pub fn remove(&mut self, c: Coord)
        ensures
            final(self)@ == old(self)@.remove(c),
    {
        if on_board(c) {
            self.cells[index_of(c)] = false;
            proof {
                assert forall|x: Coord| self@.contains(x) <==> old(self)@.remove(c).contains(x) by {
                    lemma_square_index(x, 0);
                    lemma_square_index(c, 0);
                }
            }
        }
        assert(self@ =~= old(self)@.remove(c));
    }

    pub fn contains(&self, c: Coord) -> (res: bool)
        ensures
            res == self@.contains(c),
    {
        proof {
            lemma_square_index(c, 0);
        }
        on_board(c) && self.cells[index_of(c)]
    }
}

/// The squares that the pieces stand on; a piece whose square does not read is left out.
pub open spec fn occupied_by(pieces: Seq<(Seq<char>, Role)>) -> Set<Coord> {
    Set::new(
        |c: Coord|
            exists|i: int|
                0 <= i < pieces.len() && #[trigger] square_of_text(pieces[i].0) == Some(c),
    )
}

/// The squares that the pieces stand on.
pub fn occupied_set(pieces: &[VisiblePiece]) -> (res: SquareSet)
    ensures
        res@ == occupied_by(visible_list(pieces@)),
{
    let mut set = SquareSet::empty();
    let mut i: usize = 0;
    let ghost all = visible_list(pieces@);
    assert(occupied_by(all.take(0)) =~= Set::<Coord>::empty());
    while i < pieces.len()
        invariant
            i <= pieces@.len(),
            all == visible_list(pieces@),
            set@ == occupied_by(all.take(i as int)),
        decreases pieces@.len() - i,
    {
        let ghost before = all.take(i as int);
        let ghost after = all.take(i + 1);
        let parsed = parse_usi_square(pieces[i].square.as_str());
        proof {
            assert(after =~= before.push(all[i as int]));
            assert forall|c: Coord|
                occupied_by(after).contains(c) <==> (occupied_by(before).contains(c) || parsed
                    == Some(c)) by {
                if occupied_by(before).contains(c) {
                    let k = choose|k: int|
                        0 <= k < before.len() && #[trigger] square_of_text(before[k].0)
                            == Some(c);
                    assert(square_of_text(after[k].0) == Some(c));
                }
                if parsed == Some(c) {
                    assert(square_of_text(after[i as int].0) == Some(c));
                }
                if occupied_by(after).contains(c) {
                    let k = choose|k: int|
                        0 <= k < after.len() && #[trigger] square_of_text(after[k].0)
                            == Some(c);
                    if k < i {
                        assert(square_of_text(before[k].0) == Some(c));
                    }
                }
            }
        }
        if let Some(c) = parsed {
            set.insert(c);
            assert(occupied_by(after) =~= occupied_by(before).insert(c));
        } else {
            assert(occupied_by(after) =~= occupied_by(before));
        }
        i += 1;
    }
    assert(all.take(i as int) =~= all);
    set
}

/// A square that a piece may move to as far as its own side can tell.
pub open spec fn is_open(own: Set<Coord>, c: Coord) -> bool {
    is_on_board(c) && !own.contains(c)
}

/// How far a run in direction `d` gets before the edge or an own piece, `j` steps already made.
pub open spec fn ray_reach(own: Set<Coord>, from: Coord, d: Delta, j: nat) -> nat
    decreases 9 - j,
{
    if j < 9 && is_open(own, along(from, d, (j + 1) as int)) {
        ray_reach(own, from, d, j + 1)
    } else {
        j
    }
}

/// The squares of a run, nearest first.
pub open spec fn ray_targets(own: Set<Coord>, from: Coord, d: Delta) -> Seq<Coord> {
    Seq::new(ray_reach(own, from, d, 0), |j: int| along(from, d, j + 1))
}

/// The squares of the single steps, in the order of the role's steps.
pub open spec fn step_targets(
    own: Set<Coord>,
    from: Coord,
    role: Role,
    color: Color,
) -> Seq<Coord> {
    step_deltas(role).map_values(|d: Delta| shifted(from, oriented(d, color))).filter(
        |c: Coord| is_open(own, c),
    )
}

/// Every square that a piece of `role` on `from` may move to, steps first, then runs.
pub open spec fn targets_from(
    own: Set<Coord>,
    from: Coord,
    role: Role,
    color: Color,
) -> Seq<Coord> {
    step_targets(own, from, role, color) + ray_deltas(role).flat_map(
        |d: Delta| ray_targets(own, from, oriented(d, color)),
    )
}

/// Small displacements keep their meaning when turned.
pub proof fn lemma_deltas(role: Role)
    ensures
        forall|i: int|
            0 <= i < step_deltas(role).len() ==> -2 <= (#[trigger] step_deltas(role)[i]).0 <= 2
                && -2 <= step_deltas(role)[i].1 <= 2 && step_deltas(role)[i] != (0i8, 0i8),
        forall|i: int|
            0 <= i < ray_deltas(role).len() ==> is_direction(#[trigger] ray_deltas(role)[i]),
{
}

/// Appends the squares of one run.
fn push_ray(own: &SquareSet, from: Coord, d: Delta, targets: &mut Vec<Coord>)
    requires
        is_on_board(from),
        is_direction(d),
    ensures
        final(targets)@ == old(targets)@ + ray_targets(own@, from, d),
{
    let ghost start = targets@;
    let mut j: usize = 0;
    let mut c = Coord { file: from.file + d.0, rank: from.rank + d.1 };
    while on_board(c) && !own.contains(c)
        invariant
            is_on_board(from),
            is_direction(d),
            j <= 8,
            c == along(from, d, j + 1),
            targets@ == start + Seq::new(j as nat, |k: int| along(from, d, k + 1)),
            ray_reach(own@, from, d, 0) == ray_reach(own@, from, d, j as nat),
        decreases 8 - j,
    {
        targets.push(c);
        assert(targets@ =~= start + Seq::new((j + 1) as nat, |k: int| along(from, d, k + 1)));
        c = Coord { file: c.file + d.0, rank: c.rank + d.1 };
        j += 1;
    }
}

/// Where one of the side's own pieces may move: own pieces block, enemy pieces are not considered.
pub fn move_targets(pieces: &[VisiblePiece], piece: &VisiblePiece, color: Color) -> (res: Vec<
    Coord,
>)
    ensures
        square_of_text(piece.square@) is None ==> res@.len() == 0,
        square_of_text(piece.square@) matches Some(from) ==> res@ == targets_from(
            occupied_by(visible_list(pieces@)),
            from,
            piece.role,
            color,
        ),
{
    let own = occupied_set(pieces);
    match parse_usi_square(piece.square.as_str()) {
        None => Vec::new(),
        Some(from) => targets_of(&own, from, piece.role, color),
    }
}

/// The squares that a piece of `role` on `from` may move to when only `own` blocks.
pub fn targets_of(own: &SquareSet, from: Coord, role: Role, color: Color) -> (res: Vec<Coord>)
    requires
        is_on_board(from),
    ensures
        res@ == targets_from(own@, from, role, color),
{
    let mut targets: Vec<Coord> = Vec::new();
    let step_list = steps(role);
    let ray_list = rays(role);
    let ghost shift = |d: Delta| shifted(from, oriented(d, color));
    let ghost open = |c: Coord| is_open(own@, c);
    let ghost all = step_deltas(role).map_values(shift);
    let ghost run = |d: Delta| ray_targets(own@, from, oriented(d, color));
    proof {
        lemma_deltas(role);
    }
    let mut i: usize = 0;
    assert(all.take(0).filter(open) =~= Seq::<Coord>::empty()) by {
        reveal(Seq::filter);
    }
    while i < step_list.len()
        invariant
            is_on_board(from),
            step_list@ == step_deltas(role),
            shift == (|d: Delta| shifted(from, oriented(d, color))),
            open == (|c: Coord| is_open(own@, c)),
            all == step_deltas(role).map_values(shift),
            i <= step_list@.len(),
            targets@ == all.take(i as int).filter(open),
            forall|k: int|
                0 <= k < step_deltas(role).len() ==> -2 <= (#[trigger] step_deltas(role)[k]).0 <= 2
                    && -2 <= step_deltas(role)[k].1 <= 2,
        decreases step_list@.len() - i,
    {
        let d = orient(step_list[i], color);
        let c = Coord { file: from.file + d.0, rank: from.rank + d.1 };
        proof {
            assert(all.take(i + 1) =~= all.take(i as int).push(all[i as int]));
            assert(c == all[i as int]);
            all.take(i as int).lemma_filter_push(c, open);
        }
        if on_board(c) && !own.contains(c) {
            targets.push(c);
        }
        i += 1;
    }
    assert(all.take(i as int) =~= all);
    let ghost stepped = targets@;
    let ghost dirs = ray_deltas(role);
    let mut r: usize = 0;
    assert(dirs.take(0).flat_map(run) =~= Seq::<Coord>::empty());
    assert(targets@ =~= stepped + dirs.take(0).flat_map(run));
    while r < ray_list.len()
        invariant
            is_on_board(from),
            dirs == ray_deltas(role),
            ray_list@ == dirs,
            run == (|d: Delta| ray_targets(own@, from, oriented(d, color))),
            r <= ray_list@.len(),
            targets@ == stepped + dirs.take(r as int).flat_map(run),
            forall|k: int| 0 <= k < dirs.len() ==> is_direction(#[trigger] dirs[k]),
        decreases ray_list@.len() - r,
    {
        let d = orient(ray_list[r], color);
        proof {
            assert(is_direction(dirs[r as int]));
            dirs.lemma_flat_map_take_append(run, r as int);
        }
        push_ray(own, from, d, &mut targets);
        assert(targets@ =~= stepped + dirs.take(r + 1).flat_map(run));
        r += 1;
    }
    assert(dirs.take(r as int) =~= dirs);
    targets
}

/// Whether an unpromoted piece could never move again from that rank.
pub open spec fn is_dead_end(role: Role, rank: int, color: Color) -> bool {
    let from_top = match color {
        Color::Sente => rank,
        Color::Gote => 10 - rank,
    };
    match role {
        Role::Pawn | Role::Lance => from_top <= 1,
        Role::Knight => from_top <= 2,
        _ => false,
    }
}

/// Whether a move or a drop to that rank would leave the piece with nowhere to go.
pub fn dead_end_rank(role: Role, rank: i8, color: Color) -> (res: bool)
    ensures
        res == is_dead_end(role, rank as int, color),
{
    let from_top: i16 = match color {
        Color::Sente => rank as i16,
        Color::Gote => 10 - rank as i16,
    };
    match role {
        Role::Pawn | Role::Lance => from_top <= 1,
        Role::Knight => from_top <= 2,
        _ => false,
    }
}

/// The files on which one of the pieces is an unpromoted pawn.
pub open spec fn has_pawn_on_file(pieces: Seq<(Seq<char>, Role)>, file: int) -> bool {
    exists|i: int|
        0 <= i < pieces.len() && pieces[i].1 == Role::Pawn && (
        #[trigger] square_of_text(pieces[i].0) matches Some(c) && c.file == file)
}

/// Whether a piece of `role` may be dropped on `c` as far as its own side can tell.
pub open spec fn may_drop(
    pieces: Seq<(Seq<char>, Role)>,
    role: Role,
    color: Color,
    c: Coord,
) -> bool {
    &&& is_on_board(c)
    &&& !occupied_by(pieces).contains(c)
    &&& role == Role::Pawn ==> !has_pawn_on_file(pieces, c.file as int)
    &&& !is_dead_end(role, c.rank as int, color)
}

/// All squares, file by file.
pub open spec fn all_squares() -> Seq<Coord> {
    Seq::new(81, |i: int| square_at(i))
}

/// Marks the files that hold one of the side's own pawns.
fn pawn_files(pieces: &[VisiblePiece]) -> (res: [bool; 10])
    ensures
        forall|f: int| 1 <= f <= 9 ==> #[trigger] res@[f] == has_pawn_on_file(visible_list(pieces@), f),
{
    let mut files: [bool; 10] = [false; 10];
    let mut i: usize = 0;
    let ghost all = visible_list(pieces@);
    while i < pieces.len()
        invariant
            i <= pieces@.len(),
            all == visible_list(pieces@),
            forall|f: int|
                1 <= f <= 9 ==> #[trigger] files@[f] == has_pawn_on_file(
                    all.take(i as int),
                    f,
                ),
        decreases pieces@.len() - i,
    {
        let ghost before = all.take(i as int);
        let ghost after = all.take(i + 1);
        let ghost old_files = files@;
        let parsed = parse_usi_square(pieces[i].square.as_str());
        let is_pawn: bool = pieces[i].role == Role::Pawn;
        if is_pawn {
            if let Some(c) = parsed {
                files[c.file as usize] = true;
            }
        }
        proof {
            assert(after =~= before.push(all[i as int]));
            assert forall|f: int| 1 <= f <= 9 implies #[trigger] files@[f] == has_pawn_on_file(
                after,
                f,
            ) by {
                assert(old_files[f] == has_pawn_on_file(before, f));
                if has_pawn_on_file(before, f) {
                    let k = choose|k: int|
                        0 <= k < before.len() && before[k].1 == Role::Pawn && (
                        #[trigger] square_of_text(before[k].0) matches Some(c) && c.file
                            == f);
                    assert(square_of_text(after[k].0) is Some);
                }
                if is_pawn && parsed is Some && parsed->0.file == f {
                    assert(square_of_text(after[i as int].0) is Some);
                }
                if has_pawn_on_file(after, f) {
                    let k = choose|k: int|
                        0 <= k < after.len() && after[k].1 == Role::Pawn && (
                        #[trigger] square_of_text(after[k].0) matches Some(c) && c.file == f);
                    if k < i {
                        assert(square_of_text(before[k].0) is Some);
                    }
                }
            }
        }
        i += 1;
    }
    assert(all.take(i as int) =~= all);
    files
}

/// Where a held piece may be dropped: not on an own piece, no second pawn on a file that shows
/// one, and not where it could never move.
pub fn drop_targets(pieces: &[VisiblePiece], role: Role, color: Color) -> (res: Vec<Coord>)
    ensures
        res@ == all_squares().filter(|c: Coord| may_drop(visible_list(pieces@), role, color, c)),
{
    let own = occupied_set(pieces);
    let files = pawn_files(pieces);
    let mut targets: Vec<Coord> = Vec::new();
    let ghost good = |c: Coord| may_drop(visible_list(pieces@), role, color, c);
    let ghost all = all_squares();
    let mut i: usize = 0;
    assert(all.take(0).filter(good) =~= Seq::<Coord>::empty()) by {
        reveal(Seq::filter);
    }
    while i < 81
        invariant
            i <= 81,
            own@ == occupied_by(visible_list(pieces@)),
            forall|f: int| 1 <= f <= 9 ==> #[trigger] files@[f] == has_pawn_on_file(visible_list(pieces@), f),
            good == (|c: Coord| may_drop(visible_list(pieces@), role, color, c)),
            all == all_squares(),
            targets@ == all.take(i as int).filter(good),
        decreases 81 - i,
    {
        let c = coord_at(i);
        proof {
            assert(all.take(i + 1) =~= all.take(i as int).push(c));
            all.take(i as int).lemma_filter_push(c, good);
        }
        if !own.contains(c) && !(role == Role::Pawn && files[c.file as usize]) && !dead_end_rank(
            role,
            c.rank,
            color,
        ) {
            targets.push(c);
        }
        i += 1;
    }
    assert(all.take(81) =~= all);
    targets
}

/// What a move does about promotion.
#[derive(Clone, Copy, Debug, PartialEq, Eq, Structural)]
pub enum Promotion {
    Never,
    Optional,
    Forced,
}

/// The roles that have a promoted side.
pub open spec fn can_promote(role: Role) -> bool {
    role == Role::Pawn || role == Role::Lance || role == Role::Knight || role == Role::Silver
        || role == Role::Bishop || role == Role::Rook
}

/// Whether the role has a promoted side.
pub fn promotable(role: Role) -> (res: bool)
    ensures
        res == can_promote(role),
{
    matches!(
        role,
        Role::Pawn | Role::Lance | Role::Knight | Role::Silver | Role::Bishop | Role::Rook
    )
}

/// The three ranks farthest from the side.
pub open spec fn is_promotion_zone(rank: int, color: Color) -> bool {
    match color {
        Color::Sente => rank <= 3,
        Color::Gote => rank >= 7,
    }
}

/// Whether the rank is one of the three farthest from the side.
pub fn in_promotion_zone(rank: i8, color: Color) -> (res: bool)
    ensures
        res == is_promotion_zone(rank as int, color),
{
    match color {
        Color::Sente => rank <= 3,
        Color::Gote => rank >= 7,
    }
}

/// The promotion rule: it takes a promotable role and a move into, within or out of the zone; it
/// is forced where the unpromoted piece could never move again.
pub open spec fn promotion_rule(role: Role, from: Coord, to: Coord, color: Color) -> Promotion {
    if !can_promote(role) || (!is_promotion_zone(from.rank as int, color) && !is_promotion_zone(
        to.rank as int,
        color,
    )) {
        Promotion::Never
    } else if is_dead_end(role, to.rank as int, color) {
        Promotion::Forced
    } else {
        Promotion::Optional
    }
}

/// What this move does about promotion.
pub fn promotion_choice(role: Role, from: Coord, to: Coord, color: Color) -> (res: Promotion)
    ensures
        res == promotion_rule(role, from, to, color),
{
    if !promotable(role) {
        return Promotion::Never;
    }
    if !in_promotion_zone(from.rank, color) && !in_promotion_zone(to.rank, color) {
        return Promotion::Never;
    }
    if dead_end_rank(role, to.rank, color) {
        return Promotion::Forced;
    }
    Promotion::Optional
}

/// Reading back a written square gives the same square.
pub proof fn law_square_round_trip(c: Coord)
    requires
        is_on_board(c),
    ensures
        square_text(c).len() == 2,
        square_of_text(square_text(c)) == Some(c),
{
    assert(signed_decimal(c.file as int) =~= seq![crate::text::digit_char(c.file as int)]);
}

/// A text that reads as a square is the text of that square, which is on the board.
pub proof fn law_square_text_is_canonical(s: Seq<char>)
    ensures
        square_of_text(s) matches Some(c) ==> is_on_board(c) && square_text(c) == s,
{
    if let Some(c) = square_of_text(s) {
        assert(signed_decimal(c.file as int) =~= seq![crate::text::digit_char(c.file as int)]);
        assert(square_text(c) =~= s);
    }
}

/// Promotion is forced exactly where a promotable piece would be left without a move.
pub proof fn law_forced_promotion(role: Role, from: Coord, to: Coord, color: Color)
    ensures
        promotion_rule(role, from, to, color) == Promotion::Forced <==> can_promote(role)
            && is_dead_end(role, to.rank as int, color),
{
}

/// How far a run gets: every square up to its reach is open and the next one is not.
pub proof fn lemma_ray_reach(own: Set<Coord>, from: Coord, d: Delta, j: nat)
    requires
        is_on_board(from),
        is_direction(d),
        j <= 8,
    ensures
        j <= ray_reach(own, from, d, j) <= 8,
        forall|k: int|
            j < k <= ray_reach(own, from, d, j) ==> is_open(own, #[trigger] along(from, d, k)),
        !is_open(own, along(from, d, (ray_reach(own, from, d, j) + 1) as int)),
    decreases 9 - j,
{
    if is_open(own, along(from, d, (j + 1) as int)) {
        lemma_ray_reach(own, from, d, (j + 1) as nat);
    }
}

/// Whether the square lies on a run of the role with nothing of its own side up to and on it.
pub open spec fn runs_onto(
    own: Set<Coord>,
    from: Coord,
    role: Role,
    color: Color,
    to: Coord,
    i: int,
    n: int,
) -> bool {
    let d = oriented(ray_deltas(role)[i], color);
    &&& 0 <= i < ray_deltas(role).len()
    &&& 1 <= n <= 8
    &&& along(from, d, n) == to
    &&& forall|k: int| 0 < k <= n ==> is_open(own, #[trigger] along(from, d, k))
}

/// Whether one step of the role leads onto the open square.
pub open spec fn steps_onto(
    own: Set<Coord>,
    from: Coord,
    role: Role,
    color: Color,
    to: Coord,
    i: int,
) -> bool {
    &&& 0 <= i < step_deltas(role).len()
    &&& shifted(from, oriented(step_deltas(role)[i], color)) == to
    &&& is_open(own, to)
}

/// The candidate squares of a piece are exactly those that one of its steps or runs leads onto,
/// and none of them is off the board or held by an own piece.
pub proof fn law_move_targets(own: Set<Coord>, from: Coord, role: Role, color: Color, to: Coord)
    requires
        is_on_board(from),
    ensures
        targets_from(own, from, role, color).contains(to) <==> ((exists|i: int|
            #[trigger] steps_onto(own, from, role, color, to, i)) || (exists|i: int, n: int|
            #[trigger] runs_onto(own, from, role, color, to, i, n))),
        targets_from(own, from, role, color).contains(to) ==> is_open(own, to),
{
    let shift = |d: Delta| shifted(from, oriented(d, color));
    let open = |c: Coord| is_open(own, c);
    let run = |d: Delta| ray_targets(own, from, oriented(d, color));
    let all = step_deltas(role).map_values(shift);
    let dirs = ray_deltas(role);
    let stepped = step_targets(own, from, role, color);
    let ran = dirs.flat_map(run);
    lemma_deltas(role);
    // steps
    assert(stepped.contains(to) <==> exists|i: int| #[trigger]
        steps_onto(own, from, role, color, to, i)) by {
        if stepped.contains(to) {
            let k = choose|k: int| 0 <= k < stepped.len() && stepped[k] == to;
            all.lemma_filter_pred(open, k);
            all.lemma_filter_contains_rev(open, to);
            let i = choose|i: int| 0 <= i < all.len() && all[i] == to;
            assert(steps_onto(own, from, role, color, to, i));
        }
        if exists|i: int| #[trigger] steps_onto(own, from, role, color, to, i) {
            let i = choose|i: int| #[trigger] steps_onto(own, from, role, color, to, i);
            assert(all[i] == to);
            all.lemma_filter_contains(open, i);
        }
    }
    // runs
    assert(ran.contains(to) <==> exists|i: int, n: int| #[trigger]
        runs_onto(own, from, role, color, to, i, n)) by {
        lemma_flat_map_contains(dirs, run, to);
        if exists|i: int| 0 <= i < dirs.len() && #[trigger] run(dirs[i]).contains(to) {
            let i = choose|i: int| 0 <= i < dirs.len() && #[trigger] run(dirs[i]).contains(to);
            let d = oriented(dirs[i], color);
            assert(is_direction(dirs[i]));
            let part = ray_targets(own, from, d);
            assert(part.contains(to));
            let k = choose|k: int| 0 <= k < part.len() && part[k] == to;
            lemma_ray_reach(own, from, d, 0);
            assert(runs_onto(own, from, role, color, to, i, k + 1));
        }
        if exists|i: int, n: int| #[trigger] runs_onto(own, from, role, color, to, i, n) {
            let (i, n) = choose|i: int, n: int|
                #[trigger] runs_onto(own, from, role, color, to, i, n);
            let d = oriented(dirs[i], color);
            assert(is_direction(dirs[i]));
            lemma_ray_reach(own, from, d, 0);
            let part = ray_targets(own, from, d);
            let reach = ray_reach(own, from, d, 0);
            if reach < n {
                assert(is_open(own, along(from, d, (reach + 1) as int)));
            }
            assert(part[n - 1] == to);
            assert(run(dirs[i]).contains(to));
        }
    }
    let whole = targets_from(own, from, role, color);
    assert(whole =~= stepped + ran);
    assert(whole.contains(to) <==> stepped.contains(to) || ran.contains(to)) by {
        if stepped.contains(to) {
            let k = choose|k: int| 0 <= k < stepped.len() && stepped[k] == to;
            assert(whole[k] == to);
        }
        if ran.contains(to) {
            let k = choose|k: int| 0 <= k < ran.len() && ran[k] == to;
            assert(whole[stepped.len() + k] == to);
        }
    }
    if exists|i: int, n: int| #[trigger] runs_onto(own, from, role, color, to, i, n) {
        let (i, n) = choose|i: int, n: int| #[trigger] runs_onto(own, from, role, color, to, i, n);
        assert(is_open(own, along(from, oriented(dirs[i], color), n)));
    }
}

/// A square on the board turned by half a circle.
pub open spec fn turned(c: Coord) -> Coord {
    Coord { file: (10 - c.file) as i8, rank: (10 - c.rank) as i8 }
}

/// A piece on the board turned by half a circle.
pub open spec fn turned_piece(p: (Seq<char>, Role)) -> (Seq<char>, Role) {
    (square_text(turned(square_of_text(p.0)->0)), p.1)
}

/// Pieces on the board turned by half a circle.
pub open spec fn turned_pieces(pieces: Seq<(Seq<char>, Role)>) -> Seq<(Seq<char>, Role)> {
    pieces.map_values(|p: (Seq<char>, Role)| turned_piece(p))
}

/// Gote's candidates are Sente's on the turned board: turning the board by half a circle and swapping
/// the sides turns the candidate squares of a piece, each at its place.
pub proof fn law_turned_board(
    pieces: Seq<(Seq<char>, Role)>,
    piece: (Seq<char>, Role),
    color: Color,
)
    requires
        forall|i: int| 0 <= i < pieces.len() ==> square_of_text((#[trigger] pieces[i]).0) is Some,
        square_of_text(piece.0) is Some,
    ensures
        ({
            let from = square_of_text(piece.0)->0;
            &&& square_of_text(turned_piece(piece).0) == Some(turned(from))
            &&& targets_from(
                occupied_by(turned_pieces(pieces)),
                turned(from),
                piece.1,
                other_color(color),
            ) == targets_from(occupied_by(pieces), from, piece.1, color).map_values(
                |c: Coord| turned(c),
            )
        }),
{
    let from = square_of_text(piece.0)->0;
    let role = piece.1;
    let own = occupied_by(pieces);
    let other = occupied_by(turned_pieces(pieces));
    let turn = |c: Coord| turned(c);
    law_square_text_is_canonical(piece.0);
    law_square_round_trip(turned(from));
    lemma_turned_occupied(pieces);
    lemma_deltas(role);
    let f = |d: Delta| shifted(from, oriented(d, color));
    let g = |d: Delta| shifted(turned(from), oriented(d, other_color(color)));
    let p = |c: Coord| is_open(own, c);
    let q = |c: Coord| is_open(other, c);
    let steps = step_deltas(role);
    assert forall|i: int| 0 <= i < steps.len() implies g(#[trigger] steps[i]) == turn(f(steps[i]))
        && q(g(steps[i])) == p(f(steps[i])) by {
        lemma_turned_open(own, other, f(steps[i]));
    }
    lemma_turned_filter(steps, f, g, p, q, turn);
    let r = |d: Delta| ray_targets(own, from, oriented(d, color));
    let t = |d: Delta| ray_targets(other, turned(from), oriented(d, other_color(color)));
    let dirs = ray_deltas(role);
    assert forall|i: int| 0 <= i < dirs.len() implies t(#[trigger] dirs[i]) == r(dirs[i]).map_values(
        turn,
    ) by {
        let a = oriented(dirs[i], color);
        let b = oriented(dirs[i], other_color(color));
        assert(is_direction(dirs[i]));
        lemma_turned_reach(own, other, from, a, b, 0);
        lemma_ray_reach(own, from, a, 0);
        assert(t(dirs[i]) =~= r(dirs[i]).map_values(turn));
    }
    lemma_turned_flat_map(dirs, r, t, turn);
    let whole = targets_from(own, from, role, color);
    assert(whole.map_values(turn) =~= step_targets(own, from, role, color).map_values(turn)
        + dirs.flat_map(r).map_values(turn));
}

/// The squares that are taken turn with the pieces.
proof fn lemma_turned_occupied(pieces: Seq<(Seq<char>, Role)>)
    requires
        forall|i: int| 0 <= i < pieces.len() ==> square_of_text((#[trigger] pieces[i]).0) is Some,
    ensures
        forall|c: Coord|
            is_on_board(c) ==> (#[trigger] occupied_by(turned_pieces(pieces)).contains(
                turned(c),
            ) <==> occupied_by(pieces).contains(c)),
{
    let all = turned_pieces(pieces);
    assert forall|c: Coord| is_on_board(c) implies (#[trigger] occupied_by(all).contains(turned(c))
        <==> occupied_by(pieces).contains(c)) by {
        if occupied_by(pieces).contains(c) {
            let i = choose|i: int|
                0 <= i < pieces.len() && #[trigger] square_of_text(pieces[i].0) == Some(c);
            law_square_round_trip(turned(c));
            assert(square_of_text(all[i].0) == Some(turned(c)));
        }
        if occupied_by(all).contains(turned(c)) {
            let i = choose|i: int|
                0 <= i < all.len() && #[trigger] square_of_text(all[i].0) == Some(turned(c));
            assert(square_of_text(pieces[i].0) is Some);
            law_square_text_is_canonical(pieces[i].0);
            let d = square_of_text(pieces[i].0)->0;
            law_square_round_trip(turned(d));
            assert(turned(d) == turned(c));
            assert(d == c);
        }
    }
}

proof fn lemma_turned_open(own: Set<Coord>, other: Set<Coord>, c: Coord)
    requires
        -10 <= c.file <= 20,
        -10 <= c.rank <= 20,
        forall|c: Coord|
            is_on_board(c) ==> (#[trigger] other.contains(turned(c)) <==> own.contains(c)),
    ensures
        is_open(other, turned(c)) == is_open(own, c),
{
    if is_on_board(c) {
        assert(other.contains(turned(c)) <==> own.contains(c));
    }
}

proof fn lemma_turned_reach(
    own: Set<Coord>,
    other: Set<Coord>,
    from: Coord,
    a: Delta,
    b: Delta,
    j: nat,
)
    requires
        is_on_board(from),
        is_direction(a),
        b == ((-a.0) as i8, (-a.1) as i8),
        forall|c: Coord|
            is_on_board(c) ==> (#[trigger] other.contains(turned(c)) <==> own.contains(c)),
    ensures
        ray_reach(other, turned(from), b, j) == ray_reach(own, from, a, j),
    decreases 9 - j,
{
    if j < 9 {
        let c = along(from, a, (j + 1) as int);
        assert(along(turned(from), b, (j + 1) as int) == turned(c));
        lemma_turned_open(own, other, c);
        lemma_turned_reach(own, other, from, a, b, j + 1);
    }
}

proof fn lemma_turned_filter(
    s: Seq<Delta>,
    f: spec_fn(Delta) -> Coord,
    g: spec_fn(Delta) -> Coord,
    p: spec_fn(Coord) -> bool,
    q: spec_fn(Coord) -> bool,
    turn: spec_fn(Coord) -> Coord,
)
    requires
        forall|i: int|
            0 <= i < s.len() ==> g(#[trigger] s[i]) == turn(f(s[i])) && q(g(s[i])) == p(f(s[i])),
    ensures
        s.map_values(g).filter(q) == s.map_values(f).filter(p).map_values(turn),
    decreases s.len(),
{
    let x = s.map_values(f);
    let y = s.map_values(g);
    if s.len() == 0 {
        x.lemma_filter_len(p);
        y.lemma_filter_len(q);
        assert(y.filter(q) =~= x.filter(p).map_values(turn));
    } else {
        let rest = s.drop_last();
        assert forall|i: int| 0 <= i < rest.len() implies g(#[trigger] rest[i]) == turn(f(rest[i]))
            && q(g(rest[i])) == p(f(rest[i])) by {
            assert(g(s[i]) == turn(f(s[i])));
        }
        lemma_turned_filter(rest, f, g, p, q, turn);
        let last = s[s.len() - 1];
        assert(x =~= rest.map_values(f).push(f(last)));
        assert(y =~= rest.map_values(g).push(g(last)));
        rest.map_values(f).lemma_filter_push(f(last), p);
        rest.map_values(g).lemma_filter_push(g(last), q);
        assert(y.filter(q) =~= x.filter(p).map_values(turn));
    }
}

proof fn lemma_turned_flat_map(
    s: Seq<Delta>,
    f: spec_fn(Delta) -> Seq<Coord>,
    g: spec_fn(Delta) -> Seq<Coord>,
    turn: spec_fn(Coord) -> Coord,
)
    requires
        forall|i: int| 0 <= i < s.len() ==> g(#[trigger] s[i]) == f(s[i]).map_values(turn),
    ensures
        s.flat_map(g) == s.flat_map(f).map_values(turn),
    decreases s.len(),
{
    if s.len() == 0 {
        assert(s.flat_map(g) =~= s.flat_map(f).map_values(turn));
    } else {
        let n = s.len() - 1;
        let rest = s.take(n);
        assert forall|i: int| 0 <= i < rest.len() implies g(#[trigger] rest[i]) == f(
            rest[i],
        ).map_values(turn) by {
            assert(g(s[i]) == f(s[i]).map_values(turn));
        }
        lemma_turned_flat_map(rest, f, g, turn);
        s.lemma_flat_map_take_append(f, n);
        s.lemma_flat_map_take_append(g, n);
        assert(s.take(n + 1) =~= s);
        assert(g(s[n]) == f(s[n]).map_values(turn));
        assert(s.flat_map(g) =~= s.flat_map(f).map_values(turn));
    }
}

} // verus!
