//! What the samples of an estimator say of a position: where the opponent's king stands, which piece
//! gives the check, and how often squares are attacked, beside the truth.
//!
//! Samples are often copies of one another, so they are counted by their fingerprints. The weights of
//! the copies are added up by those who hold them.

use crate::board::{is_on_board, make_usi_square, square_text, Coord};
use crate::check_economy::lemma_piece_list;
use crate::protocol::{other_color, Color, Role};
use crate::scenario::{attack_column, attack_count, attackers};
use crate::shogi::{
    attacks_from, checked, king_of, piece_list, Piece, Position, PositionModel,
};
use vstd::prelude::*;
use vstd::string::*;

verus! {

/// A sampled position.
#[derive(Clone, Copy, Debug)]
pub struct Particle {
    pub pos: Position,
    /// Its fingerprint: copies share it.
    pub print: u64,
    /// How many observations it does not explain.
    pub miss: u8,
    /// How many moves in it were not possible.
    pub taint: u8,
}

/// The highest taint with which a sample still counts.
pub const TAINT_VOTE_MAX: u8 = 6;

/// How many different tainted samples count at most.
pub const TAINT_POOL_CAP: usize = 256;

/// How far a sample is from explaining all there is: a tainted one never does.
pub open spec fn penalty_of(p: Particle) -> u8 {
    if p.taint > 0 && p.miss == 0 {
        1
    } else {
        p.miss
    }
}

/// Whether a sample counts: any, or those that are tainted but not too much.
pub open spec fn counts(p: Particle, tainted: bool) -> bool {
    !tainted || 0 < p.taint <= TAINT_VOTE_MAX
}

/// Whether a sample is the first of its fingerprint among those that count.
pub open spec fn is_first(ps: Seq<Particle>, tainted: bool, i: int) -> bool {
    counts(ps[i], tainted) && forall|k: int|
        0 <= k < i && #[trigger] counts(ps[k], tainted) ==> ps[k].print != ps[i].print
}

/// Whether a sample is one of a fingerprint among those that count.
pub open spec fn is_copy(ps: Seq<Particle>, tainted: bool, print: u64, i: int) -> bool {
    counts(ps[i], tainted) && ps[i].print == print
}

/// The samples of one fingerprint.
#[derive(Debug)]
pub struct Cluster {
    /// The first of them.
    pub first: usize,
    /// All of them, in order.
    pub members: Vec<usize>,
    /// The smallest penalty among them.
    pub penalty: u8,
}

/// All places of a list.
pub open spec fn places(n: nat) -> Seq<int> {
    Seq::new(n, |i: int| i)
}

/// A list of places.
pub open spec fn wide(list: Seq<usize>) -> Seq<int> {
    list.map_values(|i: usize| i as int)
}

/// Whether a cluster is that of its first sample.
pub open spec fn cluster_is(c: Cluster, ps: Seq<Particle>, tainted: bool) -> bool {
    &&& c.first < ps.len()
    &&& is_first(ps, tainted, c.first as int)
    &&& wide(c.members@) == places(ps.len()).filter(
        |i: int| is_copy(ps, tainted, ps[c.first as int].print, i),
    )
    &&& c.members@.len() > 0
    &&& forall|k: int|
        0 <= k < c.members@.len() ==> c.penalty <= penalty_of(ps[#[trigger] c.members@[k] as int])
    &&& exists|k: int|
        0 <= k < c.members@.len() && c.penalty == penalty_of(ps[#[trigger] c.members@[k] as int])
}

fn own_penalty(p: &Particle) -> (res: u8)
    ensures
        res == penalty_of(*p),
{
    if p.taint > 0 && p.miss == 0 {
        1
    } else {
        p.miss
    }
}

fn does_count(p: &Particle, tainted: bool) -> (res: bool)
    ensures
        res == counts(*p, tainted),
{
    !tainted || (0 < p.taint && p.taint <= TAINT_VOTE_MAX)
}

fn gather(ps: &Vec<Particle>, tainted: bool, first: usize) -> (res: Cluster)
    requires
        first < ps@.len(),
        is_first(ps@, tainted, first as int),
    ensures
        res.first == first,
        cluster_is(res, ps@, tainted),
{
    let print: u64 = ps[first].print;
    let ghost all = places(ps@.len());
    let ghost good = |i: int| is_copy(ps@, tainted, print, i);
    let mut members: Vec<usize> = Vec::new();
    let mut penalty: u8 = own_penalty(&ps[first]);
    let mut i: usize = 0;
    assert(all.take(0).filter(good) =~= Seq::<int>::empty()) by {
        reveal(Seq::filter);
    }
    assert(wide(members@) =~= Seq::<int>::empty());
    while i < ps.len()
        invariant
            i <= ps@.len(),
            first < ps@.len(),
            print == ps@[first as int].print,
            is_first(ps@, tainted, first as int),
            all == places(ps@.len()),
            good == (|i: int| is_copy(ps@, tainted, print, i)),
            wide(members@) == all.take(i as int).filter(good),
            i <= first ==> members@.len() == 0 && penalty == penalty_of(ps@[first as int]),
            i > first ==> members@.len() > 0,
            forall|k: int|
                0 <= k < members@.len() ==> penalty <= penalty_of(
                    ps@[#[trigger] members@[k] as int],
                ),
            i > first ==> exists|k: int|
                0 <= k < members@.len() && penalty == penalty_of(
                    ps@[#[trigger] members@[k] as int],
                ),
        decreases ps@.len() - i,
    {
        let ghost start = members@;
        let ghost low = penalty;
        proof {
            assert(all.take(i + 1) =~= all.take(i as int).push(i as int));
            all.take(i as int).lemma_filter_push(i as int, good);
        }
        if does_count(&ps[i], tainted) && ps[i].print == print {
            assert(i >= first) by {
                if i < first {
                    assert(counts(ps@[i as int], tainted));
                }
            }
            members.push(i);
            let p: u8 = own_penalty(&ps[i]);
            if p < penalty {
                penalty = p;
            }
            proof {
                assert(wide(members@) =~= wide(start).push(i as int));
                let last = start.len() as int;
                assert(members@[last] == i);
                assert forall|k: int| 0 <= k < members@.len() implies penalty <= penalty_of(
                    ps@[#[trigger] members@[k] as int],
                ) by {
                    if k < last {
                        assert(members@[k] == start[k]);
                    }
                }
                if i > first && penalty == low {
                    let k = choose|k: int|
                        0 <= k < start.len() && low == penalty_of(ps@[#[trigger] start[k] as int]);
                    assert(members@[k] == start[k]);
                    assert(penalty == penalty_of(ps@[members@[k] as int]));
                } else {
                    assert(penalty == penalty_of(ps@[members@[last] as int]));
                }
            }
        } else {
            assert(i != first);
        }
        i += 1;
    }
    assert(all.take(i as int) =~= all);
    Cluster { first, members, penalty }
}

/// Puts the samples that count together by their fingerprints, in the order in which those first
/// come.
pub fn clusters(ps: &Vec<Particle>, tainted: bool) -> (res: Vec<Cluster>)
    ensures
        res@.map_values(|c: Cluster| c.first as int) == places(ps@.len()).filter(
            |i: int| is_first(ps@, tainted, i),
        ),
        forall|k: int| 0 <= k < res@.len() ==> cluster_is(#[trigger] res@[k], ps@, tainted),
{
    let ghost all = places(ps@.len());
    let ghost good = |i: int| is_first(ps@, tainted, i);
    let ghost head = |c: Cluster| c.first as int;
    let mut out: Vec<Cluster> = Vec::new();
    let mut i: usize = 0;
    assert(all.take(0).filter(good) =~= Seq::<int>::empty()) by {
        reveal(Seq::filter);
    }
    assert(out@.map_values(head) =~= Seq::<int>::empty());
    while i < ps.len()
        invariant
            i <= ps@.len(),
            all == places(ps@.len()),
            good == (|i: int| is_first(ps@, tainted, i)),
            head == (|c: Cluster| c.first as int),
            out@.map_values(head) == all.take(i as int).filter(good),
            forall|k: int| 0 <= k < out@.len() ==> cluster_is(#[trigger] out@[k], ps@, tainted),
        decreases ps@.len() - i,
    {
        let ghost start = out@;
        proof {
            assert(all.take(i + 1) =~= all.take(i as int).push(i as int));
            all.take(i as int).lemma_filter_push(i as int, good);
        }
        let mut fresh = does_count(&ps[i], tainted);
        let mut k: usize = 0;
        while k < i && fresh
            invariant
                k <= i < ps@.len(),
                fresh ==> counts(ps@[i as int], tainted) && forall|j: int|
                    0 <= j < k && #[trigger] counts(ps@[j], tainted) ==> ps@[j].print
                        != ps@[i as int].print,
                !fresh ==> !is_first(ps@, tainted, i as int),
            decreases i - k,
        {
            if does_count(&ps[k], tainted) && ps[k].print == ps[i].print {
                assert(counts(ps@[k as int], tainted));
                fresh = false;
            }
            k += 1;
        }
        if fresh {
            let c = gather(ps, tainted, i);
            out.push(c);
            assert(out@.map_values(head) =~= start.map_values(head).push(i as int));
        }
        i += 1;
    }
    assert(all.take(i as int) =~= all);
    out
}

/// Every sample that counts is counted with the first of its fingerprint, and with no other.
pub proof fn law_every_sample_is_counted_once(ps: Seq<Particle>, tainted: bool, i: int)
    requires
        0 <= i < ps.len(),
        counts(ps[i], tainted),
    ensures
        exists|k: int|
            0 <= k <= i && #[trigger] is_first(ps, tainted, k) && ps[k].print == ps[i].print,
        forall|k: int, j: int|
            0 <= k < ps.len() && 0 <= j < ps.len() && #[trigger] is_first(ps, tainted, k)
                && #[trigger] is_first(ps, tainted, j) && ps[k].print == ps[j].print ==> k == j,
    decreases i,
{
    if !is_first(ps, tainted, i) {
        let j = choose|j: int|
            0 <= j < i && #[trigger] counts(ps[j], tainted) && ps[j].print == ps[i].print;
        law_every_sample_is_counted_once(ps, tainted, j);
    }
    assert forall|k: int, j: int|
        0 <= k < ps.len() && 0 <= j < ps.len() && #[trigger] is_first(ps, tainted, k)
            && #[trigger] is_first(ps, tainted, j) && ps[k].print == ps[j].print implies k == j by {
        assert(counts(ps[k], tainted) && counts(ps[j], tainted));
    }
}

/// Whether a place is among those taken.
pub open spec fn is_taken(list: Seq<usize>, i: int) -> bool {
    exists|k: int| 0 <= k < list.len() && #[trigger] list[k] as int == i
}

fn has_place(list: &Vec<usize>, i: usize) -> (res: bool)
    ensures
        res == is_taken(list@, i as int),
{
    let mut k: usize = 0;
    while k < list.len()
        invariant
            k <= list@.len(),
            forall|j: int| 0 <= j < k ==> #[trigger] list@[j] != i,
        decreases list@.len() - k,
    {
        if list[k] == i {
            assert(list@[k as int] as int == i as int);
            return true;
        }
        k += 1;
    }
    false
}

/// Whether some places are those of the heaviest of several, up to a cap; `keys` are the weights.
/// Which of equally heavy ones are taken is left open.
pub open spec fn are_heaviest(list: Seq<usize>, keys: Seq<i64>, cap: nat) -> bool {
    &&& list.len() == (if keys.len() < cap {
        keys.len()
    } else {
        cap
    })
    &&& list.no_duplicates()
    &&& forall|k: int| 0 <= k < list.len() ==> (#[trigger] list[k]) < keys.len()
    &&& forall|k: int, j: int|
        0 <= k < list.len() && 0 <= j < keys.len() && !#[trigger] is_taken(list, j)
            ==> keys[(#[trigger] list[k]) as int] >= keys[j]
}

/// Takes the heaviest of several, up to a cap; `keys` are their weights.
pub fn heaviest(keys: &Vec<i64>, cap: usize) -> (res: Vec<usize>)
    ensures
        are_heaviest(res@, keys@, cap as nat),
{
    let n: usize = keys.len();
    let want: usize = if n < cap {
        n
    } else {
        cap
    };
    let mut out: Vec<usize> = Vec::new();
    while out.len() < want
        invariant
            n == keys@.len(),
            want <= n,
            out@.len() <= want,
            out@.no_duplicates(),
            forall|k: int| 0 <= k < out@.len() ==> (#[trigger] out@[k]) < n,
            forall|k: int, j: int|
                0 <= k < out@.len() && 0 <= j < n && !#[trigger] is_taken(out@, j)
                    ==> keys@[(#[trigger] out@[k]) as int] >= keys@[j],
        decreases want - out@.len(),
    {
        let ghost start = out@;
        proof {
            lemma_one_is_left(out@, n as nat);
        }
        let mut best: Option<usize> = None;
        let mut i: usize = 0;
        while i < n
            invariant
                i <= n,
                n == keys@.len(),
                start == out@,
                match best {
                    Some(b) => b < i && !is_taken(start, b as int) && forall|j: int|
                        0 <= j < i && !#[trigger] is_taken(start, j) ==> keys@[b as int]
                            >= keys@[j],
                    None => forall|j: int| 0 <= j < i ==> #[trigger] is_taken(start, j),
                },
            decreases n - i,
        {
            if !has_place(&out, i) {
                best = match best {
                    Some(b) => if keys[i] > keys[b] {
                        Some(i)
                    } else {
                        Some(b)
                    },
                    None => Some(i),
                };
            }
            i += 1;
        }
        match best {
            Some(b) => {
                out.push(b);
                proof {
                    let last = start.len() as int;
                    assert forall|x: int, y: int| 0 <= x < y < out@.len() implies out@[x]
                        != out@[y] by {
                        if y == last {
                            assert(out@[x] == start[x]);
                            if start[x] == b {
                                assert(is_taken(start, b as int));
                            }
                        } else {
                            assert(start[x] != start[y]);
                        }
                    }
                    assert forall|k: int, j: int|
                        0 <= k < out@.len() && 0 <= j < n && !#[trigger] is_taken(
                            out@,
                            j,
                        ) implies keys@[(#[trigger] out@[k]) as int] >= keys@[j] by {
                        if is_taken(start, j) {
                            let x = choose|x: int|
                                0 <= x < start.len() && #[trigger] start[x] as int == j;
                            assert(out@[x] as int == j);
                        }
                        if k < last {
                            assert(out@[k] == start[k]);
                        } else {
                            assert(out@[k] == b);
                        }
                    }
                }
            },
            None => {
                assert(false);
            },
        }
    }
    out
}

/// A list of fewer different places than there are leaves one out.
proof fn lemma_one_is_left(list: Seq<usize>, n: nat)
    requires
        list.no_duplicates(),
        forall|k: int| 0 <= k < list.len() ==> (#[trigger] list[k]) < n,
        list.len() < n,
    ensures
        exists|j: int| 0 <= j < n && !#[trigger] is_taken(list, j),
{
    if forall|j: int| 0 <= j < n ==> #[trigger] is_taken(list, j) {
        let s = wide(list).to_set();
        let all = vstd::set_lib::set_int_range(0, n as int);
        vstd::set_lib::lemma_int_range(0, n as int);
        assert forall|j: int| all.contains(j) implies s.contains(j) by {
            assert(is_taken(list, j));
            let k = choose|k: int| 0 <= k < list.len() && #[trigger] list[k] as int == j;
            assert(wide(list)[k] == j);
        }
        vstd::seq_lib::seq_to_set_is_finite(wide(list));
        vstd::set_lib::lemma_len_subset(all, s);
        wide(list).lemma_cardinality_of_set();
    }
}

/// Whether a piece of the opponent attacks a square.
pub open spec fn attacks_it(m: PositionModel, opp: Color, c: Coord, x: (Coord, Piece)) -> bool {
    x.1.color == opp && attacks_from(m, x.0, c)
}

/// The pieces of the opponent that attack a square.
pub open spec fn attacker_list(m: PositionModel, opp: Color, c: Coord) -> Seq<(Coord, Role)> {
    piece_list(m).filter(|x: (Coord, Piece)| attacks_it(m, opp, c, x)).map_values(
        |x: (Coord, Piece)| (x.0, x.1.role),
    )
}

/// Lists the pieces of the opponent that attack a square.
pub fn list_attackers(pos: &Position, opp: Color, c: Coord) -> (res: Vec<(Coord, Role)>)
    ensures
        res@ == attacker_list(pos@, opp, c),
        forall|i: int| 0 <= i < res@.len() ==> is_on_board((#[trigger] res@[i]).0),
{
    let pieces = pos.pieces();
    let ghost all = piece_list(pos@);
    let ghost good = |x: (Coord, Piece)| attacks_it(pos@, opp, c, x);
    let ghost pick = |x: (Coord, Piece)| (x.0, x.1.role);
    let mut out: Vec<(Coord, Role)> = Vec::new();
    let mut i: usize = 0;
    assert(all.take(0).filter(good) =~= Seq::<(Coord, Piece)>::empty()) by {
        reveal(Seq::filter);
    }
    assert(out@ =~= all.take(0).filter(good).map_values(pick));
    while i < pieces.len()
        invariant
            i <= pieces@.len(),
            pieces@ == all,
            all == piece_list(pos@),
            good == (|x: (Coord, Piece)| attacks_it(pos@, opp, c, x)),
            pick == (|x: (Coord, Piece)| (x.0, x.1.role)),
            out@ == all.take(i as int).filter(good).map_values(pick),
            forall|k: int| 0 <= k < out@.len() ==> is_on_board((#[trigger] out@[k]).0),
        decreases pieces@.len() - i,
    {
        let (from, p) = pieces[i];
        let ghost kept = all.take(i as int).filter(good);
        let ghost start = out@;
        proof {
            lemma_piece_list(pos@, i as int);
            assert(all.take(i + 1) =~= all.take(i as int).push((from, p)));
            all.take(i as int).lemma_filter_push((from, p), good);
        }
        if p.color == opp && pos.attacks(from, c) {
            out.push((from, p.role));
            proof {
                assert(out@ =~= kept.push((from, p)).map_values(pick));
                assert forall|k: int| 0 <= k < out@.len() implies is_on_board(
                    (#[trigger] out@[k]).0,
                ) by {
                    if k < start.len() {
                        assert(out@[k] == start[k]);
                    }
                }
            }
        }
        i += 1;
    }
    assert(all.take(i as int) =~= all);
    out
}

/// The name of a role in a diagnosis.
pub open spec fn plain_name(role: Role) -> Seq<char> {
    match role {
        Role::Pawn => "Pawn"@,
        Role::Lance => "Lance"@,
        Role::Knight => "Knight"@,
        Role::Silver => "Silver"@,
        Role::Gold => "Gold"@,
        Role::Bishop => "Bishop"@,
        Role::Rook => "Rook"@,
        Role::King => "King"@,
        Role::Tokin => "Tokin"@,
        Role::Promotedlance => "Promotedlance"@,
        Role::Promotedknight => "Promotedknight"@,
        Role::Promotedsilver => "Promotedsilver"@,
        Role::Horse => "Horse"@,
        Role::Dragon => "Dragon"@,
    }
}

fn name_of(role: Role) -> (res: &'static str)
    ensures
        res@ == plain_name(role),
{
    match role {
        Role::Pawn => "Pawn",
        Role::Lance => "Lance",
        Role::Knight => "Knight",
        Role::Silver => "Silver",
        Role::Gold => "Gold",
        Role::Bishop => "Bishop",
        Role::Rook => "Rook",
        Role::King => "King",
        Role::Tokin => "Tokin",
        Role::Promotedlance => "Promotedlance",
        Role::Promotedknight => "Promotedknight",
        Role::Promotedsilver => "Promotedsilver",
        Role::Horse => "Horse",
        Role::Dragon => "Dragon",
    }
}

/// Several pieces with their squares, joined by plus signs.
pub open spec fn pieces_text(list: Seq<(Coord, Role)>) -> Seq<char>
    decreases list.len(),
{
    if list.len() == 0 {
        Seq::empty()
    } else {
        let front = pieces_text(list.drop_last());
        let sign = if list.len() == 1 {
            ""@
        } else {
            "+"@
        };
        front + sign + plain_name(list.last().1) + "@"@ + square_text(list.last().0)
    }
}

/// Names the checkers that a sample has, or that it has none.
pub fn checker_key(checkers: &Vec<(Coord, Role)>) -> (res: String)
    requires
        forall|i: int| 0 <= i < checkers@.len() ==> is_on_board((#[trigger] checkers@[i]).0),
    ensures
        res@ == (if checkers@.len() == 0 {
            "（王手なし）"@
        } else {
            pieces_text(checkers@)
        }),
{
    if checkers.len() == 0 {
        return "（王手なし）".to_owned();
    }
    let mut out = String::new();
    let mut i: usize = 0;
    while i < checkers.len()
        invariant
            i <= checkers@.len(),
            forall|i: int| 0 <= i < checkers@.len() ==> is_on_board((#[trigger] checkers@[i]).0),
            out@ == pieces_text(checkers@.take(i as int)),
        decreases checkers@.len() - i,
    {
        let ghost start = out@;
        let (c, role) = checkers[i];
        assert(is_on_board(checkers@[i as int].0));
        out.append(
            if i == 0 {
                ""
            } else {
                "+"
            },
        );
        out.append(name_of(role));
        out.append("@");
        let square = make_usi_square(c);
        out.append(square.as_str());
        proof {
            let t = checkers@.take(i + 1);
            assert(t.drop_last() =~= checkers@.take(i as int));
            assert(t.last() == (c, role));
            assert(out@ =~= pieces_text(t));
        }
        i += 1;
    }
    assert(checkers@.take(i as int) =~= checkers@);
    out
}

/// In which column each square falls by the attacks on it.
pub open spec fn columns_of(
    m: PositionModel,
    opp: Color,
    squares: Seq<Coord>,
    with_king: bool,
) -> Seq<
    int,
> {
    squares.map_values(
        |c: Coord|
            if attack_count(m, opp, c, with_king) < 3 {
                attack_count(m, opp, c, with_king) as int
            } else {
                3
            },
    )
}

/// Tells in which column each square falls: by no attack, by one, by two or by more.
pub fn columns(pos: &Position, opp: Color, squares: &Vec<Coord>, with_king: bool) -> (res: Vec<usize>)
    ensures
        wide(res@) == columns_of(pos@, opp, squares@, with_king),
{
    let mut out: Vec<usize> = Vec::new();
    let mut i: usize = 0;
    while i < squares.len()
        invariant
            i <= squares@.len(),
            out@.len() == i,
            forall|k: int|
                0 <= k < i ==> #[trigger] out@[k] as int == columns_of(
                    pos@,
                    opp,
                    squares@,
                    with_king,
                )[k],
        decreases squares@.len() - i,
    {
        out.push(attack_column(attackers(pos, opp, squares[i], with_king)));
        i += 1;
    }
    assert(wide(out@) =~= columns_of(pos@, opp, squares@, with_king));
    out
}

/// What the samples of one fingerprint say.
#[derive(Debug)]
pub struct Finding {
    pub cluster: Cluster,
    /// Where the opponent's king stands in them.
    pub opp_king: Option<Coord>,
    /// The pieces that attack the own king in them; asked only where it really is in check.
    pub checkers: Option<Vec<(Coord, Role)>>,
    /// How often the squares are attacked in them, the king apart; told only of samples that explain
    /// all there is.
    pub columns: Option<Vec<usize>>,
}

/// Whether a finding is right.
pub open spec fn finding_is(
    f: Finding,
    ps: Seq<Particle>,
    truth: PositionModel,
    squares: Seq<Coord>,
) -> bool {
    let side = truth.turn;
    let opp = other_color(side);
    let m = ps[f.cluster.first as int].pos@;
    &&& cluster_is(f.cluster, ps, false)
    &&& f.opp_king == king_of(m, opp)
    &&& match f.checkers {
        Some(list) => checked(truth, side) && list@ == attacker_list(
            m,
            opp,
            king_of(truth, side)->0,
        ),
        None => !checked(truth, side),
    }
    &&& match f.columns {
        Some(list) => f.cluster.penalty == 0 && wide(list@) == columns_of(m, opp, squares, false),
        None => f.cluster.penalty != 0,
    }
}

/// What the tainted samples of one fingerprint say.
#[derive(Debug)]
pub struct TaintFinding {
    pub cluster: Cluster,
    /// How often the squares are attacked in them, by the king as well.
    pub columns: Vec<usize>,
}

/// Whether a finding on tainted samples is right.
pub open spec fn taint_finding_is(
    f: TaintFinding,
    ps: Seq<Particle>,
    truth: PositionModel,
    squares: Seq<Coord>,
) -> bool {
    &&& cluster_is(f.cluster, ps, true)
    &&& wide(f.columns@) == columns_of(
        ps[f.cluster.first as int].pos@,
        other_color(truth.turn),
        squares,
        true,
    )
}

/// What the samples say of a position.
#[derive(Debug)]
pub struct Diagnosis {
    pub findings: Vec<Finding>,
    /// How many of them are of samples that explain all there is.
    pub strict: usize,
    /// Which of the different tainted samples count, by their place among them.
    pub pool: Vec<usize>,
    /// What those say.
    pub tainted: Vec<TaintFinding>,
    /// Where the opponent's king really stands.
    pub opp_king: Option<Coord>,
    /// How often the squares are really attacked, the king apart.
    pub without_king: Vec<usize>,
    /// The same with the king.
    pub with_king: Vec<usize>,
}

/// The attacks on several squares.
pub open spec fn counts_of(
    m: PositionModel,
    opp: Color,
    squares: Seq<Coord>,
    with_king: bool,
) -> Seq<
    int,
> {
    squares.map_values(|c: Coord| attack_count(m, opp, c, with_king) as int)
}

fn count_attackers(pos: &Position, opp: Color, squares: &Vec<Coord>, with_king: bool) -> (res: Vec<usize>)
    ensures
        wide(res@) == counts_of(pos@, opp, squares@, with_king),
{
    let mut out: Vec<usize> = Vec::new();
    let mut i: usize = 0;
    while i < squares.len()
        invariant
            i <= squares@.len(),
            out@.len() == i,
            forall|k: int|
                0 <= k < i ==> #[trigger] out@[k] as int == counts_of(
                    pos@,
                    opp,
                    squares@,
                    with_king,
                )[k],
        decreases squares@.len() - i,
    {
        out.push(attackers(pos, opp, squares[i], with_king));
        i += 1;
    }
    assert(wide(out@) =~= counts_of(pos@, opp, squares@, with_king));
    out
}

/// The places of the tainted samples that are the first of their fingerprints.
pub open spec fn tainted_firsts(ps: Seq<Particle>) -> Seq<int> {
    places(ps.len()).filter(|i: int| is_first(ps, true, i))
}

/// Puts the samples beside the truth. The samples are those of the side to move; `keys` are ordered as
/// the weights of the different tainted samples are, in the order of `clusters`. Of those only the
/// heaviest count.
pub fn diagnose_particles(
    ps: &Vec<Particle>,
    truth: &Position,
    squares: &Vec<Coord>,
    keys: &Vec<i64>,
) -> (res: Diagnosis)
    requires
        king_of(truth@, truth@.turn) is Some,
        keys@.len() == tainted_firsts(ps@).len(),
    ensures
        res.findings@.map_values(|f: Finding| f.cluster.first as int) == places(ps@.len()).filter(
            |i: int| is_first(ps@, false, i),
        ),
        forall|k: int|
            0 <= k < res.findings@.len() ==> finding_is(
                #[trigger] res.findings@[k],
                ps@,
                truth@,
                squares@,
            ),
        res.strict == res.findings@.filter(|f: Finding| f.cluster.penalty == 0).len(),
        are_heaviest(res.pool@, keys@, TAINT_POOL_CAP as nat),
        res.tainted@.map_values(|f: TaintFinding| f.cluster.first as int) == res.pool@.map_values(
            |j: usize| tainted_firsts(ps@)[j as int],
        ),
        forall|k: int|
            0 <= k < res.tainted@.len() ==> taint_finding_is(
                #[trigger] res.tainted@[k],
                ps@,
                truth@,
                squares@,
            ),
        res.opp_king == king_of(truth@, other_color(truth@.turn)),
        wide(res.without_king@) == counts_of(
            truth@,
            other_color(truth@.turn),
            squares@,
            false,
        ),
        wide(res.with_king@) == counts_of(truth@, other_color(truth@.turn), squares@, true),
{
    let side = truth.turn();
    let opp = side.other();
    let in_check = truth.in_check(side);
    let king = match truth.king_square(side) {
        Some(king) => king,
        None => {
            assert(false);
            Coord { file: 1, rank: 1 }
        },
    };
    let mut groups = clusters(ps, false);
    let ghost heads = groups@.map_values(|c: Cluster| c.first as int);
    let ghost head = |f: Finding| f.cluster.first as int;
    let ghost sound = |f: Finding| f.cluster.penalty == 0;
    let mut findings: Vec<Finding> = Vec::new();
    let mut strict: usize = 0;
    proof {
        findings@.lemma_filter_len(sound);
        assert(findings@.map_values(head) =~= heads.take(0));
    }
    let total: usize = groups.len();
    let mut i: usize = 0;
    groups = reversed(groups);
    while i < total
        invariant
            i <= total,
            total == heads.len(),
            groups@.len() == total - i,
            forall|k: int|
                0 <= k < groups@.len() ==> cluster_is(#[trigger] groups@[k], ps@, false)
                    && groups@[k].first as int == heads[total - 1 - k],
            side == truth@.turn,
            opp == other_color(side),
            in_check == checked(truth@, side),
            king_of(truth@, side) == Some(king),
            head == (|f: Finding| f.cluster.first as int),
            sound == (|f: Finding| f.cluster.penalty == 0),
            findings@.map_values(head) == heads.take(i as int),
            findings@.len() == i,
            strict <= i,
            strict == findings@.filter(sound).len(),
            forall|k: int|
                0 <= k < findings@.len() ==> finding_is(
                    #[trigger] findings@[k],
                    ps@,
                    truth@,
                    squares@,
                ),
        decreases total - i,
    {
        let ghost start = findings@;
        let cluster = match groups.pop() {
            Some(c) => c,
            None => {
                assert(false);
                return Diagnosis {
                    findings,
                    strict,
                    pool: Vec::new(),
                    tainted: Vec::new(),
                    opp_king: None,
                    without_king: Vec::new(),
                    with_king: Vec::new(),
                };
            },
        };
        assert(cluster_is(cluster, ps@, false));
        assert(cluster.first as int == heads[i as int]);
        let pos = &ps[cluster.first].pos;
        let opp_king = pos.king_square(opp);
        let checkers = if in_check {
            Some(list_attackers(pos, opp, king))
        } else {
            None
        };
        let cols = if cluster.penalty == 0 {
            Some(columns(pos, opp, squares, false))
        } else {
            None
        };
        if cluster.penalty == 0 {
            strict += 1;
        }
        let f = Finding { cluster, opp_king, checkers, columns: cols };
        assert(finding_is(f, ps@, truth@, squares@));
        proof {
            start.lemma_filter_push(f, sound);
        }
        findings.push(f);
        assert(findings@.map_values(head) =~= heads.take(i + 1));
        i += 1;
    }
    assert(heads.take(total as int) =~= heads);
    let pool = heaviest(keys, TAINT_POOL_CAP);
    let tainted = diagnose_tainted(ps, opp, squares, &pool, Ghost(truth@));
    Diagnosis {
        findings,
        strict,
        pool,
        tainted,
        opp_king: truth.king_square(opp),
        without_king: count_attackers(truth, opp, squares, false),
        with_king: count_attackers(truth, opp, squares, true),
    }
}

fn reversed(list: Vec<Cluster>) -> (res: Vec<Cluster>)
    ensures
        res@ == list@.reverse(),
{
    let mut from = list;
    let ghost all = from@;
    let mut out: Vec<Cluster> = Vec::new();
    while from.len() > 0
        invariant
            from@.len() + out@.len() == all.len(),
            from@ == all.take(from@.len() as int),
            forall|k: int| 0 <= k < out@.len() ==> #[trigger] out@[k] == all[all.len() - 1 - k],
        decreases from@.len(),
    {
        if let Some(c) = from.pop() {
            out.push(c);
        }
    }
    assert(out@ =~= all.reverse());
    out
}

fn diagnose_tainted(
    ps: &Vec<Particle>,
    opp: Color,
    squares: &Vec<Coord>,
    pool: &Vec<usize>,
    Ghost(truth): Ghost<PositionModel>,
) -> (res: Vec<TaintFinding>)
    requires
        opp == other_color(truth.turn),
        forall|k: int| 0 <= k < pool@.len() ==> (#[trigger] pool@[k]) < tainted_firsts(ps@).len(),
    ensures
        res@.map_values(|f: TaintFinding| f.cluster.first as int) == pool@.map_values(
            |j: usize| tainted_firsts(ps@)[j as int],
        ),
        forall|k: int|
            0 <= k < res@.len() ==> taint_finding_is(#[trigger] res@[k], ps@, truth, squares@),
{
    let groups = clusters(ps, true);
    let ghost heads = tainted_firsts(ps@);
    let ghost head = |f: TaintFinding| f.cluster.first as int;
    let ghost place = |j: usize| heads[j as int];
    assert(groups@.map_values(|c: Cluster| c.first as int) == heads);
    let mut out: Vec<TaintFinding> = Vec::new();
    let mut i: usize = 0;
    assert(out@.map_values(head) =~= pool@.take(0).map_values(place));
    while i < pool.len()
        invariant
            i <= pool@.len(),
            opp == other_color(truth.turn),
            heads == tainted_firsts(ps@),
            groups@.map_values(|c: Cluster| c.first as int) == heads,
            forall|k: int| 0 <= k < groups@.len() ==> cluster_is(#[trigger] groups@[k], ps@, true),
            forall|k: int| 0 <= k < pool@.len() ==> (#[trigger] pool@[k]) < heads.len(),
            head == (|f: TaintFinding| f.cluster.first as int),
            place == (|j: usize| heads[j as int]),
            out@.map_values(head) == pool@.take(i as int).map_values(place),
            forall|k: int|
                0 <= k < out@.len() ==> taint_finding_is(#[trigger] out@[k], ps@, truth, squares@),
        decreases pool@.len() - i,
    {
        let j: usize = pool[i];
        let ghost start = out@;
        assert(groups@.map_values(|c: Cluster| c.first as int)[j as int] == groups@[j as int].first);
        assert(cluster_is(groups@[j as int], ps@, true));
        let first: usize = groups[j].first;
        let cluster = gather(ps, true, first);
        let cols = columns(&ps[first].pos, opp, squares, true);
        let f = TaintFinding { cluster, columns: cols };
        assert(taint_finding_is(f, ps@, truth, squares@));
        out.push(f);
        proof {
            assert(pool@.take(i + 1) =~= pool@.take(i as int).push(j));
            assert(out@.map_values(head) =~= start.map_values(head).push(heads[j as int]));
            assert(out@.map_values(head) =~= pool@.take(i + 1).map_values(place));
        }
        i += 1;
    }
    assert(pool@.take(i as int) =~= pool@);
    out
}

/// All different tainted samples count as long as there are no more than the cap.
pub proof fn law_small_pool_takes_all(pool: Seq<usize>, keys: Seq<i64>, cap: nat, j: int)
    requires
        are_heaviest(pool, keys, cap),
        keys.len() <= cap,
        0 <= j < keys.len(),
    ensures
        is_taken(pool, j),
{
    if !is_taken(pool, j) {
        let s = wide(pool).to_set();
        let all = vstd::set_lib::set_int_range(0, keys.len() as int).remove(j);
        vstd::set_lib::lemma_int_range(0, keys.len() as int);
        assert forall|x: int| s.contains(x) implies all.contains(x) by {
            let k = choose|k: int| 0 <= k < pool.len() && wide(pool)[k] == x;
            assert(pool[k] as int == x);
        }
        assert(wide(pool).no_duplicates());
        vstd::set_lib::lemma_len_subset(s, all);
        wide(pool).unique_seq_to_set();
    }
}

} // verus!
