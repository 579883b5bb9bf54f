//! How sampled positions and moves bear on the hypotheses about a checker: which samples vote for
//! which hypothesis, what role they give a piece whose place alone is known, and under which
//! hypotheses a move would answer the check.
//!
//! A sample carries a whole number as its weight.

use crate::board::{is_on_board, Coord};
use crate::check::{CheckSolver, Hypothesis, SolverModel};
use crate::protocol::{other_color, Color, Role};
use crate::shogi::{checked, target_of, Piece, Position, PositionModel, ShogiMove};
use vstd::prelude::*;

verus! {

/// A sampled position and its weight.
#[derive(Clone, Copy, Debug)]
pub struct Sample {
    pub pos: Position,
    pub weight: u64,
}

/// The weight of the first `n` samples with a property.
pub open spec fn weight_where(samples: Seq<Sample>, p: spec_fn(PositionModel) -> bool, n: int) -> nat
    decreases n,
{
    if n <= 0 {
        0
    } else if p(samples[n - 1].pos@) {
        weight_where(samples, p, n - 1) + samples[n - 1].weight as nat
    } else {
        weight_where(samples, p, n - 1)
    }
}

/// The weight of all samples with a property.
pub open spec fn weight_of(samples: Seq<Sample>, p: spec_fn(PositionModel) -> bool) -> nat {
    weight_where(samples, p, samples.len() as int)
}

proof fn lemma_weight_bound(samples: Seq<Sample>, p: spec_fn(PositionModel) -> bool, n: int)
    requires
        0 <= n <= samples.len(),
    ensures
        weight_where(samples, p, n) <= n * 0xffff_ffff_ffff_ffff,
    decreases n,
{
    if n > 0 {
        lemma_weight_bound(samples, p, n - 1);
        assert(n * 0xffff_ffff_ffff_ffff == (n - 1) * 0xffff_ffff_ffff_ffff + 0xffff_ffff_ffff_ffff)
            by (nonlinear_arith);
    }
}

proof fn lemma_room(n: int)
    requires
        0 <= n < 0xffff_ffff_ffff_ffff,
    ensures
        n * 0xffff_ffff_ffff_ffff + 0xffff_ffff_ffff_ffff <= u128::MAX,
{
    assert(n * 0xffff_ffff_ffff_ffff <= 0xffff_ffff_ffff_fffe * 0xffff_ffff_ffff_ffff)
        by (nonlinear_arith)
        requires
            n <= 0xffff_ffff_ffff_fffe,
    ;
}

/// The weight of what satisfies both of two properties that exclude each other.
proof fn lemma_weight_parts(
    samples: Seq<Sample>,
    p: spec_fn(PositionModel) -> bool,
    q: spec_fn(PositionModel) -> bool,
    all: spec_fn(PositionModel) -> bool,
    n: int,
)
    requires
        0 <= n <= samples.len(),
        forall|m: PositionModel| !(p(m) && #[trigger] q(m)),
        forall|m: PositionModel| #[trigger] all(m),
    ensures
        weight_where(samples, p, n) + weight_where(samples, q, n) <= weight_where(samples, all, n),
    decreases n,
{
    if n > 0 {
        lemma_weight_parts(samples, p, q, all, n - 1);
        let m = samples[n - 1].pos@;
        assert(all(m));
        assert(!(p(m) && q(m)));
    }
}

/// Whether a piece of a colour and a role stands on a square.
pub open spec fn stands(m: PositionModel, c: Coord, piece: Piece) -> bool {
    m.at(c) == Some(piece)
}

/// The weight of the samples in which a piece of a role stands on a square.
pub open spec fn role_weight(samples: Seq<Sample>, opp: Color, c: Coord, role: Role) -> nat {
    weight_of(samples, |m: PositionModel| stands(m, c, Piece { color: opp, role }))
}

/// The weight of all samples.
pub open spec fn total_weight(samples: Seq<Sample>) -> nat {
    weight_of(samples, |m: PositionModel| true)
}

/// Whether the samples in which the piece on a square has a role are more than half.
pub open spec fn is_majority(samples: Seq<Sample>, opp: Color, c: Coord, role: Role) -> bool {
    2 * role_weight(samples, opp, c, role) > total_weight(samples)
}

fn count_role(samples: &Vec<Sample>, opp: Color, c: Coord, role: Role) -> (res: u128)
    requires
        samples@.len() < 0xffff_ffff_ffff_ffff,
    ensures
        res == role_weight(samples@, opp, c, role),
{
    let ghost p = |m: PositionModel| stands(m, c, Piece { color: opp, role });
    let mut sum: u128 = 0;
    let mut i: usize = 0;
    while i < samples.len()
        invariant
            i <= samples@.len() < 0xffff_ffff_ffff_ffff,
            p == (|m: PositionModel| stands(m, c, Piece { color: opp, role })),
            sum == weight_where(samples@, p, i as int),
        decreases samples@.len() - i,
    {
        proof {
            lemma_weight_bound(samples@, p, i as int);
            lemma_room(i as int);
        }
        if let Some(x) = samples[i].pos.piece_at(c) {
            if x.color == opp && x.role == role {
                sum += samples[i].weight as u128;
            }
        }
        i += 1;
    }
    sum
}

fn count_all(samples: &Vec<Sample>) -> (res: u128)
    requires
        samples@.len() < 0xffff_ffff_ffff_ffff,
    ensures
        res == total_weight(samples@),
{
    let ghost p = |m: PositionModel| true;
    let mut sum: u128 = 0;
    let mut i: usize = 0;
    while i < samples.len()
        invariant
            i <= samples@.len() < 0xffff_ffff_ffff_ffff,
            p == (|m: PositionModel| true),
            sum == weight_where(samples@, p, i as int),
        decreases samples@.len() - i,
    {
        proof {
            lemma_weight_bound(samples@, p, i as int);
            lemma_room(i as int);
        }
        sum += samples[i].weight as u128;
        i += 1;
    }
    sum
}

/// All roles.
pub open spec fn role_at(i: int) -> Role {
    if i == 0 {
        Role::Pawn
    } else if i == 1 {
        Role::Lance
    } else if i == 2 {
        Role::Knight
    } else if i == 3 {
        Role::Silver
    } else if i == 4 {
        Role::Gold
    } else if i == 5 {
        Role::Bishop
    } else if i == 6 {
        Role::Rook
    } else if i == 7 {
        Role::King
    } else if i == 8 {
        Role::Tokin
    } else if i == 9 {
        Role::Promotedlance
    } else if i == 10 {
        Role::Promotedknight
    } else if i == 11 {
        Role::Promotedsilver
    } else if i == 12 {
        Role::Horse
    } else {
        Role::Dragon
    }
}

fn all_roles() -> (res: [Role; 14])
    ensures
        forall|i: int| 0 <= i < 14 ==> #[trigger] res@[i] == role_at(i),
{
    [
        Role::Pawn,
        Role::Lance,
        Role::Knight,
        Role::Silver,
        Role::Gold,
        Role::Bishop,
        Role::Rook,
        Role::King,
        Role::Tokin,
        Role::Promotedlance,
        Role::Promotedknight,
        Role::Promotedsilver,
        Role::Horse,
        Role::Dragon,
    ]
}

/// The role that the enemy piece on a square has in more than half of the samples, by weight.
/// Without such a role nothing is guessed.
pub fn particle_majority_role(samples: &Vec<Sample>, opp: Color, c: Coord) -> (res: Option<Role>)
    requires
        samples@.len() < 0xffff_ffff_ffff_ffff,
    ensures
        match res {
            Some(role) => is_majority(samples@, opp, c, role),
            None => forall|role: Role| !#[trigger] is_majority(samples@, opp, c, role),
        },
{
    let total: u128 = count_all(samples);
    let roles = all_roles();
    let mut k: usize = 0;
    while k < 14
        invariant
            k <= 14,
            samples@.len() < 0xffff_ffff_ffff_ffff,
            total == total_weight(samples@),
            forall|i: int| 0 <= i < 14 ==> #[trigger] roles@[i] == role_at(i),
            forall|i: int| 0 <= i < k ==> !is_majority(samples@, opp, c, #[trigger] role_at(i)),
        decreases 14 - k,
    {
        let role = roles[k];
        assert(role == role_at(k as int));
        let n: u128 = count_role(samples, opp, c, role);
        proof {
            lemma_weight_parts(
                samples@,
                |m: PositionModel| stands(m, c, Piece { color: opp, role }),
                |m: PositionModel| false,
                |m: PositionModel| true,
                samples@.len() as int,
            );
        }
        if n > total - n {
            return Some(role);
        }
        k += 1;
    }
    proof {
        assert forall|role: Role| !#[trigger] is_majority(samples@, opp, c, role) by {
            let i: int = match role {
                Role::Pawn => 0,
                Role::Lance => 1,
                Role::Knight => 2,
                Role::Silver => 3,
                Role::Gold => 4,
                Role::Bishop => 5,
                Role::Rook => 6,
                Role::King => 7,
                Role::Tokin => 8,
                Role::Promotedlance => 9,
                Role::Promotedknight => 10,
                Role::Promotedsilver => 11,
                Role::Horse => 12,
                Role::Dragon => 13,
            };
            assert(role == role_at(i));
        }
    }
    None
}

/// No two roles have more than half of the samples each, so the guess does not depend on the order
/// in which roles are tried.
pub proof fn law_majority_is_unique(samples: Seq<Sample>, opp: Color, c: Coord, a: Role, b: Role)
    requires
        is_majority(samples, opp, c, a),
        is_majority(samples, opp, c, b),
    ensures
        a == b,
{
    if a != b {
        lemma_weight_parts(
            samples,
            |m: PositionModel| stands(m, c, Piece { color: opp, role: a }),
            |m: PositionModel| stands(m, c, Piece { color: opp, role: b }),
            |m: PositionModel| true,
            samples.len() as int,
        );
    }
}

/// Whether a sample says anything of the checker: the own king must be in check in it.
pub open spec fn votes(m: PositionModel, my_color: Color) -> bool {
    checked(m, my_color)
}

/// Whether a sample votes for a hypothesis: it has that piece on that square.
pub open spec fn votes_for(m: PositionModel, my_color: Color, h: Hypothesis) -> bool {
    votes(m, my_color) && stands(m, h.square, Piece { color: other_color(my_color), role: h.role })
}

/// Whether any sample says something of the checker.
pub fn particles_vote_check(samples: &Vec<Sample>, my_color: Color) -> (res: bool)
    ensures
        res == exists|i: int|
            0 <= i < samples@.len() && votes((#[trigger] samples@[i]).pos@, my_color),
{
    let mut i: usize = 0;
    while i < samples.len()
        invariant
            i <= samples@.len(),
            forall|k: int| 0 <= k < i ==> !votes((#[trigger] samples@[k]).pos@, my_color),
        decreases samples@.len() - i,
    {
        if samples[i].pos.in_check(my_color) {
            assert(votes(samples@[i as int].pos@, my_color));
            return true;
        }
        i += 1;
    }
    false
}

/// The votes of the samples.
#[derive(Debug)]
pub struct Ballot {
    /// The weight of all samples that vote.
    pub voters: u128,
    /// The weight of those that vote for each hypothesis.
    pub votes: Vec<u128>,
}

fn count_votes(samples: &Vec<Sample>, my_color: Color, h: Hypothesis) -> (res: u128)
    requires
        samples@.len() < 0xffff_ffff_ffff_ffff,
    ensures
        res == weight_of(samples@, |m: PositionModel| votes_for(m, my_color, h)),
{
    let ghost p = |m: PositionModel| votes_for(m, my_color, h);
    let opp = my_color.other();
    let mut sum: u128 = 0;
    let mut i: usize = 0;
    while i < samples.len()
        invariant
            i <= samples@.len() < 0xffff_ffff_ffff_ffff,
            p == (|m: PositionModel| votes_for(m, my_color, h)),
            opp == other_color(my_color),
            sum == weight_where(samples@, p, i as int),
        decreases samples@.len() - i,
    {
        proof {
            lemma_weight_bound(samples@, p, i as int);
            lemma_room(i as int);
        }
        if samples[i].pos.in_check(my_color) {
            if let Some(x) = samples[i].pos.piece_at(h.square) {
                if x.color == opp && x.role == h.role {
                    sum += samples[i].weight as u128;
                }
            }
        }
        i += 1;
    }
    sum
}

/// Lets the samples vote on the hypotheses. Whether the piece really attacks the king in the sample
/// is not asked: the own pieces leave it free to.
pub fn vote_by_particles(
    samples: &Vec<Sample>,
    my_color: Color,
    hypotheses: &Vec<Hypothesis>,
) -> (res:
    Ballot)
    requires
        samples@.len() < 0xffff_ffff_ffff_ffff,
    ensures
        res.voters == weight_of(samples@, |m: PositionModel| votes(m, my_color)),
        res.votes@.len() == hypotheses@.len(),
        forall|k: int|
            0 <= k < hypotheses@.len() ==> #[trigger] res.votes@[k] == weight_of(
                samples@,
                |m: PositionModel| votes_for(m, my_color, hypotheses@[k]),
            ),
{
    let ghost p = |m: PositionModel| votes(m, my_color);
    let mut voters: u128 = 0;
    let mut i: usize = 0;
    while i < samples.len()
        invariant
            i <= samples@.len() < 0xffff_ffff_ffff_ffff,
            p == (|m: PositionModel| votes(m, my_color)),
            voters == weight_where(samples@, p, i as int),
        decreases samples@.len() - i,
    {
        proof {
            lemma_weight_bound(samples@, p, i as int);
            lemma_room(i as int);
        }
        if samples[i].pos.in_check(my_color) {
            voters += samples[i].weight as u128;
        }
        i += 1;
    }
    let mut list: Vec<u128> = Vec::new();
    let mut k: usize = 0;
    while k < hypotheses.len()
        invariant
            k <= hypotheses@.len(),
            samples@.len() < 0xffff_ffff_ffff_ffff,
            list@.len() == k,
            forall|j: int|
                0 <= j < k ==> #[trigger] list@[j] == weight_of(
                    samples@,
                    |m: PositionModel| votes_for(m, my_color, hypotheses@[j]),
                ),
        decreases hypotheses@.len() - k,
    {
        list.push(count_votes(samples, my_color, hypotheses[k]));
        k += 1;
    }
    Ballot { voters, votes: list }
}

/// A hypothesis never has more votes than there are voters.
pub proof fn law_votes_are_of_voters(samples: Seq<Sample>, my_color: Color, h: Hypothesis, n: int)
    requires
        0 <= n <= samples.len(),
    ensures
        weight_where(samples, |m: PositionModel| votes_for(m, my_color, h), n) <= weight_where(
            samples,
            |m: PositionModel| votes(m, my_color),
            n,
        ),
    decreases n,
{
    if n > 0 {
        law_votes_are_of_voters(samples, my_color, h, n - 1);
    }
}

/// What a move would do under a hypothesis.
#[derive(Clone, Copy, Debug, PartialEq, Eq, Structural)]
pub enum Answer {
    /// It would not be legal.
    Refused,
    /// The king would take the checker. A piece that nobody sees may guard it.
    KingTakes,
    /// Another piece would take the checker.
    Takes,
    /// It would answer the check and leave the checker where it is.
    Stays,
}

/// What a move would do under a hypothesis.
pub open spec fn answer_of(m: SolverModel, i: int, mv: ShogiMove) -> Answer {
    if !m.legal_if(i, mv) {
        Answer::Refused
    } else if target_of(mv) != m.hypotheses[i].square {
        Answer::Stays
    } else if m.moves_king(mv) {
        Answer::KingTakes
    } else {
        Answer::Takes
    }
}

/// What a move would do under each hypothesis. The chance that it answers the check, and what it is
/// worth to be rid of the checker, are weighed by these.
pub fn answers(solver: &CheckSolver, mv: &ShogiMove) -> (res: Vec<Answer>)
    requires
        solver.inv(),
    ensures
        res@.len() == solver@.hypotheses.len(),
        forall|i: int| 0 <= i < res@.len() ==> #[trigger] res@[i] == answer_of(solver@, i, *mv),
{
    let to = mv.target();
    let king = solver.moves_own_king(mv);
    let n: usize = solver.hypothesis_count();
    let mut out: Vec<Answer> = Vec::new();
    let mut i: usize = 0;
    while i < n
        invariant
            i <= n,
            n == solver@.hypotheses.len(),
            solver@.wf(),
            to == target_of(*mv),
            king == solver@.moves_king(*mv),
            out@.len() == i,
            forall|k: int| 0 <= k < i ==> #[trigger] out@[k] == answer_of(solver@, k, *mv),
        decreases n - i,
    {
        assert(is_on_board(solver@.hypotheses[i as int].square));
        let answer = if !solver.legal_under(i, mv) {
            Answer::Refused
        } else if to != solver.hypotheses()[i].square {
            Answer::Stays
        } else if king {
            Answer::KingTakes
        } else {
            Answer::Takes
        };
        out.push(answer);
        i += 1;
    }
    out
}

/// A move takes the checker with a piece other than the king exactly if it does so under some
/// hypothesis.
pub proof fn law_takes_under_a_hypothesis(m: SolverModel, mv: ShogiMove)
    requires
        m.wf(),
        mv is Board,
    ensures
        m.takes_checker(mv) <==> exists|i: int|
            0 <= i < m.hypotheses.len() && #[trigger] answer_of(m, i, mv) == Answer::Takes,
{
    if m.takes_checker(mv) {
        let i = choose|i: int|
            0 <= i < m.hypotheses.len() && m.hypotheses[i].square == mv->Board_to
                && #[trigger] m.legal_if(i, mv);
        assert(answer_of(m, i, mv) == Answer::Takes);
    }
    if exists|i: int| 0 <= i < m.hypotheses.len() && #[trigger] answer_of(m, i, mv) == Answer::Takes {
        let i = choose|i: int|
            0 <= i < m.hypotheses.len() && #[trigger] answer_of(m, i, mv) == Answer::Takes;
        assert(m.legal_if(i, mv));
    }
}

} // verus!
