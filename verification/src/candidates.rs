//! The moves that a player can consider with the own pieces alone.

use crate::board::{
    all_squares, drop_targets, law_move_targets, may_drop, move_targets, occupied_by,
    parse_usi_square, promotion_choice, promotion_rule, square_of_text, targets_from, Coord,
    Promotion,
};
use crate::lists::lemma_flat_map_contains;
use crate::protocol::{
    role_at_slot, slot_role, visible_list, Color, Hand, PlayerView, Role, VisiblePiece,
};
use crate::shogi::{text_of_move, writable, ShogiMove};
use vstd::prelude::*;

verus! {

/// The ways to make a board move: as it is, promoting, or both.
pub open spec fn move_choices(role: Role, from: Coord, to: Coord, color: Color) -> Seq<ShogiMove> {
    let plain = ShogiMove::Board { from, to, promote: false };
    let promoting = ShogiMove::Board { from, to, promote: true };
    match promotion_rule(role, from, to, color) {
        Promotion::Never => seq![plain],
        Promotion::Optional => seq![plain, promoting],
        Promotion::Forced => seq![promoting],
    }
}

/// The candidate moves of one piece.
pub open spec fn piece_candidates(
    pieces: Seq<(Seq<char>, Role)>,
    piece: (Seq<char>, Role),
    color: Color,
) -> Seq<ShogiMove> {
    match square_of_text(piece.0) {
        None => Seq::empty(),
        Some(from) => targets_from(occupied_by(pieces), from, piece.1, color).flat_map(
            |to: Coord| move_choices(piece.1, from, to, color),
        ),
    }
}

/// The candidate drops of one role.
pub open spec fn drop_candidates(
    pieces: Seq<(Seq<char>, Role)>,
    hand: Seq<u32>,
    color: Color,
    slot: int,
) -> Seq<ShogiMove> {
    if hand[slot] > 0 {
        all_squares().filter(
            |c: Coord| may_drop(pieces, role_at_slot(slot), color, c),
        ).map_values(|c: Coord| ShogiMove::Drop { role: role_at_slot(slot), to: c })
    } else {
        Seq::empty()
    }
}

/// The places of a hand.
pub open spec fn slots() -> Seq<int> {
    Seq::new(7, |i: int| i)
}

/// Every candidate: the board moves piece by piece, then the drops role by role.
pub open spec fn candidate_list(
    pieces: Seq<(Seq<char>, Role)>,
    hand: Seq<u32>,
    color: Color,
) -> Seq<
    ShogiMove,
> {
    pieces.flat_map(|p: (Seq<char>, Role)| piece_candidates(pieces, p, color)) + slots().flat_map(
        |i: int| drop_candidates(pieces, hand, color, i),
    )
}

/// Whether a text is among the texts.
pub open spec fn listed(texts: Seq<String>, text: Seq<char>) -> bool {
    exists|i: int| 0 <= i < texts.len() && #[trigger] texts[i]@ == text
}

/// Whether a text is among the texts.
pub fn is_listed(texts: &Vec<String>, text: &String) -> (res: bool)
    ensures
        res == listed(texts@, text@),
{
    let mut i: usize = 0;
    while i < texts.len()
        invariant
            i <= texts@.len(),
            forall|k: int| 0 <= k < i ==> #[trigger] texts@[k]@ != text@,
        decreases texts@.len() - i,
    {
        if texts[i] == *text {
            assert(texts@[i as int]@ == text@);
            return true;
        }
        i += 1;
    }
    false
}

/// The texts as a set.
pub open spec fn text_set(texts: Seq<String>) -> Set<Seq<char>> {
    Set::new(|t: Seq<char>| listed(texts, t))
}

/// The empty list of texts holds nothing.
pub proof fn lemma_no_texts(texts: Seq<String>)
    requires
        texts.len() == 0,
    ensures
        text_set(texts) == Set::<Seq<char>>::empty(),
{
    assert(text_set(texts) =~= Set::<Seq<char>>::empty());
}

/// One more text in the list is one more in the set.
pub proof fn lemma_text_added(start: Seq<String>, text: String)
    ensures
        text_set(start.push(text)) == text_set(start).insert(text@),
{
    let after = start.push(text);
    assert forall|t: Seq<char>| listed(after, t) <==> (listed(start, t) || t == text@) by {
        if listed(start, t) {
            let i = choose|i: int| 0 <= i < start.len() && #[trigger] start[i]@ == t;
            assert(after[i]@ == t);
        }
        assert(after[start.len() as int]@ == text@);
        if listed(after, t) {
            let i = choose|i: int| 0 <= i < after.len() && #[trigger] after[i]@ == t;
            if i < start.len() {
                assert(start[i]@ == t);
            }
        }
    }
    assert(text_set(after) =~= text_set(start).insert(text@));
}

/// Adds a text to a list that holds each once.
pub fn insert_text(texts: &mut Vec<String>, text: String)
    ensures
        text_set(final(texts)@) == text_set(old(texts)@).insert(text@),
        final(texts)@.len() == (if text_set(old(texts)@).contains(text@) {
            old(texts)@.len()
        } else {
            old(texts)@.len() + 1
        }),
{
    let ghost start = texts@;
    if is_listed(texts, &text) {
        assert(text_set(start).insert(text@) =~= text_set(start));
    } else {
        proof {
            lemma_text_added(start, text);
        }
        texts.push(text);
    }
}

fn push_choices(role: Role, from: Coord, to: Coord, color: Color, out: &mut Vec<ShogiMove>)
    ensures
        final(out)@ == old(out)@ + move_choices(role, from, to, color),
{
    match promotion_choice(role, from, to, color) {
        Promotion::Never => {
            out.push(ShogiMove::Board { from, to, promote: false });
        },
        Promotion::Optional => {
            out.push(ShogiMove::Board { from, to, promote: false });
            out.push(ShogiMove::Board { from, to, promote: true });
        },
        Promotion::Forced => {
            out.push(ShogiMove::Board { from, to, promote: true });
        },
    }
    assert(out@ =~= old(out)@ + move_choices(role, from, to, color));
}

fn push_piece(pieces: &[VisiblePiece], piece: &VisiblePiece, color: Color, out: &mut Vec<ShogiMove>)
    ensures
        final(out)@ == old(out)@ + piece_candidates(visible_list(pieces@), piece@, color),
{
    let ghost start = out@;
    if let Some(from) = parse_usi_square(piece.square.as_str()) {
        let targets = move_targets(pieces, piece, color);
        let ghost all = targets@;
        let ghost choices = |to: Coord| move_choices(piece.role, from, to, color);
        let mut i: usize = 0;
        assert(out@ =~= start + all.take(0).flat_map(choices));
        while i < targets.len()
            invariant
                i <= targets@.len(),
                all == targets@,
                choices == (|to: Coord| move_choices(piece.role, from, to, color)),
                out@ == start + all.take(i as int).flat_map(choices),
            decreases targets@.len() - i,
        {
            proof {
                all.lemma_flat_map_take_append(choices, i as int);
            }
            push_choices(piece.role, from, targets[i], color, out);
            assert(out@ =~= start + all.take(i + 1).flat_map(choices));
            i += 1;
        }
        assert(all.take(i as int) =~= all);
    } else {
        assert(out@ =~= start + piece_candidates(visible_list(pieces@), piece@, color));
    }
}

fn push_drops(pieces: &[VisiblePiece], hand: &Hand, color: Color, slot: usize, out: &mut Vec<
    ShogiMove,
>)
    requires
        slot < 7,
    ensures
        final(out)@ == old(out)@ + drop_candidates(visible_list(pieces@), hand@, color, slot as int),
{
    let ghost start = out@;
    if hand.counts[slot] > 0 {
        let role = slot_role(slot);
        let targets = drop_targets(pieces, role, color);
        let ghost make = |c: Coord| ShogiMove::Drop { role: role_at_slot(slot as int), to: c };
        assert(targets@ == all_squares().filter(
            |c: Coord| may_drop(visible_list(pieces@), role_at_slot(slot as int), color, c),
        ));
        let mut i: usize = 0;
        assert(out@ =~= start + targets@.take(0).map_values(make));
        while i < targets.len()
            invariant
                i <= targets@.len(),
                role == role_at_slot(slot as int),
                make == (|c: Coord| ShogiMove::Drop { role: role_at_slot(slot as int), to: c }),
                out@ == start + targets@.take(i as int).map_values(make),
            decreases targets@.len() - i,
        {
            out.push(ShogiMove::Drop { role, to: targets[i] });
            assert(out@ =~= start + targets@.take(i + 1).map_values(make));
            i += 1;
        }
        assert(targets@.take(i as int) =~= targets@);
    } else {
        assert(out@ =~= start + drop_candidates(visible_list(pieces@), hand@, color, slot as int));
    }
}

/// Every candidate move of the view.
pub fn all_candidates(view: &PlayerView) -> (res: Vec<ShogiMove>)
    ensures
        res@ == candidate_list(view@.pieces, view@.hand, view@.color),
{
    let pieces = view.your_pieces.as_slice();
    let color = view.your_color;
    let mut out: Vec<ShogiMove> = Vec::new();
    let ghost all = view@.pieces;
    let ghost of_piece = |p: (Seq<char>, Role)| piece_candidates(all, p, color);
    let mut i: usize = 0;
    assert(out@ =~= all.take(0).flat_map(of_piece));
    while i < pieces.len()
        invariant
            i <= all.len(),
            visible_list(pieces@) == all,
            of_piece == (|p: (Seq<char>, Role)| piece_candidates(all, p, color)),
            out@ == all.take(i as int).flat_map(of_piece),
        decreases all.len() - i,
    {
        proof {
            all.lemma_flat_map_take_append(of_piece, i as int);
        }
        push_piece(pieces, &pieces[i], color, &mut out);
        assert(out@ =~= all.take(i + 1).flat_map(of_piece));
        i += 1;
    }
    assert(all.take(i as int) =~= all);
    let ghost board_part = out@;
    let ghost of_slot = |k: int| drop_candidates(all, view@.hand, color, k);
    let mut k: usize = 0;
    assert(out@ =~= board_part + slots().take(0).flat_map(of_slot));
    while k < 7
        invariant
            k <= 7,
            visible_list(pieces@) == all,
            of_slot == (|k: int| drop_candidates(all, view@.hand, color, k)),
            out@ == board_part + slots().take(k as int).flat_map(of_slot),
        decreases 7 - k,
    {
        proof {
            slots().lemma_flat_map_take_append(of_slot, k as int);
        }
        push_drops(pieces, &view.your_hand, color, k, &mut out);
        assert(out@ =~= board_part + slots().take(k + 1).flat_map(of_slot));
        k += 1;
    }
    assert(slots().take(7) =~= slots());
    out
}

/// Every candidate can be written down.
pub proof fn lemma_candidates_writable(pieces: Seq<(Seq<char>, Role)>, hand: Seq<u32>, color: Color)
    ensures
        forall|i: int|
            0 <= i < candidate_list(pieces, hand, color).len() ==> writable(
                #[trigger] candidate_list(pieces, hand, color)[i],
            ),
{
    let list = candidate_list(pieces, hand, color);
    let of_piece = |p: (Seq<char>, Role)| piece_candidates(pieces, p, color);
    let of_slot = |k: int| drop_candidates(pieces, hand, color, k);
    let board_part = pieces.flat_map(of_piece);
    let drop_part = slots().flat_map(of_slot);
    assert forall|i: int| 0 <= i < list.len() implies writable(#[trigger] list[i]) by {
        let mv = list[i];
        if i < board_part.len() {
            assert(board_part[i] == mv);
            lemma_flat_map_contains(pieces, of_piece, mv);
            let k = choose|k: int| 0 <= k < pieces.len() && #[trigger] of_piece(
                pieces[k],
            ).contains(mv);
            let p = pieces[k];
            let from = square_of_text(p.0)->0;
            let targets = targets_from(occupied_by(pieces), from, p.1, color);
            let choices = |to: Coord| move_choices(p.1, from, to, color);
            lemma_flat_map_contains(targets, choices, mv);
            let j = choose|j: int| 0 <= j < targets.len() && #[trigger] choices(
                targets[j],
            ).contains(mv);
            assert(targets.contains(targets[j]));
            law_move_targets(occupied_by(pieces), from, p.1, color, targets[j]);
        } else {
            assert(drop_part[i - board_part.len()] == mv);
            lemma_flat_map_contains(slots(), of_slot, mv);
            let k = choose|k: int| 0 <= k < slots().len() && #[trigger] of_slot(
                slots()[k],
            ).contains(mv);
            let role = role_at_slot(k);
            let good = |c: Coord| may_drop(pieces, role, color, c);
            let kept = all_squares().filter(good);
            let part = of_slot(k);
            let j = choose|j: int| 0 <= j < part.len() && part[j] == mv;
            all_squares().lemma_filter_pred(good, j);
            assert(kept[j] == mv->Drop_to);
        }
    }
}

/// The candidates with their texts, less those already tried.
pub open spec fn untried(moves: Seq<ShogiMove>, tried: Seq<String>) -> Seq<ShogiMove> {
    moves.filter(|mv: ShogiMove| !listed(tried, text_of_move(mv)))
}

/// A list of moves with their texts.
pub open spec fn pairs_match(pairs: Seq<(String, ShogiMove)>, moves: Seq<ShogiMove>) -> bool {
    &&& pairs.len() == moves.len()
    &&& forall|i: int|
        0 <= i < pairs.len() ==> (#[trigger] pairs[i]).1 == moves[i] && pairs[i].0@ == text_of_move(
            moves[i],
        )
}

/// The moves to consider: every candidate that was not tried in this turn, with its text.
pub fn candidate_moves(view: &PlayerView, foul_tried: &Vec<String>) -> (res: Vec<
    (String, ShogiMove),
>)
    ensures
        pairs_match(
            res@,
            untried(candidate_list(view@.pieces, view@.hand, view@.color), foul_tried@),
        ),
{
    let moves = all_candidates(view);
    proof {
        lemma_candidates_writable(view@.pieces, view@.hand, view@.color);
    }
    let mut out: Vec<(String, ShogiMove)> = Vec::new();
    let ghost fresh = |mv: ShogiMove| !listed(foul_tried@, text_of_move(mv));
    let mut i: usize = 0;
    assert(moves@.take(0).filter(fresh) =~= Seq::<ShogiMove>::empty()) by {
        reveal(Seq::filter);
    }
    while i < moves.len()
        invariant
            i <= moves@.len(),
            forall|k: int| 0 <= k < moves@.len() ==> writable(#[trigger] moves@[k]),
            fresh == (|mv: ShogiMove| !listed(foul_tried@, text_of_move(mv))),
            pairs_match(out@, moves@.take(i as int).filter(fresh)),
        decreases moves@.len() - i,
    {
        let mv = moves[i];
        proof {
            assert(moves@.take(i + 1) =~= moves@.take(i as int).push(mv));
            moves@.take(i as int).lemma_filter_push(mv, fresh);
        }
        let usi = mv.to_usi();
        if !is_listed(foul_tried, &usi) {
            out.push((usi, mv));
        }
        i += 1;
    }
    assert(moves@.take(i as int) =~= moves@);
    out
}

} // verus!
