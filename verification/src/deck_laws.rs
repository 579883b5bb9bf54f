//! What a deck of checkpoints is made of: which turns it offers, how each is tagged, and which one of a
//! game is taken.

use crate::checkpoint::{
    candidate_of, ending_of, entry_place, joined_path, most_wanted, offered, phase_of, restored, same_stratum,
    split_part, tag_count, tag_load, tag_total, tie_hash, winner_of, CandidateModel, DeckEntry, GameOffer,
    RestoreError,
};
use crate::kifu::{score_run, Ply};
use crate::lists::{lemma_filter_contains_iff, lemma_filter_push};
use crate::protocol::{Color, GameEndPayload};
use crate::replay::{by_number, game_run, DecisionModel};
use crate::seeds::text_hash;
use crate::shogi::checked;
use vstd::prelude::*;
use vstd::string::*;

verus! {

/// A game offers the start of every turn behind its first that leaves enough moves, and nothing else:
/// a turn whose side has not fouled yet when the decision is made.
pub proof fn law_turns_offered(end: GameEndPayload, min_remaining: u32, ply: int)
    requires
        end.moves@.len() <= u32::MAX,
        game_run(end).ok,
        0 <= ply < end.moves@.len(),
    ensures
        (exists|i: int|
            0 <= i < offered(end, min_remaining)->0.len() && (#[trigger] offered(
                end,
                min_remaining,
            )->0[i]).ply == ply) <==> ply > 0 && end.moves@.len() >= ply + min_remaining
            && game_run(end).decisions[ply].fouls_this_turn == 0,
{
    let total = end.moves@.len() as int;
    let all = game_run(end).decisions;
    let good = |d: DecisionModel| crate::checkpoint::eligible(d, total, min_remaining);
    let make = |d: DecisionModel| candidate_of(d, total, end.result@);
    let kept = all.filter(good);
    let out = offered(end, min_remaining)->0;
    crate::check_prep::lemma_decision_ids(end.moves@, by_number(end.foul_attempts@), total);
    if exists|i: int| 0 <= i < out.len() && (#[trigger] out[i]).ply == ply {
        let i = choose|i: int| 0 <= i < out.len() && (#[trigger] out[i]).ply == ply;
        assert(kept.contains(kept[i]));
        lemma_filter_contains_iff(all, good, kept[i]);
        let k = choose|k: int| 0 <= k < all.len() && all[k] == kept[i];
        assert(all[k].plies == k);
    }
    if ply > 0 && end.moves@.len() >= ply + min_remaining && all[ply].fouls_this_turn == 0 {
        assert(all[ply].plies == ply);
        lemma_filter_contains_iff(all, good, all[ply]);
        assert(all.contains(all[ply]));
        let i = choose|i: int| 0 <= i < kept.len() && kept[i] == all[ply];
        assert(out[i].ply == ply);
    }
}

/// The tags of a checkpoint: the side to move, the phase by the number of moves, whether the side is in
/// check, whether anyone has fouled, and how the game ends for the side.
pub proof fn law_tags(d: DecisionModel, total: int, result: Seq<char>)
    requires
        d.fouls.len() == 2,
        0 <= total - d.plies <= u32::MAX,
    ensures
        ({
            let c = candidate_of(d, total, result);
            &&& c.ply + c.remaining_plies == total && c.ply == d.plies
            &&& c.side == d.side && c.fouls == d.fouls
            &&& c.in_check == checked(d.pos, d.side)
            &&& c.tags.len() == 5
            &&& c.tags[0] == "sente"@ <==> d.side == Color::Sente
            &&& c.tags[0] == "gote"@ <==> d.side == Color::Gote
            &&& c.tags[1] == "early-middle"@ <==> d.plies < 50
            &&& c.tags[1] == "middle"@ <==> 50 <= d.plies < 90
            &&& c.tags[1] == "endgame"@ <==> d.plies >= 90
            &&& c.tags[2] == "in-check"@ <==> checked(d.pos, d.side)
            &&& c.tags[2] == "no-check"@ <==> !checked(d.pos, d.side)
            &&& c.tags[3] == "fouls-none"@ <==> d.fouls[0] + d.fouls[1] == 0
            &&& c.tags[3] == "fouls-before"@ <==> d.fouls[0] + d.fouls[1] > 0
            &&& c.tags[4] == "eventual-win"@ <==> (d.side == Color::Sente && result == "sente_win"@)
                || (d.side == Color::Gote && result == "gote_win"@)
            &&& c.tags[4] == "eventual-loss"@ <==> (d.side == Color::Gote && result == "sente_win"@)
                || (d.side == Color::Sente && result == "gote_win"@)
            &&& c.tags[4] == "eventual-draw"@ <==> result != "sente_win"@ && result != "gote_win"@
        }),
{
    reveal_strlit("sente");
    assert("sente"@.len() == 5);
    assert("sente"@[0] == 's');
    reveal_strlit("gote");
    assert("gote"@.len() == 4);
    assert("gote"@[0] == 'g');
    reveal_strlit("early-middle");
    assert("early-middle"@.len() == 12);
    assert("early-middle"@[0] == 'e');
    reveal_strlit("middle");
    assert("middle"@.len() == 6);
    assert("middle"@[0] == 'm');
    reveal_strlit("endgame");
    assert("endgame"@.len() == 7);
    assert("endgame"@[0] == 'e');
    reveal_strlit("in-check");
    assert("in-check"@.len() == 8);
    assert("in-check"@[0] == 'i');
    reveal_strlit("no-check");
    assert("no-check"@.len() == 8);
    assert("no-check"@[0] == 'n');
    reveal_strlit("fouls-none");
    assert("fouls-none"@.len() == 10);
    assert("fouls-none"@[0] == 'f');
    reveal_strlit("fouls-before");
    assert("fouls-before"@.len() == 12);
    assert("fouls-before"@[0] == 'f');
    reveal_strlit("eventual-win");
    assert("eventual-win"@.len() == 12);
    assert("eventual-win"@[0] == 'e');
    reveal_strlit("eventual-loss");
    assert("eventual-loss"@.len() == 13);
    assert("eventual-loss"@[9] == 'l');
    reveal_strlit("eventual-draw");
    assert("eventual-draw"@.len() == 13);
    assert("eventual-draw"@[9] == 'd');
    reveal_strlit("sente_win");
    assert("sente_win"@.len() == 9);
    assert("sente_win"@[0] == 's');
    reveal_strlit("gote_win");
    assert("gote_win"@.len() == 8);
    assert("gote_win"@[0] == 'g');
}

/// Only a score long enough can be restored, and only at the start of a turn, where no foul stands before
/// the move; what comes out is the state behind that many moves.
pub proof fn law_restored(plies: Seq<Ply>, ply: int)
    requires
        0 <= ply,
        plies.len() <= usize::MAX,
    ensures
        restored(plies, ply) is Ok <==> ply <= plies.len() && (ply == plies.len()
            || plies[ply].fouls@.len() == 0) && score_run(plies, ply) is Some,
        restored(plies, ply) matches Ok(s) ==> score_run(plies, ply) == Some(s),
        restored(plies, ply) matches Err(RestoreError::BeyondScore { plies: n }) ==> n == plies.len()
            && n < ply,
        ply > plies.len() ==> (restored(plies, ply) matches Err(e) && e is BeyondScore),
        ply < plies.len() && plies[ply].fouls@.len() > 0 ==> restored(plies, ply) == Err::<
            crate::check_economy::ReplayedModel,
            RestoreError,
        >(RestoreError::NotATurnStart),
{
}

/// A path joined to a directory ends with the path; an absolute path, or one below no directory, is not
/// changed, and there is exactly one slash more where the directory ends without one.
pub proof fn law_joined_path(dir: Seq<char>, path: Seq<char>)
    ensures
        path.is_suffix_of(joined_path(dir, path)),
        path.len() > 0 && path[0] == '/' ==> joined_path(dir, path) == path,
        joined_path(Seq::empty(), path) == path,
        path.len() > 0 && path[0] != '/' && dir.len() > 0 ==> dir.is_prefix_of(
            joined_path(dir, path),
        ) && joined_path(dir, path)[joined_path(dir, path).len() - path.len() - 1] == '/'
            && joined_path(dir, path).len() == dir.len() + path.len() + (if dir.last() == '/' {
            0int
        } else {
            1
        }),
{
    let j = joined_path(dir, path);
    if dir.len() == 0 || (path.len() > 0 && path[0] == '/') {
    } else if dir.last() == '/' {
        assert(j == dir + path);
    } else {
        assert(j =~= dir + (seq!['/'] + path));
    }
}

/// A deck entry is found by its id where there is one, the first of them.
pub proof fn law_entry_is_found(entries: Seq<DeckEntry>, id: Seq<char>)
    ensures
        entry_place(entries, id, 0) is Some <==> exists|i: int|
            0 <= i < entries.len() && (#[trigger] entries[i]).id@ == id,
        entry_place(entries, id, 0) matches Some(i) ==> 0 <= i < entries.len() && entries[i].id@ == id
            && forall|k: int| 0 <= k < i ==> (#[trigger] entries[k]).id@ != id,
{
    lemma_entry_from(entries, id, 0);
}

proof fn lemma_entry_from(entries: Seq<DeckEntry>, id: Seq<char>, from: int)
    requires
        0 <= from <= entries.len(),
    ensures
        entry_place(entries, id, from) is Some <==> exists|i: int|
            from <= i < entries.len() && (#[trigger] entries[i]).id@ == id,
        entry_place(entries, id, from) matches Some(i) ==> from <= i < entries.len() && entries[i].id@
            == id && forall|k: int| from <= k < i ==> (#[trigger] entries[k]).id@ != id,
    decreases entries.len() - from,
{
    if from < entries.len() {
        lemma_entry_from(entries, id, from + 1);
    }
}

/// How many of the picked checkpoints are of one phase and side to move: one more with each that has
/// both, and no more with another.
pub proof fn law_strata(
    picked: Seq<(Seq<char>, CandidateModel)>,
    p: (Seq<char>, CandidateModel),
    c: CandidateModel,
)
    ensures
        same_stratum(picked.push(p), c) == same_stratum(picked, c) + (if p.1.tags[0] == c.tags[0] && ((
        p.1.ply < 50 && c.ply < 50) || (50 <= p.1.ply < 90 && 50 <= c.ply < 90) || (p.1.ply >= 90
            && c.ply >= 90)) {
            1int
        } else {
            0
        }),
        same_stratum(Seq::empty(), c) == 0,
{
    let same = |x: (Seq<char>, CandidateModel)|
        phase_of(x.1.ply) == phase_of(c.ply) && x.1.tags[0] == c.tags[0];
    lemma_filter_push(picked, p, same);
    reveal(Seq::filter);
    reveal_strlit("early-middle");
    assert("early-middle"@.len() == 12);
    assert("early-middle"@[0] == 'e');
    reveal_strlit("middle");
    assert("middle"@.len() == 6);
    assert("middle"@[0] == 'm');
    reveal_strlit("endgame");
    assert("endgame"@.len() == 7);
    assert("endgame"@[0] == 'e');
}

/// How often a tag occurs among the minor tags: those behind the first two.
pub proof fn law_minor_tags(
    picked: Seq<(Seq<char>, CandidateModel)>,
    p: (Seq<char>, CandidateModel),
    tag: Seq<char>,
)
    requires
        p.1.tags.len() == 5,
    ensures
        tag_total(picked.push(p), tag) == tag_total(picked, tag) + (if p.1.tags[2] == tag {
            1int
        } else {
            0
        }) + (if p.1.tags[3] == tag {
            1int
        } else {
            0
        }) + (if p.1.tags[4] == tag {
            1int
        } else {
            0
        }),
        tag_total(Seq::empty(), tag) == 0,
        tag_load(picked, p.1.tags, 5) == tag_total(picked, p.1.tags[2]) + tag_total(
            picked,
            p.1.tags[3],
        ) + tag_total(picked, p.1.tags[4]),
{
    assert(picked.push(p).drop_last() =~= picked);
    reveal_with_fuel(tag_count, 5);
    reveal_with_fuel(tag_load, 5);
}

/// The checkpoint taken of a game: none of the game has a rarer phase and side so far; of those as rare,
/// none has rarer minor tags; of those, none has a higher number to decide by.
pub proof fn law_most_wanted(
    picked: Seq<(Seq<char>, CandidateModel)>,
    seed: u64,
    g: GameOffer,
    n: int,
    k: int,
)
    requires
        0 <= k < n <= g.candidates.len(),
    ensures
        0 <= most_wanted(picked, seed, g, n) < n,
        ({
            let best = g.candidates[most_wanted(picked, seed, g, n)];
            let c = g.candidates[k];
            let rarity = |x: CandidateModel| same_stratum(picked, x);
            let load = |x: CandidateModel| tag_load(picked, x.tags, x.tags.len() as int);
            let tie = |x: CandidateModel| tie_hash(seed, g.id, x.ply);
            &&& rarity(best) <= rarity(c)
            &&& rarity(best) == rarity(c) ==> load(best) <= load(c)
            &&& rarity(best) == rarity(c) && load(best) == load(c) ==> tie(best) <= tie(c)
            &&& rarity(best) == rarity(c) && load(best) == load(c) && tie(best) == tie(c)
                ==> most_wanted(picked, seed, g, n) <= k
        }),
    decreases n,
{
    if n > 1 {
        if k < n - 1 {
            law_most_wanted(picked, seed, g, n - 1, k);
        } else {
            law_most_wanted(picked, seed, g, n - 1, 0);
        }
    }
}

/// With no share no game is set aside, with the full share every game is, and a larger share keeps those
/// of a smaller one: of a hundred shares, a game is in all above the remainder of its hash.
pub proof fn law_split(id: Seq<char>, a: u32, b: u32, seed: u64)
    ensures
        split_part(id, 0, seed) == "validation"@,
        a >= 100 ==> split_part(id, a, seed) == "dev"@,
        a <= b && split_part(id, a, seed) == "dev"@ ==> split_part(id, b, seed) == "dev"@,
        split_part(id, a, seed) == "dev"@ <==> a > text_hash(seed ^ 0x5F17_A9B3u64, id) % 100,
        split_part(id, a, seed) == "dev"@ || split_part(id, a, seed) == "validation"@,
        "dev"@ != "validation"@,
{
    reveal_strlit("dev");
    assert("dev"@.len() == 3);
    assert("dev"@[0] == 'd');
    reveal_strlit("validation");
    assert("validation"@.len() == 10);
    assert("validation"@[0] == 'v');
}

/// A game is won by one side at most, and a draw or an unknown result is won by none.
pub proof fn law_winners(result: Seq<char>)
    ensures
        winner_of(result) == Some(Color::Sente) <==> result == "sente_win"@,
        winner_of(result) == Some(Color::Gote) <==> result == "gote_win"@,
{
    reveal_strlit("sente_win");
    assert("sente_win"@.len() == 9);
    assert("sente_win"@[0] == 's');
    reveal_strlit("gote_win");
    assert("gote_win"@.len() == 8);
    assert("gote_win"@[0] == 'g');
}

/// Four reasons for an ending have a word of their own in a score, each another one.
pub proof fn law_endings(reason: Seq<char>)
    ensures
        ending_of(reason) == Some("反則負け"@) <==> reason == "foul_limit"@,
        ending_of(reason) == Some("投了"@) <==> reason == "resign"@,
        ending_of(reason) == Some("時間切れ"@) <==> reason == "timeout"@,
        ending_of(reason) == Some("中断"@) <==> reason == "max_plies"@,
        ending_of(reason) is None <==> reason != "foul_limit"@ && reason != "resign"@ && reason
            != "timeout"@ && reason != "max_plies"@,
{
    reveal_strlit("反則負け");
    assert("反則負け"@.len() == 4);
    assert("反則負け"@[0] == '反');
    reveal_strlit("投了");
    assert("投了"@.len() == 2);
    assert("投了"@[0] == '投');
    reveal_strlit("時間切れ");
    assert("時間切れ"@.len() == 4);
    assert("時間切れ"@[0] == '時');
    reveal_strlit("中断");
    assert("中断"@.len() == 2);
    assert("中断"@[0] == '中');
    reveal_strlit("foul_limit");
    assert("foul_limit"@.len() == 10);
    assert("foul_limit"@[0] == 'f');
    reveal_strlit("resign");
    assert("resign"@.len() == 6);
    assert("resign"@[0] == 'r');
    reveal_strlit("timeout");
    assert("timeout"@.len() == 7);
    assert("timeout"@[0] == 't');
    reveal_strlit("max_plies");
    assert("max_plies"@.len() == 9);
    assert("max_plies"@[0] == 'm');
}

} // verus!
