//! Decks of checkpoints: positions taken out of finished games at the start of a turn, from which
//! two versions of a strategy are played on and compared.

use crate::check_economy::ReplayedModel;
use crate::config::texts_of;
use crate::digest::{digest_hex, hex_of, is_hex_text, sha256_of};
use crate::json::{json_string, listed, quoted};
use crate::kifu::{replay, score_run, Kifu, Ply};
use crate::lists::{
    lemma_filter_keeps, lemma_ordered_once, lemma_placed_by, lemma_sorted_by_keeps,
    lemma_sorted_by_len, lemma_sorted_by_orders, sorted_by,
};
use crate::protocol::{Color, GameEndPayload};
use crate::replay::{
    decision_list, game_run, replay_game, Decision, DecisionModel, Replayed, SideLogs,
};
use crate::seeds::{stable_hash, text_hash};
use crate::shogi::checked;
use crate::text::{
    append_decimal, before, comes_before, decimal, lemma_not_before_chain, lemma_one_comes_first,
    same_text,
};
use vstd::prelude::*;
use vstd::string::*;
use vstd::utf8::encode_utf8;

verus! {

/// The version of the deck format.
pub const DECK_VERSION: u32 = 1;

/// A deck of checkpoints.
#[derive(Debug)]
pub struct Deck {
    pub version: u32,
    /// Where the games come from.
    pub source: String,
    /// The fixed version that the checkpoints are played on against.
    pub opponent: String,
    /// How many moves the game went on at least after each checkpoint.
    pub min_remaining_plies: u32,
    pub entries: Vec<DeckEntry>,
}

/// A checkpoint of a deck.
#[derive(Debug)]
pub struct DeckEntry {
    pub id: String,
    /// The score, relative to the deck.
    pub kif: String,
    /// How many moves of the score are played.
    pub ply: usize,
    /// `dev` or `validation`.
    pub split: String,
    /// The side to move, the phase, check, fouls and the result of the game.
    pub tags: Vec<String>,
}

/// Whether a text is one of several.
pub open spec fn has_text(list: Seq<String>, text: Seq<char>) -> bool {
    exists|i: int| 0 <= i < list.len() && #[trigger] list[i]@ == text
}

/// Whether a text is one of several.
pub fn contains_text(list: &Vec<String>, text: &str) -> (res: bool)
    ensures
        res == has_text(list@, text@),
{
    let mut i: usize = 0;
    while i < list.len()
        invariant
            i <= list@.len(),
            forall|k: int| 0 <= k < i ==> #[trigger] list@[k]@ != text@,
        decreases list@.len() - i,
    {
        if same_text(list[i].as_str(), text) {
            assert(list@[i as int]@ == text@);
            return true;
        }
        i += 1;
    }
    false
}

impl DeckEntry {
    /// Whether the checkpoint carries a tag.
    pub fn has_tag(&self, tag: &str) -> (res: bool)
        ensures
            res == has_text(self.tags@, tag@),
    {
        contains_text(&self.tags, tag)
    }

    /// The side to move.
    pub fn side(&self) -> (res: Color)
        ensures
            res == (if has_text(self.tags@, "gote"@) {
                Color::Gote
            } else {
                Color::Sente
            }),
    {
        if self.has_tag("gote") {
            Color::Gote
        } else {
            Color::Sente
        }
    }
}

/// The place of the first checkpoint with an id.
pub open spec fn entry_place(entries: Seq<DeckEntry>, id: Seq<char>, i: int) -> Option<int>
    decreases entries.len() - i,
{
    if i < 0 || i >= entries.len() {
        None
    } else if entries[i].id@ == id {
        Some(i)
    } else {
        entry_place(entries, id, i + 1)
    }
}

/// A checkpoint of a deck as it is written out.
pub open spec fn entry_text(e: DeckEntry) -> Seq<char> {
    "{\"id\":"@ + quoted(e.id@) + ",\"kif\":"@ + quoted(e.kif@) + ",\"ply\":"@ + decimal(e.ply as nat)
        + ",\"split\":"@ + quoted(e.split@) + ",\"tags\":["@ + listed(
        e.tags@.map_values(|t: String| quoted(t@)),
        e.tags@.len() as int,
    ) + "]}"@
}

/// A deck as it is written out on one line.
pub open spec fn deck_text(d: Deck) -> Seq<char> {
    "{\"version\":"@ + decimal(d.version as nat) + ",\"source\":"@ + quoted(d.source@)
        + ",\"opponent\":"@ + quoted(d.opponent@) + ",\"min_remaining_plies\":"@ + decimal(
        d.min_remaining_plies as nat,
    ) + ",\"entries\":["@ + listed(
        d.entries@.map_values(|e: DeckEntry| entry_text(e)),
        d.entries@.len() as int,
    ) + "]}"@
}

fn append_entry(out: &mut String, e: &DeckEntry)
    ensures
        final(out)@ == old(out)@ + entry_text(*e),
{
    let ghost start = out@;
    out.append("{\"id\":");
    out.append(json_string(e.id.as_str()).as_str());
    out.append(",\"kif\":");
    out.append(json_string(e.kif.as_str()).as_str());
    out.append(",\"ply\":");
    append_decimal(out, e.ply as u64);
    out.append(",\"split\":");
    out.append(json_string(e.split.as_str()).as_str());
    out.append(",\"tags\":[");
    let ghost texts = e.tags@.map_values(|t: String| quoted(t@));
    let ghost head = out@;
    let mut i: usize = 0;
    assert(out@ =~= head + listed(texts, 0));
    while i < e.tags.len()
        invariant
            i <= e.tags@.len(),
            texts == e.tags@.map_values(|t: String| quoted(t@)),
            out@ == head + listed(texts, i as int),
        decreases e.tags@.len() - i,
    {
        if i > 0 {
            out.append(",");
        }
        out.append(json_string(e.tags[i].as_str()).as_str());
        i += 1;
        assert(out@ =~= head + listed(texts, i as int));
    }
    out.append("]}");
    assert(out@ =~= start + entry_text(*e));
}

impl Deck {
    /// Refuses a deck of another version, with the words to say so.
    pub fn check_version(&self) -> (res: Result<(), String>)
        ensures
            res is Ok <==> self.version == DECK_VERSION,
            res matches Err(e) ==> e@ == "デッキ version "@ + decimal(self.version as nat)
                + " は未対応です（対応 "@ + decimal(DECK_VERSION as nat) + "）"@,
    {
        if self.version == DECK_VERSION {
            return Ok(());
        }
        let mut text = "デッキ version ".to_owned();
        append_decimal(&mut text, self.version as u64);
        text.append(" は未対応です（対応 ");
        append_decimal(&mut text, DECK_VERSION as u64);
        text.append("）");
        Err(text)
    }

    /// The deck as it is written out on one line.
    pub fn text(&self) -> (res: String)
        ensures
            res@ == deck_text(*self),
    {
        let mut out = "{\"version\":".to_owned();
        append_decimal(&mut out, self.version as u64);
        out.append(",\"source\":");
        out.append(json_string(self.source.as_str()).as_str());
        out.append(",\"opponent\":");
        out.append(json_string(self.opponent.as_str()).as_str());
        out.append(",\"min_remaining_plies\":");
        append_decimal(&mut out, self.min_remaining_plies as u64);
        out.append(",\"entries\":[");
        let ghost texts = self.entries@.map_values(|e: DeckEntry| entry_text(e));
        let ghost head = out@;
        let mut i: usize = 0;
        assert(out@ =~= head + listed(texts, 0));
        while i < self.entries.len()
            invariant
                i <= self.entries@.len(),
                texts == self.entries@.map_values(|e: DeckEntry| entry_text(e)),
                out@ == head + listed(texts, i as int),
            decreases self.entries@.len() - i,
        {
            if i > 0 {
                out.append(",");
            }
            append_entry(&mut out, &self.entries[i]);
            i += 1;
            assert(out@ =~= head + listed(texts, i as int));
        }
        out.append("]}");
        assert(out@ =~= deck_text(*self));
        out
    }

    /// The short digest of a deck: two runs with the same one have used the same deck.
    pub fn hash(&self) -> (res: String)
        requires
            encode_utf8(deck_text(*self)).len() < 0x2000_0000_0000_0000,
        ensures
            res@ == hex_of(sha256_of(encode_utf8(deck_text(*self))).take(8)),
            res@.len() == 16,
            is_hex_text(res@),
    {
        let text = self.text();
        digest_hex(text.as_str().as_bytes(), 8)
    }

    /// The first checkpoint with an id.
    pub fn entry(&self, id: &str) -> (res: Option<&DeckEntry>)
        ensures
            match entry_place(self.entries@, id@, 0) {
                Some(i) => res == Some(&self.entries@[i]),
                None => res is None,
            },
    {
        let mut i: usize = 0;
        while i < self.entries.len()
            invariant
                i <= self.entries@.len(),
                entry_place(self.entries@, id@, 0) == entry_place(self.entries@, id@, i as int),
            decreases self.entries@.len() - i,
        {
            if same_text(self.entries[i].id.as_str(), id) {
                return Some(&self.entries[i]);
            }
            i += 1;
        }
        None
    }
}

/// Why a checkpoint cannot be restored.
#[derive(Debug, PartialEq, Eq)]
pub enum RestoreError {
    /// It lies behind the end of the score.
    BeyondScore { plies: usize },
    /// A foul was tried in its turn, so that the turn does not start there.
    NotATurnStart,
    /// The score does not hold together.
    BrokenScore,
}

/// What becomes of restoring a checkpoint: its state, or why there is none.
pub open spec fn restored(plies: Seq<Ply>, ply: int) -> Result<ReplayedModel, RestoreError> {
    if ply > plies.len() {
        Err(RestoreError::BeyondScore { plies: plies.len() as usize })
    } else if ply < plies.len() && plies[ply].fouls@.len() > 0 {
        Err(RestoreError::NotATurnStart)
    } else {
        match score_run(plies, ply) {
            Some(s) => Ok(s),
            None => Err(RestoreError::BrokenScore),
        }
    }
}

/// Restores the state of a checkpoint from its score.
pub fn restore(entry: &DeckEntry, kifu: &Kifu) -> (res: Result<Replayed, RestoreError>)
    requires
        kifu.plies@.len() <= u32::MAX,
    ensures
        match res {
            Ok(rep) => restored(kifu.plies@, entry.ply as int) == Ok::<ReplayedModel, RestoreError>(
                rep@,
            ),
            Err(e) => restored(kifu.plies@, entry.ply as int) == Err::<ReplayedModel, RestoreError>(
                e,
            ),
        },
{
    if entry.ply > kifu.plies.len() {
        return Err(RestoreError::BeyondScore { plies: kifu.plies.len() });
    }
    if entry.ply < kifu.plies.len() && kifu.plies[entry.ply].fouls.len() > 0 {
        return Err(RestoreError::NotATurnStart);
    }
    match replay(kifu, entry.ply) {
        Some(rep) => Ok(rep),
        None => Err(RestoreError::BrokenScore),
    }
}

/// The words for a checkpoint that cannot be restored.
pub fn restore_message(entry: &DeckEntry, error: &RestoreError) -> (res: String)
    ensures
        res@ == match *error {
            RestoreError::BeyondScore { plies } => entry.id@ + ": ply="@ + decimal(
                entry.ply as nat,
            ) + " が棋譜の手数 "@ + decimal(plies as nat) + " を超えています"@,
            RestoreError::NotATurnStart => entry.id@ + ": ply="@ + decimal(entry.ply as nat)
                + " は手番境界ではありません（その手番に反則試行あり）"@,
            RestoreError::BrokenScore => entry.id@ + ": ply="@ + decimal(entry.ply as nat)
                + " までの棋譜が裁定に合いません"@,
        },
{
    let mut text = entry.id.clone();
    text.append(": ply=");
    append_decimal(&mut text, entry.ply as u64);
    match *error {
        RestoreError::BeyondScore { plies } => {
            text.append(" が棋譜の手数 ");
            append_decimal(&mut text, plies as u64);
            text.append(" を超えています");
        },
        RestoreError::NotATurnStart => {
            text.append(" は手番境界ではありません（その手番に反則試行あり）");
        },
        RestoreError::BrokenScore => {
            text.append(" までの棋譜が裁定に合いません");
        },
    }
    text
}

/// A path inside a directory; an absolute path stays as it is.
pub open spec fn joined_path(dir: Seq<char>, path: Seq<char>) -> Seq<char> {
    if dir.len() == 0 || (path.len() > 0 && path[0] == '/') {
        path
    } else if dir.last() == '/' {
        dir + path
    } else {
        dir + seq!['/'] + path
    }
}

/// Where the score of a checkpoint lies, the deck lying in `dir`.
pub fn kif_path(dir: &str, entry: &DeckEntry) -> (res: String)
    ensures
        res@ == joined_path(dir@, entry.kif@),
{
    let n: usize = dir.unicode_len();
    let kif = entry.kif.as_str();
    if n == 0 || (kif.unicode_len() > 0 && kif.get_char(0) == '/') {
        return entry.kif.clone();
    }
    let mut out = dir.to_owned();
    if dir.get_char(n - 1) != '/' {
        proof {
            reveal_strlit("/");
        }
        out.append("/");
        assert(out@ =~= dir@ + seq!['/']);
    }
    out.append(kif);
    out
}

/// The phase of a game by the number of moves made.
pub open spec fn phase_of(ply: int) -> Seq<char> {
    if ply <= 49 {
        "early-middle"@
    } else if ply <= 89 {
        "middle"@
    } else {
        "endgame"@
    }
}

/// The phase of a game by the number of moves made.
pub fn phase_tag(ply: usize) -> (res: &'static str)
    ensures
        res@ == phase_of(ply as int),
{
    if ply <= 49 {
        "early-middle"
    } else if ply <= 89 {
        "middle"
    } else {
        "endgame"
    }
}

/// The side that won by the result of a game.
pub open spec fn winner_of(result: Seq<char>) -> Option<Color> {
    if result == "sente_win"@ {
        Some(Color::Sente)
    } else if result == "gote_win"@ {
        Some(Color::Gote)
    } else {
        None
    }
}

/// The tag for how the game went for a side.
pub open spec fn eventual_of(result: Seq<char>, side: Color) -> Seq<char> {
    match winner_of(result) {
        Some(w) => if w == side {
            "eventual-win"@
        } else {
            "eventual-loss"@
        },
        None => "eventual-draw"@,
    }
}

/// How the game went for a side.
pub fn eventual_tag(result: &str, side: Color) -> (res: &'static str)
    ensures
        res@ == eventual_of(result@, side),
{
    let winner = if same_text(result, "sente_win") {
        Some(Color::Sente)
    } else if same_text(result, "gote_win") {
        Some(Color::Gote)
    } else {
        None
    };
    match winner {
        Some(w) => {
            if w == side {
                "eventual-win"
            } else {
                "eventual-loss"
            }
        },
        None => "eventual-draw",
    }
}

/// A decision of a game that could become a checkpoint.
#[derive(Debug)]
pub struct Candidate {
    pub ply: usize,
    pub side: Color,
    pub in_check: bool,
    pub fouls: [u32; 2],
    /// How many moves the game went on.
    pub remaining_plies: u32,
    /// The side to move, the phase, check, fouls and the result of the game.
    pub tags: Vec<String>,
}

/// The mathematical content of a `Candidate`.
#[verifier::ext_equal]
pub struct CandidateModel {
    pub ply: int,
    pub side: Color,
    pub in_check: bool,
    pub fouls: Seq<u32>,
    pub remaining_plies: u32,
    pub tags: Seq<Seq<char>>,
}

impl View for Candidate {
    type V = CandidateModel;

    open spec fn view(&self) -> CandidateModel {
        CandidateModel {
            ply: self.ply as int,
            side: self.side,
            in_check: self.in_check,
            fouls: self.fouls@,
            remaining_plies: self.remaining_plies,
            tags: texts_of(self.tags@),
        }
    }
}

fn copy_texts(list: &Vec<String>) -> (res: Vec<String>)
    ensures
        texts_of(res@) == texts_of(list@),
{
    let mut out: Vec<String> = Vec::new();
    let mut i: usize = 0;
    while i < list.len()
        invariant
            i <= list@.len(),
            out@.len() == i,
            forall|k: int| 0 <= k < i ==> (#[trigger] out@[k])@ == list@[k]@,
        decreases list@.len() - i,
    {
        out.push(list[i].clone());
        i += 1;
    }
    assert(texts_of(out@) =~= texts_of(list@));
    out
}

impl Clone for Candidate {
    fn clone(&self) -> (res: Candidate)
        ensures
            res@ == self@,
    {
        Candidate {
            ply: self.ply,
            side: self.side,
            in_check: self.in_check,
            fouls: self.fouls,
            remaining_plies: self.remaining_plies,
            tags: copy_texts(&self.tags),
        }
    }
}

/// Whether a decision can become a checkpoint: the start of a turn, not the first of the game, and
/// the game went on long enough.
pub open spec fn eligible(d: DecisionModel, total: int, min_remaining: u32) -> bool {
    d.fouls_this_turn == 0 && d.plies != 0 && total - d.plies >= min_remaining
}

/// The checkpoint of a decision.
pub open spec fn candidate_of(d: DecisionModel, total: int, result: Seq<char>) -> CandidateModel {
    let in_check = checked(d.pos, d.side);
    CandidateModel {
        ply: d.plies as int,
        side: d.side,
        in_check,
        fouls: d.fouls,
        remaining_plies: (total - d.plies) as u32,
        tags: seq![
            if d.side == Color::Sente {
                "sente"@
            } else {
                "gote"@
            },
            phase_of(d.plies as int),
            if in_check {
                "in-check"@
            } else {
                "no-check"@
            },
            if d.fouls[0] > 0 || d.fouls[1] > 0 {
                "fouls-before"@
            } else {
                "fouls-none"@
            },
            eventual_of(result, d.side),
        ],
    }
}

/// The contents of a list of candidates.
pub open spec fn candidate_list(list: Seq<Candidate>) -> Seq<CandidateModel> {
    list.map_values(|c: Candidate| c@)
}

/// The checkpoints that a game offers; none where its record does not hold together.
pub open spec fn offered(end: GameEndPayload, min_remaining: u32) -> Option<Seq<CandidateModel>> {
    let run = game_run(end);
    let total = end.moves@.len() as int;
    if run.ok {
        Some(
            run.decisions.filter(|d: DecisionModel| eligible(d, total, min_remaining)).map_values(
                |d: DecisionModel| candidate_of(d, total, end.result@),
            ),
        )
    } else {
        None
    }
}

fn make_candidate(d: &Decision, total: u32, result: &str) -> (res: Candidate)
    requires
        d.plies <= total,
    ensures
        res@ == candidate_of(d@, total as int, result@),
{
    let in_check = d.pos.in_check(d.side);
    let side = if d.side == Color::Sente {
        "sente"
    } else {
        "gote"
    };
    let check = if in_check {
        "in-check"
    } else {
        "no-check"
    };
    let fouls = if d.fouls[0] > 0 || d.fouls[1] > 0 {
        "fouls-before"
    } else {
        "fouls-none"
    };
    let mut tags: Vec<String> = Vec::new();
    tags.push(side.to_owned());
    tags.push(phase_tag(d.plies as usize).to_owned());
    tags.push(check.to_owned());
    tags.push(fouls.to_owned());
    tags.push(eventual_tag(result, d.side).to_owned());
    let res = Candidate {
        ply: d.plies as usize,
        side: d.side,
        in_check,
        fouls: d.fouls,
        remaining_plies: total - d.plies,
        tags,
    };
    assert(res@.tags =~= candidate_of(d@, total as int, result@).tags);
    res
}

/// Lists the decisions of a game that can become checkpoints.
pub fn candidates(end: &GameEndPayload, min_remaining_plies: u32) -> (res: Option<Vec<Candidate>>)
    requires
        end.moves@.len() <= u32::MAX,
        end.foul_attempts@.len() <= u32::MAX,
    ensures
        res is Some <==> offered(*end, min_remaining_plies) is Some,
        res matches Some(list) ==> Some(candidate_list(list@)) == offered(
            *end,
            min_remaining_plies,
        ),
{
    let total: u32 = end.moves.len() as u32;
    let replay = replay_game(end);
    if !replay.ok {
        return None;
    }
    let ghost all = game_run(*end).decisions;
    let ghost good = |d: DecisionModel| eligible(d, total as int, min_remaining_plies);
    let ghost pick = |d: DecisionModel| candidate_of(d, total as int, end.result@);
    let mut out: Vec<Candidate> = Vec::new();
    let mut i: usize = 0;
    assert(all.take(0).filter(good) =~= Seq::<DecisionModel>::empty()) by {
        reveal(Seq::filter);
    }
    assert(candidate_list(out@) =~= all.take(0).filter(good).map_values(pick));
    proof {
        crate::check_prep::lemma_decision_ids(
            end.moves@,
            crate::replay::by_number(end.foul_attempts@),
            end.moves@.len() as int,
        );
    }
    while i < replay.decisions.len()
        invariant
            i <= replay.decisions@.len(),
            all == decision_list(replay.decisions@),
            all.len() == total,
            forall|k: int| 0 <= k < all.len() ==> (#[trigger] all[k]).plies == k,
            good == (|d: DecisionModel| eligible(d, total as int, min_remaining_plies)),
            pick == (|d: DecisionModel| candidate_of(d, total as int, end.result@)),
            candidate_list(out@) == all.take(i as int).filter(good).map_values(pick),
        decreases replay.decisions@.len() - i,
    {
        let d = &replay.decisions[i];
        let ghost before_ = out@;
        let ghost kept = all.take(i as int).filter(good);
        proof {
            assert(all[i as int] == d@);
            assert(all.take(i + 1) =~= all.take(i as int).push(d@));
            all.take(i as int).lemma_filter_push(d@, good);
        }
        if d.fouls_this_turn == 0 && d.plies != 0 && total - d.plies >= min_remaining_plies {
            let c = make_candidate(d, total, end.result.as_str());
            out.push(c);
            proof {
                assert(candidate_list(out@) =~= candidate_list(before_).push(pick(d@)));
                assert(kept.push(d@).map_values(pick) =~= kept.map_values(pick).push(pick(d@)));
            }
        }
        i += 1;
    }
    assert(all.take(i as int) =~= all);
    Some(out)
}

/// A checkpoint is never the first decision of a game, nor one in whose turn a foul was tried, nor
/// one too near to the end; its five tags tell what it is.
pub proof fn law_candidates_start_turns(end: GameEndPayload, min_remaining: u32, i: int)
    requires
        end.moves@.len() <= u32::MAX,
        offered(end, min_remaining) is Some,
        0 <= i < offered(end, min_remaining)->0.len(),
    ensures
        ({
            let c = offered(end, min_remaining)->0[i];
            let d = game_run(end).decisions[c.ply];
            &&& 0 < c.ply < end.moves@.len()
            &&& d.fouls_this_turn == 0
            &&& c == candidate_of(d, end.moves@.len() as int, end.result@)
            &&& c.remaining_plies >= min_remaining
            &&& c.tags.len() == 5
        }),
{
    let total = end.moves@.len() as int;
    let all = game_run(end).decisions;
    let good = |d: DecisionModel| eligible(d, total, min_remaining);
    all.lemma_filter_pred(good, i);
    let d = all.filter(good)[i];
    assert(all.filter(good).contains(d));
    crate::lists::lemma_filter_contains_iff(all, good, d);
    let k = choose|k: int| 0 <= k < all.len() && all[k] == d;
    crate::check_prep::lemma_decision_ids(
        end.moves@,
        crate::replay::by_number(end.foul_attempts@),
        total,
    );
    assert(all[k].plies == k);
}

/// The candidates of one game.
#[derive(Debug)]
pub struct GameCandidates {
    pub game_id: String,
    pub candidates: Vec<Candidate>,
}

/// The mathematical content of a `GameCandidates`.
pub struct GameOffer {
    pub id: Seq<char>,
    pub candidates: Seq<CandidateModel>,
}

impl View for GameCandidates {
    type V = GameOffer;

    open spec fn view(&self) -> GameOffer {
        GameOffer { id: self.game_id@, candidates: candidate_list(self.candidates@) }
    }
}

/// The contents of a list of games.
pub open spec fn offers_of(games: Seq<GameCandidates>) -> Seq<GameOffer> {
    games.map_values(|g: GameCandidates| g@)
}

/// Whether a game may be gone through before another: by the hash of the id, then by the id.
pub open spec fn goes_first(seed: u64, a: GameOffer, b: GameOffer) -> bool {
    text_hash(seed, a.id) < text_hash(seed, b.id) || (text_hash(seed, a.id) == text_hash(seed, b.id)
        && !comes_before(b.id, a.id))
}

/// The games that offer something, in the order in which they are gone through.
pub open spec fn pick_order(offers: Seq<GameOffer>, seed: u64) -> Seq<GameOffer> {
    sorted_by(
        offers.filter(|g: GameOffer| g.candidates.len() > 0),
        |a: GameOffer, b: GameOffer| goes_first(seed, a, b),
    )
}

/// How many of the checkpoints picked so far have the phase and side to move of another.
pub open spec fn same_stratum(picked: Seq<(Seq<char>, CandidateModel)>, c: CandidateModel) -> nat {
    picked.filter(
        |p: (Seq<char>, CandidateModel)|
            phase_of(p.1.ply) == phase_of(c.ply) && p.1.tags[0] == c.tags[0],
    ).len()
}

/// How often a tag occurs behind the first two of a row.
pub open spec fn tag_count(tags: Seq<Seq<char>>, tag: Seq<char>, n: int) -> nat
    decreases n,
{
    if n <= 2 {
        0
    } else {
        tag_count(tags, tag, n - 1) + (if tags[n - 1] == tag {
            1nat
        } else {
            0nat
        })
    }
}

/// How often a tag occurs among the minor tags of the checkpoints picked so far.
pub open spec fn tag_total(picked: Seq<(Seq<char>, CandidateModel)>, tag: Seq<char>) -> nat
    decreases picked.len(),
{
    if picked.len() == 0 {
        0
    } else {
        tag_total(picked.drop_last(), tag) + tag_count(
            picked.last().1.tags,
            tag,
            picked.last().1.tags.len() as int,
        )
    }
}

/// How often the minor tags of a checkpoint occur among those picked so far, taken together.
pub open spec fn tag_load(
    picked: Seq<(Seq<char>, CandidateModel)>,
    tags: Seq<Seq<char>>,
    n: int,
) -> nat
    decreases n,
{
    if n <= 2 {
        0
    } else {
        tag_load(picked, tags, n - 1) + tag_total(picked, tags[n - 1])
    }
}

/// The number that decides between checkpoints that are equally wanted.
pub open spec fn tie_hash(seed: u64, id: Seq<char>, ply: int) -> u64 {
    text_hash(seed ^ 0x9E37u64, id + seq![':'] + decimal(ply as nat))
}

/// Whether a checkpoint of a game is wanted less than another: its phase and side are more frequent
/// so far, then its minor tags, then by hash.
pub open spec fn wanted_less(
    picked: Seq<(Seq<char>, CandidateModel)>,
    seed: u64,
    id: Seq<char>,
    a: CandidateModel,
    b: CandidateModel,
) -> bool {
    let pa = same_stratum(picked, a);
    let pb = same_stratum(picked, b);
    let sa = tag_load(picked, a.tags, a.tags.len() as int);
    let sb = tag_load(picked, b.tags, b.tags.len() as int);
    pa > pb || (pa == pb && (sa > sb || (sa == sb && tie_hash(seed, id, a.ply) > tie_hash(
        seed,
        id,
        b.ply,
    ))))
}

/// The place of the checkpoint of a game that is wanted most, the first of equals, among the first
/// `n`.
pub open spec fn most_wanted(
    picked: Seq<(Seq<char>, CandidateModel)>,
    seed: u64,
    g: GameOffer,
    n: int,
) -> int
    decreases n,
{
    if n <= 1 {
        0
    } else {
        let best = most_wanted(picked, seed, g, n - 1);
        if wanted_less(picked, seed, g.id, g.candidates[best], g.candidates[n - 1]) {
            n - 1
        } else {
            best
        }
    }
}

/// The checkpoints picked from the first `n` games of an order, at most `limit` unless that is zero.
pub open spec fn picked_from(order: Seq<GameOffer>, limit: int, seed: u64, n: int) -> Seq<
    (Seq<char>, CandidateModel),
>
    decreases n,
{
    if n <= 0 {
        Seq::empty()
    } else {
        let picked = picked_from(order, limit, seed, n - 1);
        let g = order[n - 1];
        if limit > 0 && picked.len() >= limit {
            picked
        } else {
            picked.push(
                (g.id, g.candidates[most_wanted(picked, seed, g, g.candidates.len() as int)]),
            )
        }
    }
}

/// The checkpoints of a deck: one of each game gone through, ordered by game.
pub open spec fn stratified(offers: Seq<GameOffer>, limit: int, seed: u64) -> Seq<
    (Seq<char>, CandidateModel),
> {
    let order = pick_order(offers, seed);
    sorted_by(
        picked_from(order, limit, seed, order.len() as int),
        |a: (Seq<char>, CandidateModel), b: (Seq<char>, CandidateModel)| !comes_before(b.0, a.0),
    )
}

/// The contents of a list of picked checkpoints.
pub open spec fn pick_list(picked: Seq<(String, Candidate)>) -> Seq<(Seq<char>, CandidateModel)> {
    picked.map_values(|p: (String, Candidate)| (p.0@, p.1@))
}

/// Whether every candidate carries at least the tags of its side and its phase.
pub open spec fn fully_tagged(games: Seq<GameCandidates>) -> bool {
    forall|i: int, j: int|
        0 <= i < games.len() && 0 <= j < games[i].candidates@.len() ==> (
        #[trigger] games[i].candidates@[j]).tags@.len() >= 2
}

/// The games that offer something, by their places, in the order in which they are gone through.
fn order_games(games: &Vec<GameCandidates>, seed: u64) -> (res: Vec<usize>)
    ensures
        forall|k: int| 0 <= k < res@.len() ==> #[trigger] res@[k] < games@.len(),
        forall|k: int|
            0 <= k < res@.len() ==> games@[#[trigger] res@[k] as int].candidates@.len() > 0,
        res@.map_values(|i: usize| games@[i as int]@) == pick_order(offers_of(games@), seed),
{
    let ghost offers = offers_of(games@);
    let ghost some = |g: GameOffer| g.candidates.len() > 0;
    let ghost le = |a: GameOffer, b: GameOffer| goes_first(seed, a, b);
    let ghost at = |i: usize| games@[i as int]@;
    let mut order: Vec<usize> = Vec::new();
    let mut i: usize = 0;
    assert(offers.take(0).filter(some) =~= Seq::<GameOffer>::empty()) by {
        reveal(Seq::filter);
    }
    assert(order@.map_values(at) =~= Seq::<GameOffer>::empty());
    while i < games.len()
        invariant
            i <= games@.len(),
            offers == offers_of(games@),
            some == (|g: GameOffer| g.candidates.len() > 0),
            le == (|a: GameOffer, b: GameOffer| goes_first(seed, a, b)),
            at == (|i: usize| games@[i as int]@),
            forall|k: int| 0 <= k < order@.len() ==> #[trigger] order@[k] < games@.len(),
            forall|k: int|
                0 <= k < order@.len() ==> games@[#[trigger] order@[k] as int].candidates@.len() > 0,
            order@.map_values(at) == sorted_by(offers.take(i as int).filter(some), le),
        decreases games@.len() - i,
    {
        let ghost kept = offers.take(i as int).filter(some);
        let ghost g = games@[i as int]@;
        proof {
            assert(offers.take(i + 1) =~= offers.take(i as int).push(g));
            offers.take(i as int).lemma_filter_push(g, some);
        }
        if games[i].candidates.len() > 0 {
            let key: u64 = stable_hash(seed, games[i].game_id.as_str());
            let ghost sorted = order@.map_values(at);
            let mut n: usize = order.len();
            let mut stop = false;
            while n > 0 && !stop
                invariant
                    n <= order@.len(),
                    i < games@.len(),
                    g == games@[i as int]@,
                    key == text_hash(seed, g.id),
                    sorted == order@.map_values(at),
                    at == (|i: usize| games@[i as int]@),
                    le == (|a: GameOffer, b: GameOffer| goes_first(seed, a, b)),
                    forall|k: int| 0 <= k < order@.len() ==> #[trigger] order@[k] < games@.len(),
                    forall|k: int| n <= k < sorted.len() ==> !le(#[trigger] sorted[k], g),
                    stop ==> n > 0 && le(sorted[n - 1], g),
                decreases
                        n,
                        (if stop {
                            0int
                        } else {
                            1int
                        }),
            {
                let other = &games[order[n - 1]];
                assert(sorted[n - 1] == other@);
                let theirs: u64 = stable_hash(seed, other.game_id.as_str());
                if theirs < key || (theirs == key && !before(
                    games[i].game_id.as_str(),
                    other.game_id.as_str(),
                )) {
                    stop = true;
                } else {
                    n -= 1;
                }
            }
            proof {
                lemma_placed_by(sorted, g, le, n as int);
                assert(kept.push(g).drop_last() =~= kept);
            }
            order.insert(n, i);
            assert(order@.map_values(at) =~= sorted.insert(n as int, g));
        }
        i += 1;
    }
    assert(offers.take(i as int) =~= offers);
    order
}

fn count_stratum(picked: &Vec<(String, Candidate)>, c: &Candidate) -> (res: usize)
    requires
        c.tags@.len() >= 2,
        forall|k: int| 0 <= k < picked@.len() ==> (#[trigger] picked@[k]).1.tags@.len() >= 2,
    ensures
        res == same_stratum(pick_list(picked@), c@),
        res <= picked@.len(),
{
    let ghost all = pick_list(picked@);
    let ghost same = |p: (Seq<char>, CandidateModel)|
        phase_of(p.1.ply) == phase_of(c@.ply) && p.1.tags[0] == c@.tags[0];
    let mut n: usize = 0;
    let mut i: usize = 0;
    proof {
        all.take(0).lemma_filter_len(same);
    }
    while i < picked.len()
        invariant
            i <= picked@.len(),
            n <= i,
            c.tags@.len() >= 2,
            forall|k: int| 0 <= k < picked@.len() ==> (#[trigger] picked@[k]).1.tags@.len() >= 2,
            all == pick_list(picked@),
            same == (|p: (Seq<char>, CandidateModel)|
                phase_of(p.1.ply) == phase_of(c@.ply) && p.1.tags[0] == c@.tags[0]),
            n == all.take(i as int).filter(same).len(),
        decreases picked@.len() - i,
    {
        let other = &picked[i].1;
        proof {
            assert(all.take(i + 1) =~= all.take(i as int).push(all[i as int]));
            all.take(i as int).lemma_filter_push(all[i as int], same);
            assert(all[i as int].1 == other@);
            assert(other@.tags[0] == other.tags@[0]@);
            assert(c@.tags[0] == c.tags@[0]@);
        }
        if same_text(phase_tag(other.ply), phase_tag(c.ply)) && other.tags[0] == c.tags[0] {
            n += 1;
        }
        i += 1;
    }
    assert(all.take(i as int) =~= all);
    n
}

fn count_tag(tags: &Vec<String>, tag: &String) -> (res: usize)
    requires
        tags@.len() >= 2,
    ensures
        res == tag_count(texts_of(tags@), tag@, tags@.len() as int),
{
    let ghost all = texts_of(tags@);
    let total: usize = tags.len();
    let mut n: usize = 0;
    let mut i: usize = 2;
    while i < total
        invariant
            2 <= i <= total == tags@.len(),
            all == texts_of(tags@),
            n <= i - 2,
            n == tag_count(all, tag@, i as int),
        decreases total - i,
    {
        assert(all[i as int] == tags@[i as int]@);
        if tags[i] == *tag {
            n += 1;
        }
        i += 1;
    }
    n
}

fn count_total(picked: &Vec<(String, Candidate)>, tag: &String) -> (res: u128)
    requires
        forall|k: int| 0 <= k < picked@.len() ==> (#[trigger] picked@[k]).1.tags@.len() >= 2,
    ensures
        res == tag_total(pick_list(picked@), tag@),
{
    let ghost all = pick_list(picked@);
    let total: usize = picked.len();
    let mut n: u128 = 0;
    let mut i: usize = 0;
    while i < total
        invariant
            i <= total == picked@.len(),
            forall|k: int| 0 <= k < picked@.len() ==> (#[trigger] picked@[k]).1.tags@.len() >= 2,
            all == pick_list(picked@),
            n <= i * usize::MAX,
            n == tag_total(all.take(i as int), tag@),
        decreases total - i,
    {
        proof {
            let t = all.take(i + 1);
            assert(t.drop_last() =~= all.take(i as int));
            assert(t.last() == all[i as int]);
            assert(all[i as int].1.tags.len() == picked@[i as int].1.tags@.len());
            assert((i + 1) * usize::MAX == i * usize::MAX + usize::MAX) by (nonlinear_arith);
            assert((i + 1) * usize::MAX <= usize::MAX * usize::MAX) by (nonlinear_arith)
                requires
                    i + 1 <= usize::MAX,
            ;
            assert(usize::MAX * usize::MAX <= u128::MAX) by (nonlinear_arith)
                requires
                    usize::MAX <= 0xffff_ffff_ffff_ffff,
            ;
        }
        n += count_tag(&picked[i].1.tags, tag) as u128;
        i += 1;
    }
    assert(all.take(i as int) =~= all);
    n
}

/// A count in two words, the higher one first.
pub open spec fn two_words(high: usize, low: u128) -> int {
    high * 0x1_0000_0000_0000_0000_0000_0000_0000_0000int + low
}

fn count_load(picked: &Vec<(String, Candidate)>, c: &Candidate) -> (res: (usize, u128))
    requires
        c.tags@.len() >= 2,
        forall|k: int| 0 <= k < picked@.len() ==> (#[trigger] picked@[k]).1.tags@.len() >= 2,
    ensures
        two_words(res.0, res.1) == tag_load(pick_list(picked@), c@.tags, c.tags@.len() as int),
{
    let ghost all = c@.tags;
    let total: usize = c.tags.len();
    let mut high: usize = 0;
    let mut low: u128 = 0;
    let mut i: usize = 2;
    while i < total
        invariant
            2 <= i <= total == c.tags@.len(),
            all == c@.tags,
            forall|k: int| 0 <= k < picked@.len() ==> (#[trigger] picked@[k]).1.tags@.len() >= 2,
            high <= i - 2,
            two_words(high, low) == tag_load(pick_list(picked@), all, i as int),
        decreases total - i,
    {
        assert(all[i as int] == c.tags@[i as int]@);
        let more: u128 = count_total(picked, &c.tags[i]);
        if low > u128::MAX - more {
            low = low - (u128::MAX - more) - 1;
            high += 1;
        } else {
            low += more;
        }
        i += 1;
    }
    (high, low)
}

fn tie_break(seed: u64, id: &String, ply: usize) -> (res: u64)
    ensures
        res == tie_hash(seed, id@, ply as int),
{
    let mut text = id.clone();
    proof {
        reveal_strlit(":");
    }
    text.append(":");
    assert(text@ =~= id@ + seq![':']);
    append_decimal(&mut text, ply as u64);
    stable_hash(seed ^ 0x9E37u64, text.as_str())
}

/// The place of the candidate that is wanted most.
fn best_candidate(picked: &Vec<(String, Candidate)>, seed: u64, g: &GameCandidates) -> (res: usize)
    requires
        g.candidates@.len() > 0,
        forall|k: int| 0 <= k < g.candidates@.len() ==> (#[trigger] g.candidates@[k]).tags@.len() >= 2,
        forall|k: int| 0 <= k < picked@.len() ==> (#[trigger] picked@[k]).1.tags@.len() >= 2,
    ensures
        res == most_wanted(pick_list(picked@), seed, g@, g.candidates@.len() as int),
        res < g.candidates@.len(),
{
    let ghost all = pick_list(picked@);
    let mut best: usize = 0;
    let mut p: usize = count_stratum(picked, &g.candidates[0]);
    let (mut s, mut r): (usize, u128) = count_load(picked, &g.candidates[0]);
    let mut h: u64 = tie_break(seed, &g.game_id, g.candidates[0].ply);
    let mut i: usize = 1;
    assert(g@.candidates[0] == g.candidates@[0]@);
    while i < g.candidates.len()
        invariant
            1 <= i <= g.candidates@.len(),
            best < i,
            all == pick_list(picked@),
            forall|k: int|
                0 <= k < g.candidates@.len() ==> (#[trigger] g.candidates@[k]).tags@.len() >= 2,
            forall|k: int| 0 <= k < picked@.len() ==> (#[trigger] picked@[k]).1.tags@.len() >= 2,
            best == most_wanted(all, seed, g@, i as int),
            p == same_stratum(all, g@.candidates[best as int]),
            two_words(s, r) == tag_load(
                all,
                g@.candidates[best as int].tags,
                g@.candidates[best as int].tags.len() as int,
            ),
            h == tie_hash(seed, g@.id, g@.candidates[best as int].ply),
        decreases g.candidates@.len() - i,
    {
        let c = &g.candidates[i];
        assert(g@.candidates[i as int] == c@);
        let cp: usize = count_stratum(picked, c);
        let (cs, cr): (usize, u128) = count_load(picked, c);
        let ch: u64 = tie_break(seed, &g.game_id, c.ply);
        if p > cp || (p == cp && (s > cs || (s == cs && (r > cr || (r == cr && h > ch))))) {
            best = i;
            p = cp;
            s = cs;
            r = cr;
            h = ch;
        }
        i += 1;
    }
    best
}

/// Orders picked checkpoints by game.
fn sort_picked(picked: Vec<(String, Candidate)>) -> (res: Vec<(String, Candidate)>)
    ensures
        pick_list(res@) == sorted_by(
            pick_list(picked@),
            |a: (Seq<char>, CandidateModel), b: (Seq<char>, CandidateModel)| !comes_before(
                b.0,
                a.0,
            ),
        ),
{
    let ghost le = |a: (Seq<char>, CandidateModel), b: (Seq<char>, CandidateModel)| !comes_before(
        b.0,
        a.0,
    );
    let ghost all = pick_list(picked@);
    let mut out: Vec<(String, Candidate)> = Vec::new();
    let mut i: usize = 0;
    assert(pick_list(out@) =~= Seq::<(Seq<char>, CandidateModel)>::empty());
    while i < picked.len()
        invariant
            i <= picked@.len(),
            all == pick_list(picked@),
            le == (|a: (Seq<char>, CandidateModel), b: (Seq<char>, CandidateModel)| !comes_before(
                b.0,
                a.0,
            )),
            pick_list(out@) == sorted_by(all.take(i as int), le),
        decreases picked@.len() - i,
    {
        let entry = (picked[i].0.clone(), picked[i].1.clone());
        let ghost x = all[i as int];
        let ghost sorted = pick_list(out@);
        let mut n: usize = out.len();
        while n > 0 && before(entry.0.as_str(), out[n - 1].0.as_str())
            invariant
                n <= out@.len(),
                entry.0@ == x.0,
                sorted == pick_list(out@),
                le == (|a: (Seq<char>, CandidateModel), b: (Seq<char>, CandidateModel)|
                    !comes_before(b.0, a.0)),
                forall|k: int| n <= k < sorted.len() ==> !le(#[trigger] sorted[k], x),
            decreases n,
        {
            assert(sorted[n - 1].0 == out@[n - 1].0@);
            n -= 1;
        }
        proof {
            if n > 0 {
                assert(sorted[n - 1].0 == out@[n - 1].0@);
            }
            lemma_placed_by(sorted, x, le, n as int);
            let t = all.take(i + 1);
            assert(t.drop_last() =~= all.take(i as int));
            assert(t.last() == x);
        }
        out.insert(n, entry);
        assert(pick_list(out@) =~= sorted.insert(n as int, x));
        i += 1;
    }
    assert(all.take(i as int) =~= all);
    out
}

/// Picks checkpoints, one of each game, so that phases, sides and the other tags come out evenly.
/// `limit` is the number of games to take, zero for all. The same seed picks the same ones.
pub fn stratified_pick(games: &Vec<GameCandidates>, limit: usize, seed: u64) -> (res: Vec<
    (String, Candidate),
>)
    requires
        fully_tagged(games@),
    ensures
        pick_list(res@) == stratified(offers_of(games@), limit as int, seed),
{
    let order = order_games(games, seed);
    let ghost line = pick_order(offers_of(games@), seed);
    let mut picked: Vec<(String, Candidate)> = Vec::new();
    let mut n: usize = 0;
    assert(pick_list(picked@) =~= Seq::<(Seq<char>, CandidateModel)>::empty());
    while n < order.len()
        invariant
            n <= order@.len(),
            fully_tagged(games@),
            forall|k: int| 0 <= k < order@.len() ==> #[trigger] order@[k] < games@.len(),
            forall|k: int|
                0 <= k < order@.len() ==> games@[#[trigger] order@[k] as int].candidates@.len() > 0,
            line == order@.map_values(|i: usize| games@[i as int]@),
            forall|k: int| 0 <= k < picked@.len() ==> (#[trigger] picked@[k]).1.tags@.len() >= 2,
            pick_list(picked@) == picked_from(line, limit as int, seed, n as int),
        decreases order@.len() - n,
    {
        let ghost before_ = picked@;
        if limit == 0 || picked.len() < limit {
            let g = &games[order[n]];
            assert(line[n as int] == g@);
            assert forall|k: int| 0 <= k < g.candidates@.len() implies (
            #[trigger] g.candidates@[k]).tags@.len() >= 2 by {
                assert(games@[order@[n as int] as int].candidates@[k].tags@.len() >= 2);
            }
            let best: usize = best_candidate(&picked, seed, g);
            let c = g.candidates[best].clone();
            assert(g@.candidates[best as int] == g.candidates@[best as int]@);
            assert(c@.tags.len() >= 2);
            picked.push((g.game_id.clone(), c));
            assert(pick_list(picked@) =~= pick_list(before_).push((g@.id, c@)));
        }
        n += 1;
    }
    sort_picked(picked)
}

/// At most one checkpoint is taken of each game: as many as there are games that offer one, up to
/// the limit.
pub proof fn law_one_checkpoint_per_game(offers: Seq<GameOffer>, limit: int, seed: u64)
    requires
        limit >= 0,
    ensures
        ({
            let n = offers.filter(|g: GameOffer| g.candidates.len() > 0).len();
            stratified(offers, limit, seed).len() == (if limit > 0 && limit < n {
                limit
            } else {
                n as int
            })
        }),
        forall|k: int|
            0 <= k < picked_from(pick_order(offers, seed), limit, seed, pick_order(offers, seed).len() as int).len()
                ==> (#[trigger] picked_from(
                pick_order(offers, seed),
                limit,
                seed,
                pick_order(offers, seed).len() as int,
            )[k]).0 == pick_order(offers, seed)[k].id,
{
    let some = |g: GameOffer| g.candidates.len() > 0;
    let le = |a: GameOffer, b: GameOffer| goes_first(seed, a, b);
    let order = pick_order(offers, seed);
    lemma_sorted_by_len(offers.filter(some), le);
    lemma_picked_len(order, limit, seed, order.len() as int);
    let by_id = |a: (Seq<char>, CandidateModel), b: (Seq<char>, CandidateModel)| !comes_before(
        b.0,
        a.0,
    );
    lemma_sorted_by_len(picked_from(order, limit, seed, order.len() as int), by_id);
}

/// Whether no two games have one id.
pub open spec fn distinct_games(offers: Seq<GameOffer>) -> bool {
    forall|i: int, j: int|
        0 <= i < j < offers.len() ==> (#[trigger] offers[i]).id != (#[trigger] offers[j]).id
}

/// The checkpoints of a deck stand by game, each game once.
pub proof fn law_picks_ascend(offers: Seq<GameOffer>, limit: int, seed: u64)
    requires
        limit >= 0,
        distinct_games(offers),
    ensures
        forall|i: int, j: int|
            0 <= i < j < stratified(offers, limit, seed).len() ==> comes_before(
                (#[trigger] stratified(offers, limit, seed)[i]).0,
                (#[trigger] stratified(offers, limit, seed)[j]).0,
            ),
{
    let order = pick_order(offers, seed);
    let picked = picked_from(order, limit, seed, order.len() as int);
    let by_id = |a: (Seq<char>, CandidateModel), b: (Seq<char>, CandidateModel)| !comes_before(
        b.0,
        a.0,
    );
    let out = stratified(offers, limit, seed);
    lemma_pick_order(offers, seed);
    lemma_picked_len(order, limit, seed, order.len() as int);
    lemma_by_id_orders(picked);
    lemma_sorted_by_keeps(picked, by_id);
    assert forall|i: int, j: int| 0 <= i < j < picked.len() implies (#[trigger] picked[i]).0 != (
    #[trigger] picked[j]).0 by {
        assert(picked[i].0 == order[i].id && picked[j].0 == order[j].id);
    }
    lemma_distinct_ids_kept(picked, out);
    assert forall|i: int, j: int| 0 <= i < j < out.len() implies comes_before(
        (#[trigger] out[i]).0,
        (#[trigger] out[j]).0,
    ) by {
        assert(by_id(out[i], out[j]));
        lemma_one_comes_first(out[i].0, out[j].0);
    }
}

/// Every checkpoint of a deck is one that its own game offers.
pub proof fn law_picks_are_offered(offers: Seq<GameOffer>, limit: int, seed: u64)
    requires
        limit >= 0,
    ensures
        forall|k: int|
            0 <= k < stratified(offers, limit, seed).len() ==> exists|g: GameOffer|
                #![trigger offers.contains(g)]
                offers.contains(g) && g.id == (#[trigger] stratified(offers, limit, seed)[k]).0
                    && g.candidates.contains(stratified(offers, limit, seed)[k].1),
{
    let order = pick_order(offers, seed);
    let picked = picked_from(order, limit, seed, order.len() as int);
    let by_id = |a: (Seq<char>, CandidateModel), b: (Seq<char>, CandidateModel)| !comes_before(
        b.0,
        a.0,
    );
    let out = stratified(offers, limit, seed);
    lemma_pick_members(offers, seed);
    lemma_picked_own(order, limit, seed, order.len() as int);
    lemma_picked_len(order, limit, seed, order.len() as int);
    lemma_sorted_by_keeps(picked, by_id);
    picked.to_multiset_ensures();
    out.to_multiset_ensures();
    assert forall|k: int| 0 <= k < out.len() implies exists|g: GameOffer|
        #![trigger offers.contains(g)]
        offers.contains(g) && g.id == (#[trigger] out[k]).0 && g.candidates.contains(out[k].1) by {
        assert(out.contains(out[k]));
        assert(picked.to_multiset().count(out[k]) > 0);
        assert(picked.contains(out[k]));
        let m = choose|m: int| 0 <= m < picked.len() && picked[m] == out[k];
        assert(picked[m].0 == order[m].id);
        assert(order[m].candidates.contains(picked[m].1));
        assert(offers.contains(order[m]));
    }
}

/// The checkpoints of a deck do not depend on the order in which the games are given.
pub proof fn law_picks_ignore_the_order_of_games(
    offers: Seq<GameOffer>,
    others: Seq<GameOffer>,
    limit: int,
    seed: u64,
)
    requires
        distinct_games(offers),
        offers.to_multiset() == others.to_multiset(),
    ensures
        stratified(offers, limit, seed) == stratified(others, limit, seed),
{
    let some = |g: GameOffer| g.candidates.len() > 0;
    let le = |a: GameOffer, b: GameOffer| goes_first(seed, a, b);
    let a = offers.filter(some);
    let b = others.filter(some);
    lemma_filter_keeps(offers, some);
    lemma_filter_keeps(others, some);
    lemma_sorted_by_keeps(a, le);
    lemma_sorted_by_keeps(b, le);
    lemma_goes_first_orders(a, seed);
    lemma_goes_first_orders(b, seed);
    lemma_pick_order(offers, seed);
    let s = pick_order(offers, seed);
    let t = pick_order(others, seed);
    assert forall|i: int, j: int|
        0 <= i < s.len() && 0 <= j < s.len() && le(#[trigger] s[i], #[trigger] s[j]) && le(
            s[j],
            s[i],
        ) implies s[i] == s[j] by {
        lemma_one_comes_first(s[i].id, s[j].id);
        assert(s[i].id == s[j].id);
        if i < j {
            assert(s[i].id != s[j].id);
        } else if j < i {
            assert(s[j].id != s[i].id);
        }
    }
    lemma_ordered_once(s, t, le);
}

/// The order in which games are gone through is a total one.
proof fn lemma_goes_first_orders(games: Seq<GameOffer>, seed: u64)
    ensures
        ({
            let le = |a: GameOffer, b: GameOffer| goes_first(seed, a, b);
            forall|i: int, j: int|
                0 <= i < j < sorted_by(games, le).len() ==> le(
                    #[trigger] sorted_by(games, le)[i],
                    #[trigger] sorted_by(games, le)[j],
                )
        }),
{
    let le = |a: GameOffer, b: GameOffer| goes_first(seed, a, b);
    assert forall|a: GameOffer, b: GameOffer| #[trigger] le(a, b) || le(b, a) by {
        lemma_one_comes_first(a.id, b.id);
    }
    assert forall|a: GameOffer, b: GameOffer, c: GameOffer|
        #[trigger] le(a, b) && #[trigger] le(b, c) implies le(a, c) by {
        if text_hash(seed, a.id) == text_hash(seed, b.id) && text_hash(seed, b.id) == text_hash(
            seed,
            c.id,
        ) {
            lemma_not_before_chain(a.id, b.id, c.id);
        }
    }
    lemma_sorted_by_orders(games, le);
}

proof fn lemma_by_id_orders(picked: Seq<(Seq<char>, CandidateModel)>)
    ensures
        ({
            let le = |a: (Seq<char>, CandidateModel), b: (Seq<char>, CandidateModel)|
                !comes_before(b.0, a.0);
            forall|i: int, j: int|
                0 <= i < j < sorted_by(picked, le).len() ==> le(
                    #[trigger] sorted_by(picked, le)[i],
                    #[trigger] sorted_by(picked, le)[j],
                )
        }),
{
    let le = |a: (Seq<char>, CandidateModel), b: (Seq<char>, CandidateModel)| !comes_before(
        b.0,
        a.0,
    );
    assert forall|a: (Seq<char>, CandidateModel), b: (Seq<char>, CandidateModel)| #[trigger]
        le(a, b) || le(b, a) by {
        lemma_one_comes_first(a.0, b.0);
    }
    assert forall|
        a: (Seq<char>, CandidateModel),
        b: (Seq<char>, CandidateModel),
        c: (Seq<char>, CandidateModel),
    | #[trigger] le(a, b) && #[trigger] le(b, c) implies le(a, c) by {
        lemma_not_before_chain(a.0, b.0, c.0);
    }
    lemma_sorted_by_orders(picked, le);
}

/// Rearranging checkpoints of different games leaves the games different.
proof fn lemma_distinct_ids_kept(
    s: Seq<(Seq<char>, CandidateModel)>,
    t: Seq<(Seq<char>, CandidateModel)>,
)
    requires
        s.to_multiset() == t.to_multiset(),
        forall|i: int, j: int|
            0 <= i < j < s.len() ==> (#[trigger] s[i]).0 != (#[trigger] s[j]).0,
    ensures
        forall|i: int, j: int|
            0 <= i < j < t.len() ==> (#[trigger] t[i]).0 != (#[trigger] t[j]).0,
{
    s.to_multiset_ensures();
    t.to_multiset_ensures();
    assert(s.no_duplicates());
    s.lemma_multiset_has_no_duplicates();
    t.lemma_multiset_has_no_duplicates_conv();
    assert forall|i: int, j: int| 0 <= i < j < t.len() implies (#[trigger] t[i]).0 != (
    #[trigger] t[j]).0 by {
        assert(t.contains(t[i]) && t.contains(t[j]));
        assert(s.to_multiset().count(t[i]) > 0 && s.to_multiset().count(t[j]) > 0);
        let a = choose|a: int| 0 <= a < s.len() && s[a] == t[i];
        let b = choose|b: int| 0 <= b < s.len() && s[b] == t[j];
        assert(t[i] != t[j]);
        assert(a != b);
        if a < b {
            assert(s[a].0 != s[b].0);
        } else {
            assert(s[b].0 != s[a].0);
        }
    }
}

/// The games gone through are games that were given and offer something.
proof fn lemma_pick_members(offers: Seq<GameOffer>, seed: u64)
    ensures
        forall|k: int|
            0 <= k < pick_order(offers, seed).len() ==> offers.contains(
                #[trigger] pick_order(offers, seed)[k],
            ) && pick_order(offers, seed)[k].candidates.len() > 0,
{
    let some = |g: GameOffer| g.candidates.len() > 0;
    let le = |a: GameOffer, b: GameOffer| goes_first(seed, a, b);
    let kept = offers.filter(some);
    let order = pick_order(offers, seed);
    lemma_sorted_by_keeps(kept, le);
    kept.to_multiset_ensures();
    order.to_multiset_ensures();
    assert forall|k: int| 0 <= k < order.len() implies offers.contains(#[trigger] order[k])
        && order[k].candidates.len() > 0 by {
        assert(order.contains(order[k]));
        assert(kept.to_multiset().count(order[k]) > 0);
        assert(kept.contains(order[k]));
        offers.lemma_filter_contains_rev(some, order[k]);
        let m = choose|m: int| 0 <= m < kept.len() && kept[m] == order[k];
        offers.lemma_filter_pred(some, m);
    }
}

/// Games of different ids are gone through once each.
proof fn lemma_pick_order(offers: Seq<GameOffer>, seed: u64)
    requires
        distinct_games(offers),
    ensures
        forall|i: int, j: int|
            0 <= i < j < pick_order(offers, seed).len() ==> (#[trigger] pick_order(
                offers,
                seed,
            )[i]).id != (#[trigger] pick_order(offers, seed)[j]).id,
{
    let some = |g: GameOffer| g.candidates.len() > 0;
    let le = |a: GameOffer, b: GameOffer| goes_first(seed, a, b);
    let kept = offers.filter(some);
    let order = pick_order(offers, seed);
    lemma_sorted_by_keeps(kept, le);
    lemma_filter_keeps(offers, some);
    lemma_pick_members(offers, seed);
    offers.to_multiset_ensures();
    order.to_multiset_ensures();
    assert(offers.no_duplicates());
    offers.lemma_multiset_has_no_duplicates();
    assert forall|x: GameOffer| order.to_multiset().contains(x) implies order.to_multiset().count(x)
        == 1 by {
        broadcast use vstd::multiset::group_multiset_axioms;

        assert(order.to_multiset().count(x) == (if some(x) {
            offers.to_multiset().count(x)
        } else {
            0
        }));
        assert(offers.to_multiset().contains(x));
    }
    order.lemma_multiset_has_no_duplicates_conv();
    assert forall|i: int, j: int| 0 <= i < j < order.len() implies (#[trigger] order[i]).id != (
    #[trigger] order[j]).id by {
        assert(order[i] != order[j]);
        assert(offers.contains(order[i]) && offers.contains(order[j]));
        let a = choose|a: int| 0 <= a < offers.len() && offers[a] == order[i];
        let b = choose|b: int| 0 <= b < offers.len() && offers[b] == order[j];
        if a < b {
            assert(offers[a].id != offers[b].id);
        } else {
            assert(offers[b].id != offers[a].id);
        }
    }
}

/// What is picked of a game is one of its checkpoints.
proof fn lemma_picked_own(order: Seq<GameOffer>, limit: int, seed: u64, n: int)
    requires
        0 <= n <= order.len(),
        limit >= 0,
        forall|k: int| 0 <= k < order.len() ==> (#[trigger] order[k]).candidates.len() > 0,
    ensures
        forall|k: int|
            0 <= k < picked_from(order, limit, seed, n).len() ==> order[k].candidates.contains(
                (#[trigger] picked_from(order, limit, seed, n)[k]).1,
            ),
    decreases n,
{
    if n > 0 {
        lemma_picked_own(order, limit, seed, n - 1);
        lemma_picked_len(order, limit, seed, n - 1);
        let picked = picked_from(order, limit, seed, n - 1);
        let g = order[n - 1];
        lemma_most_wanted_place(picked, seed, g, g.candidates.len() as int);
    }
}

proof fn lemma_most_wanted_place(
    picked: Seq<(Seq<char>, CandidateModel)>,
    seed: u64,
    g: GameOffer,
    n: int,
)
    requires
        1 <= n <= g.candidates.len(),
    ensures
        0 <= most_wanted(picked, seed, g, n) < n,
    decreases n,
{
    if n > 1 {
        lemma_most_wanted_place(picked, seed, g, n - 1);
    }
}

proof fn lemma_picked_len(order: Seq<GameOffer>, limit: int, seed: u64, n: int)
    requires
        0 <= n <= order.len(),
        limit >= 0,
    ensures
        picked_from(order, limit, seed, n).len() == (if limit > 0 && limit < n {
            limit
        } else {
            n
        }),
        forall|k: int|
            0 <= k < picked_from(order, limit, seed, n).len() ==> (#[trigger] picked_from(
                order,
                limit,
                seed,
                n,
            )[k]).0 == order[k].id,
    decreases n,
{
    if n > 0 {
        lemma_picked_len(order, limit, seed, n - 1);
    }
}

/// The part of the data that a game goes to.
pub open spec fn split_part(id: Seq<char>, dev_pct: u32, seed: u64) -> Seq<char> {
    if text_hash(seed ^ 0x5F17_A9B3u64, id) % 100 < dev_pct {
        "dev"@
    } else {
        "validation"@
    }
}

/// Assigns a game to the part for development or to the one for validation. All checkpoints of a
/// game go to the same part.
pub fn split_of(game_id: &str, dev_pct: u32, seed: u64) -> (res: &'static str)
    ensures
        res@ == split_part(game_id@, dev_pct, seed),
{
    if stable_hash(seed ^ 0x5F17_A9B3u64, game_id) % 100 < dev_pct as u64 {
        "dev"
    } else {
        "validation"
    }
}

/// How a score says that a game ended for a reason.
pub open spec fn ending_of(reason: Seq<char>) -> Option<Seq<char>> {
    if reason == "foul_limit"@ {
        Some("反則負け"@)
    } else if reason == "resign"@ {
        Some("投了"@)
    } else if reason == "timeout"@ {
        Some("時間切れ"@)
    } else if reason == "max_plies"@ {
        Some("中断"@)
    } else {
        None
    }
}

/// How a score says that a game ended for a reason.
pub fn kif_ending(reason: &str) -> (res: Option<&'static str>)
    ensures
        match res {
            Some(text) => ending_of(reason@) == Some(text@),
            None => ending_of(reason@) is None,
        },
{
    if same_text(reason, "foul_limit") {
        Some("反則負け")
    } else if same_text(reason, "resign") {
        Some("投了")
    } else if same_text(reason, "timeout") {
        Some("時間切れ")
    } else if same_text(reason, "max_plies") {
        Some("中断")
    } else {
        None
    }
}

/// How many observations each side has made.
pub fn log_lens(logs: &SideLogs) -> (res: [usize; 2])
    ensures
        res@[0] == logs@.sente.len(),
        res@[1] == logs@.gote.len(),
{
    [logs.sente.events().len(), logs.gote.events().len()]
}

} // verus!
