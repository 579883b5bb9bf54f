//! The numbers behind the reports on mates: how much a forced defence would have been worth, and how
//! well the predicted danger of a mate was calibrated.

use crate::config::texts_of;
use crate::lists::count_if;
use crate::scenario::count_of;
use crate::text::{before, comes_before, lemma_comes_before_chain, lemma_one_comes_first, parse_number, same_text};
use vstd::prelude::*;
use vstd::string::*;

verus! {

/// The head of a data file: the games of the whole record and the part of them that was played.
#[derive(Clone, Copy, Debug, PartialEq, Eq)]
pub struct ShardMeta {
    pub games: u64,
    pub games_mated: u64,
    pub dropped_safe: u64,
    /// Which part of how many.
    pub shard: Option<(usize, usize)>,
}

/// The place of the first slash.
pub open spec fn slash_place(s: Seq<char>, i: int) -> Option<int>
    decreases s.len() - i,
{
    if i < 0 || i >= s.len() {
        None
    } else if s[i] == '/' {
        Some(i)
    } else {
        slash_place(s, i + 1)
    }
}

/// The part of how many that a text names.
pub open spec fn shard_of(s: Seq<char>) -> Option<(usize, usize)> {
    match slash_place(s, 0) {
        Some(i) => match (count_of(Some(s.take(i))), count_of(Some(s.skip(i + 1)))) {
            (Some(a), Some(b)) => Some((a, b)),
            _ => None,
        },
        None => None,
    }
}

fn read_count(s: &str) -> (res: Option<usize>)
    ensures
        res == count_of(Some(s@)),
{
    match parse_number(s) {
        Some(n) => {
            if n <= usize::MAX as u64 {
                Some(n as usize)
            } else {
                None
            }
        },
        None => None,
    }
}

/// Reads a text such as `0/4`.
pub fn parse_shard(s: &str) -> (res: Option<(usize, usize)>)
    ensures
        res == shard_of(s@),
{
    let n: usize = s.unicode_len();
    let mut i: usize = 0;
    while i < n
        invariant
            i <= n,
            n == s@.len(),
            slash_place(s@, 0) == slash_place(s@, i as int),
        decreases n - i,
    {
        if s.get_char(i) == '/' {
            assert(s@.take(i as int) =~= s@.subrange(0, i as int));
            assert(s@.skip(i + 1) =~= s@.subrange(i + 1, n as int));
            let a = read_count(s.substring_char(0, i));
            let b = read_count(s.substring_char(i + 1, n));
            return match (a, b) {
                (Some(a), Some(b)) => Some((a, b)),
                _ => None,
            };
        }
        i += 1;
    }
    None
}

/// Whether a part of how many is one: parts are counted from zero.
pub fn is_shard(shard: (usize, usize)) -> (res: bool)
    ensures
        res == (shard.0 < shard.1),
{
    shard.0 < shard.1
}

/// Whether the game at a place belongs to part `a` of `n`.
pub open spec fn belongs(index: int, a: int, n: int) -> bool {
    index % n == a
}

/// Whether a game belongs to a part. The parts are taken game by game.
pub fn in_shard(index: usize, shard: (usize, usize)) -> (res: bool)
    requires
        shard.0 < shard.1,
    ensures
        res == belongs(index as int, shard.0 as int, shard.1 as int),
{
    index % shard.1 == shard.0
}

/// Every game belongs to one part, and to no other.
pub proof fn law_shards_partition(index: nat, n: nat)
    requires
        n > 0,
    ensures
        exists|a: int| 0 <= a < n && #[trigger] belongs(index as int, a, n as int),
        forall|a: int, b: int|
            #[trigger] belongs(index as int, a, n as int) && #[trigger] belongs(
                index as int,
                b,
                n as int,
            ) ==> a == b,
{
    let a = index as int % n as int;
    assert(belongs(index as int, a, n as int));
}

/// Whether all heads speak of the same record.
pub open spec fn heads_agree(metas: Seq<ShardMeta>) -> bool {
    forall|i: int, j: int| 0 <= i < metas.len() && 0 <= j < metas.len() ==> metas[i].games == metas[j].games
}

/// Whether all heads speak of the same record: adding the games of different ones up would make no
/// sense.
pub fn games_agree(metas: &Vec<ShardMeta>) -> (res: bool)
    ensures
        res == heads_agree(metas@),
{
    let mut i: usize = 1;
    while i < metas.len()
        invariant
            1 <= i,
            forall|k: int| 0 <= k < i && k < metas@.len() ==> (#[trigger] metas@[k]).games == metas@[0].games,
        decreases metas@.len() - i,
    {
        if metas[i].games != metas[0].games {
            assert(metas@[i as int].games != metas@[0].games);
            return false;
        }
        i += 1;
    }
    true
}

/// The parts that the heads are of, where they say so.
pub open spec fn parts_of(metas: Seq<ShardMeta>) -> Seq<(usize, usize)> {
    metas.filter_map(|m: ShardMeta| m.shard)
}

/// How many parts there are: as the first head that says so has it, else one.
pub open spec fn part_total(parts: Seq<(usize, usize)>) -> usize {
    if parts.len() == 0 {
        1
    } else {
        parts[0].1
    }
}

/// Whether every part is there, and all heads agree how many there are.
pub open spec fn all_parts(parts: Seq<(usize, usize)>) -> bool {
    &&& forall|i: int| 0 <= i < parts.len() ==> (#[trigger] parts[i]).1 == part_total(parts)
    &&& parts.map_values(|p: (usize, usize)| p.0).to_set().len() == part_total(parts)
}

fn collect_parts(metas: &Vec<ShardMeta>) -> (res: Vec<(usize, usize)>)
    ensures
        res@ == parts_of(metas@),
{
    let ghost pick = |m: ShardMeta| m.shard;
    let mut out: Vec<(usize, usize)> = Vec::new();
    let mut i: usize = 0;
    assert(metas@.take(0).filter_map(pick) =~= Seq::<(usize, usize)>::empty());
    while i < metas.len()
        invariant
            i <= metas@.len(),
            pick == (|m: ShardMeta| m.shard),
            out@ == metas@.take(i as int).filter_map(pick),
        decreases metas@.len() - i,
    {
        proof {
            metas@.lemma_filter_map_take_succ(pick, i as int);
        }
        if let Some(p) = metas[i].shard {
            out.push(p);
        }
        i += 1;
    }
    assert(metas@.take(i as int) =~= metas@);
    out
}

fn holds(list: &Vec<usize>, x: usize) -> (res: bool)
    ensures
        res == list@.contains(x),
{
    let mut i: usize = 0;
    while i < list.len()
        invariant
            i <= list@.len(),
            forall|k: int| 0 <= k < i ==> list@[k] != x,
        decreases list@.len() - i,
    {
        if list[i] == x {
            assert(list@[i as int] == x);
            return true;
        }
        i += 1;
    }
    false
}

/// Whether every part of the record is there. With one missing the gain would be divided by all
/// games while only some were counted.
pub fn shards_complete(metas: &Vec<ShardMeta>) -> (res: bool)
    ensures
        res == all_parts(parts_of(metas@)),
{
    let parts = collect_parts(metas);
    let total: usize = if parts.len() == 0 {
        1
    } else {
        parts[0].1
    };
    let ghost firsts = parts@.map_values(|p: (usize, usize)| p.0);
    let mut seen: Vec<usize> = Vec::new();
    let mut i: usize = 0;
    assert(firsts.take(0).to_set() =~= seen@.to_set());
    while i < parts.len()
        invariant
            i <= parts@.len(),
            parts@ == parts_of(metas@),
            total == part_total(parts@),
            firsts == parts@.map_values(|p: (usize, usize)| p.0),
            seen@.no_duplicates(),
            seen@.to_set() == firsts.take(i as int).to_set(),
            forall|k: int| 0 <= k < i ==> (#[trigger] parts@[k]).1 == total,
        decreases parts@.len() - i,
    {
        let (a, b) = parts[i];
        if b != total {
            assert(parts@[i as int].1 != part_total(parts@));
            return false;
        }
        let ghost start = seen@;
        assert(firsts.take(i + 1) =~= firsts.take(i as int).push(a));
        if !holds(&seen, a) {
            seen.push(a);
        }
        proof {
            let more = firsts.take(i + 1);
            let left = seen@.to_set();
            let right = more.to_set();
            assert forall|x: usize| left.contains(x) <==> right.contains(x) by {
                assert(start.to_set().contains(x) <==> start.contains(x));
                assert(firsts.take(i as int).to_set().contains(x) <==> firsts.take(
                    i as int,
                ).contains(x));
                if start.contains(x) {
                    let k = choose|k: int| 0 <= k < start.len() && start[k] == x;
                    assert(seen@[k] == x);
                }
                if seen@.contains(x) && !start.contains(x) {
                    assert(x == a);
                }
                assert(more[i as int] == a);
                if firsts.take(i as int).contains(x) {
                    let k = choose|k: int| 0 <= k < i && firsts.take(i as int)[k] == x;
                    assert(more[k] == x);
                }
                if more.contains(x) && x != a {
                    let k = choose|k: int| 0 <= k < more.len() && more[k] == x;
                    assert(firsts.take(i as int)[k] == x);
                }
                if x == a {
                    if start.contains(a) {
                    } else {
                        assert(seen@[start.len() as int] == a);
                    }
                }
            }
            assert(left =~= right);
        }
        i += 1;
    }
    proof {
        assert(firsts.take(i as int) =~= firsts);
        seen@.unique_seq_to_set();
    }
    seen.len() == total
}

/// The result of one forced continuation, in halves of a point.
#[derive(Debug)]
pub struct Row {
    pub game: String,
    pub arm: String,
    pub usi: String,
    pub seed: u64,
    pub halves: u32,
}

/// The mathematical content of a `Row`.
pub struct RowModel {
    pub game: Seq<char>,
    pub arm: Seq<char>,
    pub usi: Seq<char>,
    pub seed: u64,
    pub halves: u32,
}

impl View for Row {
    type V = RowModel;

    open spec fn view(&self) -> RowModel {
        RowModel {
            game: self.game@,
            arm: self.arm@,
            usi: self.usi@,
            seed: self.seed,
            halves: self.halves,
        }
    }
}

/// The contents of a list of rows.
pub open spec fn row_list(rows: Seq<Row>) -> Seq<RowModel> {
    rows.map_values(|r: Row| r@)
}

/// Whether two rows are of the same game, arm, move and seed.
pub open spec fn same_key(a: RowModel, b: RowModel) -> bool {
    a.game == b.game && a.arm == b.arm && a.usi == b.usi && a.seed == b.seed
}

/// Whether a row counts: no later one is of the same game, arm, move and seed.
pub open spec fn row_counts(rows: Seq<RowModel>, i: int) -> bool {
    forall|j: int| i < j < rows.len() ==> !same_key(rows[i], #[trigger] rows[j])
}

/// Points over games: a mean is kept as it is, without dividing.
#[derive(Clone, Copy, Debug, PartialEq, Eq, Structural)]
pub struct Share {
    /// The sum, in halves of a point.
    pub halves: u64,
    pub count: u64,
}

/// The points and the number of the rows, among the first `n` that count, with a property.
pub open spec fn share_where(rows: Seq<RowModel>, p: spec_fn(RowModel) -> bool, n: int) -> Share
    decreases n,
{
    if n <= 0 {
        Share { halves: 0, count: 0 }
    } else {
        let s = share_where(rows, p, n - 1);
        if row_counts(rows, n - 1) && p(rows[n - 1]) {
            Share { halves: (s.halves + rows[n - 1].halves) as u64, count: (s.count + 1) as u64 }
        } else {
            s
        }
    }
}

/// Whether one mean is smaller than another; no games at all count as nothing.
pub open spec fn mean_below(a: Share, b: Share) -> bool {
    let ca = if a.count == 0 {
        1
    } else {
        a.count as int
    };
    let cb = if b.count == 0 {
        1
    } else {
        b.count as int
    };
    a.halves * cb < b.halves * ca
}

/// Whether one mean is smaller than another.
pub fn is_below(a: Share, b: Share) -> (res: bool)
    ensures
        res == mean_below(a, b),
{
    let ca: u128 = if a.count == 0 {
        1
    } else {
        a.count as u128
    };
    let cb: u128 = if b.count == 0 {
        1
    } else {
        b.count as u128
    };
    proof {
        assert(a.halves * cb <= u64::MAX * u64::MAX) by (nonlinear_arith)
            requires
                0 <= a.halves <= u64::MAX,
                0 <= cb <= u64::MAX,
        ;
        assert(b.halves * ca <= u64::MAX * u64::MAX) by (nonlinear_arith)
            requires
                0 <= b.halves <= u64::MAX,
                0 <= ca <= u64::MAX,
        ;
    }
    (a.halves as u128) * cb < (b.halves as u128) * ca
}

fn key_matches(a: &Row, b: &Row) -> (res: bool)
    ensures
        res == same_key(a@, b@),
{
    a.seed == b.seed && a.game == b.game && a.arm == b.arm && a.usi == b.usi
}

/// Which rows count.
fn counting(rows: &Vec<Row>) -> (res: Vec<bool>)
    ensures
        res@.len() == rows@.len(),
        forall|i: int| 0 <= i < rows@.len() ==> #[trigger] res@[i] == row_counts(row_list(rows@), i),
{
    let ghost all = row_list(rows@);
    let mut out: Vec<bool> = Vec::new();
    let mut i: usize = 0;
    while i < rows.len()
        invariant
            i <= rows@.len(),
            all == row_list(rows@),
            out@.len() == i,
            forall|k: int| 0 <= k < i ==> #[trigger] out@[k] == row_counts(all, k),
        decreases rows@.len() - i,
    {
        let mut last = true;
        let mut j: usize = i + 1;
        while j < rows.len() && last
            invariant
                i < rows@.len(),
                i < j <= rows@.len(),
                all == row_list(rows@),
                last ==> forall|k: int| i < k < j ==> !same_key(all[i as int], #[trigger] all[k]),
                !last ==> !row_counts(all, i as int),
            decreases rows@.len() - j,
        {
            assert(all[i as int] == rows@[i as int]@);
            assert(all[j as int] == rows@[j as int]@);
            if key_matches(&rows[i], &rows[j]) {
                assert(same_key(all[i as int], all[j as int]));
                last = false;
            }
            j += 1;
        }
        out.push(last);
        i += 1;
    }
    out
}

/// What rows are taken together.
#[derive(Debug)]
pub enum Part {
    /// All of a game and an arm.
    Arm,
    /// Those of a move.
    Move(String),
    /// Those of a move with a smaller seed.
    Before(String, u64),
    /// Those of a move with this seed or a larger one.
    From(String, u64),
}

/// Whether a row of a game and an arm belongs to a part.
pub open spec fn in_part(game: Seq<char>, arm: Seq<char>, part: Part, r: RowModel) -> bool {
    &&& r.game == game
    &&& r.arm == arm
    &&& match part {
        Part::Arm => true,
        Part::Move(usi) => r.usi == usi@,
        Part::Before(usi, seed) => r.usi == usi@ && r.seed < seed,
        Part::From(usi, seed) => r.usi == usi@ && r.seed >= seed,
    }
}

/// The points of a part of the rows of a game and an arm.
pub open spec fn part_share(
    rows: Seq<RowModel>,
    game: Seq<char>,
    arm: Seq<char>,
    part: Part,
) -> Share {
    share_where(rows, |r: RowModel| in_part(game, arm, part, r), rows.len() as int)
}

fn is_in_part(game: &str, arm: &str, part: &Part, r: &Row) -> (res: bool)
    ensures
        res == in_part(game@, arm@, *part, r@),
{
    if !same_text(r.game.as_str(), game) || !same_text(r.arm.as_str(), arm) {
        return false;
    }
    match part {
        Part::Arm => true,
        Part::Move(usi) => r.usi == *usi,
        Part::Before(usi, seed) => r.usi == *usi && r.seed < *seed,
        Part::From(usi, seed) => r.usi == *usi && r.seed >= *seed,
    }
}

/// Whether the points of every row are at most two halves.
pub open spec fn rows_ok(rows: Seq<Row>) -> bool {
    &&& rows.len() <= u32::MAX
    &&& forall|i: int| 0 <= i < rows.len() ==> (#[trigger] rows[i]).halves <= 2
}

/// Adds up a part of the rows of a game and an arm.
pub fn share_of(rows: &Vec<Row>, game: &str, arm: &str, part: &Part) -> (res: Share)
    requires
        rows_ok(rows@),
    ensures
        res == part_share(row_list(rows@), game@, arm@, *part),
{
    let counts = counting(rows);
    let ghost all = row_list(rows@);
    let ghost p = |r: RowModel| in_part(game@, arm@, *part, r);
    let mut halves: u64 = 0;
    let mut count: u64 = 0;
    let mut i: usize = 0;
    while i < rows.len()
        invariant
            i <= rows@.len(),
            rows_ok(rows@),
            all == row_list(rows@),
            p == (|r: RowModel| in_part(game@, arm@, *part, r)),
            counts@.len() == rows@.len(),
            forall|k: int| 0 <= k < rows@.len() ==> #[trigger] counts@[k] == row_counts(all, k),
            halves <= 2 * i,
            count <= i,
            (Share { halves, count }) == share_where(all, p, i as int),
        decreases rows@.len() - i,
    {
        assert(all[i as int] == rows@[i as int]@);
        assert(counts@[i as int] == row_counts(all, i as int));
        assert(rows@[i as int].halves <= 2);
        if counts[i] && is_in_part(game, arm, part, &rows[i]) {
            halves += rows[i].halves as u64;
            count += 1;
        }
        i += 1;
    }
    Share { halves, count }
}

/// Whether a list holds some texts in order, each once.
pub open spec fn is_ordered_list(list: Seq<String>) -> bool {
    forall|i: int, j: int|
        0 <= i < j < list.len() ==> comes_before((#[trigger] list[i])@, (#[trigger] list[j])@)
}

/// Puts a text into an ordered list, unless it is there.
fn insert_ordered(list: &mut Vec<String>, text: &String)
    requires
        is_ordered_list(old(list)@),
    ensures
        is_ordered_list(final(list)@),
        forall|t: Seq<char>|
            texts_of(final(list)@).contains(t) <==> (texts_of(old(list)@).contains(t) || t == text@),
{
    let ghost start = list@;
    let mut i: usize = 0;
    while i < list.len() && before(list[i].as_str(), text.as_str())
        invariant
            i <= list@.len(),
            list@ == start,
            is_ordered_list(start),
            forall|k: int| 0 <= k < i ==> comes_before((#[trigger] start[k])@, text@),
        decreases list@.len() - i,
    {
        i += 1;
    }
    if i < list.len() && list[i] == *text {
        assert(texts_of(start)[i as int] == text@);
        return;
    }
    proof {
        if i < start.len() {
            lemma_one_comes_first(start[i as int]@, text@);
        }
        assert forall|k: int| i <= k < start.len() implies comes_before(
            text@,
            (#[trigger] start[k])@,
        ) by {
            if k > i {
                assert(comes_before(start[i as int]@, start[k]@));
                lemma_comes_before_chain(text@, start[i as int]@, start[k]@);
            }
        }
    }
    list.insert(i, text.clone());
    proof {
        let after = list@;
        assert(after =~= start.insert(i as int, after[i as int]));
        assert(is_ordered_list(after)) by {
            assert forall|a: int, b: int| 0 <= a < b < after.len() implies comes_before(
                (#[trigger] after[a])@,
                (#[trigger] after[b])@,
            ) by {
                if a != i && b != i {
                    let x = if a < i { a } else { a - 1 };
                    let y = if b < i { b } else { b - 1 };
                    assert(after[a] == start[x]);
                    assert(after[b] == start[y]);
                    assert(comes_before(start[x]@, start[y]@));
                } else if a == i {
                    assert(after[b] == start[b - 1]);
                } else {
                    assert(after[a] == start[a]);
                }
            }
        }
        assert forall|t: Seq<char>|
            texts_of(after).contains(t) <==> (texts_of(start).contains(t) || t == text@) by {
            if texts_of(start).contains(t) {
                let k = choose|k: int| 0 <= k < start.len() && texts_of(start)[k] == t;
                let n = if k < i { k } else { k + 1 };
                assert(after[n] == start[k]);
                assert(texts_of(after)[n] == t);
            }
            assert(texts_of(after)[i as int] == text@);
            if texts_of(after).contains(t) && t != text@ {
                let n = choose|n: int| 0 <= n < after.len() && texts_of(after)[n] == t;
                let k = if n < i { n } else { n - 1 };
                assert(after[n] == start[k]);
                assert(texts_of(start)[k] == t);
            }
        }
    }
}

/// Whether some row is of a game.
pub open spec fn has_game(rows: Seq<RowModel>, n: int, game: Seq<char>) -> bool {
    exists|i: int| 0 <= i < n && (#[trigger] rows[i]).game == game
}

/// The games that the rows are of, in order.
pub fn games_in(rows: &Vec<Row>) -> (res: Vec<String>)
    ensures
        is_ordered_list(res@),
        forall|t: Seq<char>|
            texts_of(res@).contains(t) <==> has_game(row_list(rows@), rows@.len() as int, t),
{
    let ghost all = row_list(rows@);
    let mut out: Vec<String> = Vec::new();
    let mut i: usize = 0;
    while i < rows.len()
        invariant
            i <= rows@.len(),
            all == row_list(rows@),
            is_ordered_list(out@),
            forall|t: Seq<char>| texts_of(out@).contains(t) <==> has_game(all, i as int, t),
        decreases rows@.len() - i,
    {
        let ghost start = out@;
        insert_ordered(&mut out, &rows[i].game);
        proof {
            assert(all[i as int].game == rows@[i as int].game@);
            assert forall|t: Seq<char>|
                texts_of(out@).contains(t) <==> has_game(all, i + 1, t) by {
                assert(texts_of(start).contains(t) <==> has_game(all, i as int, t));
                if has_game(all, i as int, t) {
                    let k = choose|k: int| 0 <= k < i && (#[trigger] all[k]).game == t;
                    assert(all[k].game == t);
                }
                if has_game(all, i + 1, t) && all[i as int].game != t {
                    let k = choose|k: int| 0 <= k < i + 1 && (#[trigger] all[k]).game == t;
                    assert(k < i);
                }
            }
        }
        i += 1;
    }
    out
}

/// Whether some row that counts is of a game, an arm and a move.
pub open spec fn has_move(
    rows: Seq<RowModel>,
    n: int,
    game: Seq<char>,
    arm: Seq<char>,
    usi: Seq<char>,
) -> bool {
    exists|i: int|
        0 <= i < n && (#[trigger] rows[i]).game == game && rows[i].arm == arm && rows[i].usi == usi
}

/// The moves of a game and an arm, in order.
pub fn moves_in(rows: &Vec<Row>, game: &str, arm: &str) -> (res: Vec<String>)
    ensures
        is_ordered_list(res@),
        forall|t: Seq<char>|
            texts_of(res@).contains(t) <==> has_move(
                row_list(rows@),
                rows@.len() as int,
                game@,
                arm@,
                t,
            ),
{
    let ghost all = row_list(rows@);
    let mut out: Vec<String> = Vec::new();
    let mut i: usize = 0;
    while i < rows.len()
        invariant
            i <= rows@.len(),
            all == row_list(rows@),
            is_ordered_list(out@),
            forall|t: Seq<char>|
                texts_of(out@).contains(t) <==> has_move(all, i as int, game@, arm@, t),
        decreases rows@.len() - i,
    {
        let ghost start = out@;
        let mine = same_text(rows[i].game.as_str(), game) && same_text(rows[i].arm.as_str(), arm);
        if mine {
            insert_ordered(&mut out, &rows[i].usi);
        }
        proof {
            assert(all[i as int] == rows@[i as int]@);
            assert forall|t: Seq<char>|
                texts_of(out@).contains(t) <==> has_move(all, i + 1, game@, arm@, t) by {
                assert(texts_of(start).contains(t) <==> has_move(all, i as int, game@, arm@, t));
                if has_move(all, i as int, game@, arm@, t) {
                    let k = choose|k: int|
                        0 <= k < i && (#[trigger] all[k]).game == game@ && all[k].arm == arm@
                            && all[k].usi == t;
                    assert(all[k].game == game@);
                }
                if has_move(all, i + 1, game@, arm@, t) && !(mine && all[i as int].usi == t) {
                    let k = choose|k: int|
                        0 <= k < i + 1 && (#[trigger] all[k]).game == game@ && all[k].arm == arm@
                            && all[k].usi == t;
                    assert(k < i);
                    assert(all[k].game == game@);
                }
                if mine && all[i as int].usi == t {
                    assert(all[i as int].game == game@);
                }
            }
        }
        i += 1;
    }
    out
}

/// The best mean over the moves of an arm: no move of it has a better one.
pub open spec fn is_best_share(
    rows: Seq<RowModel>,
    game: Seq<char>,
    arm: Seq<char>,
    moves: Seq<String>,
    s: Share,
) -> bool {
    &&& forall|i: int|
        0 <= i < moves.len() ==> !mean_below(
            s,
            part_share(rows, game, arm, Part::Move(#[trigger] moves[i])),
        )
    &&& (s == Share { halves: 0, count: 0 } || exists|i: int|
        0 <= i < moves.len() && s == part_share(rows, game, arm, Part::Move(#[trigger] moves[i])))
}

/// The best mean over the moves of an arm; nothing without moves.
pub fn best_share(rows: &Vec<Row>, game: &str, arm: &str, moves: &Vec<String>) -> (res: Share)
    requires
        rows_ok(rows@),
    ensures
        is_best_share(row_list(rows@), game@, arm@, moves@, res),
{
    let ghost all = row_list(rows@);
    let mut best = Share { halves: 0, count: 0 };
    let mut i: usize = 0;
    while i < moves.len()
        invariant
            i <= moves@.len(),
            rows_ok(rows@),
            all == row_list(rows@),
            forall|k: int|
                0 <= k < i ==> !mean_below(
                    best,
                    part_share(all, game@, arm@, Part::Move(#[trigger] moves@[k])),
                ),
            best == (Share { halves: 0, count: 0 }) || exists|k: int|
                0 <= k < moves@.len() && best == part_share(
                    all,
                    game@,
                    arm@,
                    Part::Move(#[trigger] moves@[k]),
                ),
        decreases moves@.len() - i,
    {
        let ghost old_best = best;
        let part = Part::Move(moves[i].clone());
        let s = share_of(rows, game, arm, &part);
        proof {
            lemma_same_part(all, game@, arm@, part, Part::Move(moves@[i as int]));
        }
        if is_below(best, s) {
            best = s;
            proof {
                assert forall|k: int| 0 <= k < i implies !mean_below(
                    best,
                    part_share(all, game@, arm@, Part::Move(#[trigger] moves@[k])),
                ) by {
                    lemma_mean_chain(
                        old_best,
                        best,
                        part_share(all, game@, arm@, Part::Move(moves@[k])),
                    );
                }
                assert(best == part_share(all, game@, arm@, Part::Move(moves@[i as int])));
            }
        }
        i += 1;
    }
    best
}

/// Parts with the same texts are the same.
proof fn lemma_same_part(rows: Seq<RowModel>, game: Seq<char>, arm: Seq<char>, a: Part, b: Part)
    requires
        forall|r: RowModel| in_part(game, arm, a, r) == in_part(game, arm, b, r),
    ensures
        part_share(rows, game, arm, a) == part_share(rows, game, arm, b),
{
    let p = |r: RowModel| in_part(game, arm, a, r);
    let q = |r: RowModel| in_part(game, arm, b, r);
    assert(p =~= q);
}

/// A mean that is not above a smaller one is not above the larger one.
proof fn lemma_mean_chain(a: Share, b: Share, c: Share)
    requires
        mean_below(a, b),
        !mean_below(a, c),
    ensures
        !mean_below(b, c),
{
    let ca = if a.count == 0 { 1 } else { a.count as int };
    let cb = if b.count == 0 { 1 } else { b.count as int };
    let cc = if c.count == 0 { 1 } else { c.count as int };
    if mean_below(b, c) {
        assert(a.halves * cc < c.halves * ca) by (nonlinear_arith)
            requires
                a.halves * cb < b.halves * ca,
                b.halves * cc < c.halves * cb,
                ca > 0,
                cb > 0,
                cc > 0,
                a.halves >= 0,
                b.halves >= 0,
                c.halves >= 0,
        ;
    }
}

/// Whether some row is of a game, an arm and a seed.
pub open spec fn has_seed(
    rows: Seq<RowModel>,
    n: int,
    game: Seq<char>,
    arm: Seq<char>,
    seed: u64,
) -> bool {
    exists|i: int|
        0 <= i < n && (#[trigger] rows[i]).game == game && rows[i].arm == arm && rows[i].seed == seed
}

/// Whether numbers are ascending, none twice.
pub open spec fn strictly_ascending(s: Seq<u64>) -> bool {
    forall|i: int, j: int| 0 <= i < j < s.len() ==> s[i] < s[j]
}

fn insert_seed(list: &mut Vec<u64>, x: u64)
    requires
        strictly_ascending(old(list)@),
    ensures
        strictly_ascending(final(list)@),
        forall|t: u64| final(list)@.contains(t) <==> (old(list)@.contains(t) || t == x),
{
    let ghost start = list@;
    let mut i: usize = 0;
    while i < list.len() && list[i] < x
        invariant
            i <= list@.len(),
            list@ == start,
            strictly_ascending(start),
            forall|k: int| 0 <= k < i ==> #[trigger] start[k] < x,
        decreases list@.len() - i,
    {
        i += 1;
    }
    if i < list.len() && list[i] == x {
        assert(start[i as int] == x);
        return;
    }
    list.insert(i, x);
    proof {
        let after = list@;
        assert forall|t: u64| after.contains(t) <==> (start.contains(t) || t == x) by {
            assert(after[i as int] == x);
            if start.contains(t) {
                let k = choose|k: int| 0 <= k < start.len() && start[k] == t;
                let n = if k < i { k } else { k + 1 };
                assert(after[n] == t);
            }
            if after.contains(t) && t != x {
                let n = choose|n: int| 0 <= n < after.len() && after[n] == t;
                let k = if n < i { n } else { n - 1 };
                assert(start[k] == t);
            }
        }
    }
}

/// The seeds of a game and an arm, ascending.
pub fn seeds_in(rows: &Vec<Row>, game: &str, arm: &str) -> (res: Vec<u64>)
    ensures
        strictly_ascending(res@),
        forall|t: u64|
            res@.contains(t) <==> has_seed(row_list(rows@), rows@.len() as int, game@, arm@, t),
{
    let ghost all = row_list(rows@);
    let mut out: Vec<u64> = Vec::new();
    let mut i: usize = 0;
    while i < rows.len()
        invariant
            i <= rows@.len(),
            all == row_list(rows@),
            strictly_ascending(out@),
            forall|t: u64| out@.contains(t) <==> has_seed(all, i as int, game@, arm@, t),
        decreases rows@.len() - i,
    {
        let ghost start = out@;
        let mine = same_text(rows[i].game.as_str(), game) && same_text(rows[i].arm.as_str(), arm);
        if mine {
            insert_seed(&mut out, rows[i].seed);
        }
        proof {
            assert(all[i as int] == rows@[i as int]@);
            assert forall|t: u64| out@.contains(t) <==> has_seed(all, i + 1, game@, arm@, t) by {
                assert(start.contains(t) <==> has_seed(all, i as int, game@, arm@, t));
                if has_seed(all, i as int, game@, arm@, t) {
                    let k = choose|k: int|
                        0 <= k < i && (#[trigger] all[k]).game == game@ && all[k].arm == arm@
                            && all[k].seed == t;
                    assert(all[k].game == game@);
                }
                if has_seed(all, i + 1, game@, arm@, t) && !(mine && all[i as int].seed == t) {
                    let k = choose|k: int|
                        0 <= k < i + 1 && (#[trigger] all[k]).game == game@ && all[k].arm == arm@
                            && all[k].seed == t;
                    assert(k < i);
                    assert(all[k].game == game@);
                }
                if mine && all[i as int].seed == t {
                    assert(all[i as int].game == game@);
                }
            }
        }
        i += 1;
    }
    out
}

/// Whether the move at a place is the best by the seeds before a cut, the first of equals.
pub open spec fn is_trained_best(
    rows: Seq<RowModel>,
    game: Seq<char>,
    arm: Seq<char>,
    moves: Seq<String>,
    cut: u64,
    m: int,
) -> bool {
    &&& 0 <= m < moves.len()
    &&& forall|k: int|
        0 <= k < moves.len() ==> !mean_below(
            part_share(rows, game, arm, Part::Before(moves[m], cut)),
            part_share(rows, game, arm, Part::Before(#[trigger] moves[k], cut)),
        )
    &&& forall|k: int|
        0 <= k < m ==> mean_below(
            part_share(rows, game, arm, Part::Before(#[trigger] moves[k], cut)),
            part_share(rows, game, arm, Part::Before(moves[m], cut)),
        )
}

/// The mean, over the later half of the seeds, of the move that was best over the earlier half. To
/// choose and to measure by the same games would flatter the choice. Nothing comes of fewer than
/// two seeds.
pub fn honest_share(
    rows: &Vec<Row>,
    game: &str,
    arm: &str,
    seeds: &Vec<u64>,
    moves: &Vec<String>,
) -> (res:
    Option<Share>)
    requires
        rows_ok(rows@),
        seeds@.len() >= 2 ==> moves@.len() > 0,
    ensures
        res is Some <==> seeds@.len() >= 2,
        res matches Some(s) ==> exists|m: int|
            #[trigger] is_trained_best(
                row_list(rows@),
                game@,
                arm@,
                moves@,
                seeds@[seeds@.len() as int / 2],
                m,
            ) && s == part_share(
                row_list(rows@),
                game@,
                arm@,
                Part::From(moves@[m], seeds@[seeds@.len() as int / 2]),
            ),
{
    if seeds.len() < 2 {
        return None;
    }
    let ghost all = row_list(rows@);
    let cut: u64 = seeds[seeds.len() / 2];
    let mut best: usize = 0;
    let first = Part::Before(moves[0].clone(), cut);
    let mut top = share_of(rows, game, arm, &first);
    proof {
        lemma_same_part(all, game@, arm@, first, Part::Before(moves@[0], cut));
    }
    let mut i: usize = 1;
    while i < moves.len()
        invariant
            1 <= i <= moves@.len(),
            best < i,
            rows_ok(rows@),
            all == row_list(rows@),
            top == part_share(all, game@, arm@, Part::Before(moves@[best as int], cut)),
            forall|k: int|
                0 <= k < i ==> !mean_below(
                    top,
                    part_share(all, game@, arm@, Part::Before(#[trigger] moves@[k], cut)),
                ),
            forall|k: int|
                0 <= k < best ==> mean_below(
                    part_share(all, game@, arm@, Part::Before(#[trigger] moves@[k], cut)),
                    top,
                ),
        decreases moves@.len() - i,
    {
        let ghost old_top = top;
        let part = Part::Before(moves[i].clone(), cut);
        let s = share_of(rows, game, arm, &part);
        proof {
            lemma_same_part(all, game@, arm@, part, Part::Before(moves@[i as int], cut));
        }
        if is_below(top, s) {
            proof {
                assert forall|k: int| 0 <= k < i implies mean_below(
                    part_share(all, game@, arm@, Part::Before(#[trigger] moves@[k], cut)),
                    s,
                ) by {
                    lemma_mean_under(
                        part_share(all, game@, arm@, Part::Before(moves@[k], cut)),
                        old_top,
                        s,
                    );
                }
                assert forall|k: int| 0 <= k < i implies !mean_below(
                    s,
                    part_share(all, game@, arm@, Part::Before(#[trigger] moves@[k], cut)),
                ) by {
                    lemma_mean_chain(
                        old_top,
                        s,
                        part_share(all, game@, arm@, Part::Before(moves@[k], cut)),
                    );
                }
            }
            top = s;
            best = i;
        }
        i += 1;
    }
    let test = Part::From(moves[best].clone(), cut);
    let res = share_of(rows, game, arm, &test);
    proof {
        lemma_same_part(all, game@, arm@, test, Part::From(moves@[best as int], cut));
        assert(is_trained_best(all, game@, arm@, moves@, cut, best as int));
    }
    Some(res)
}

/// A mean not above one that is smaller than a third is smaller than the third.
proof fn lemma_mean_under(a: Share, b: Share, c: Share)
    requires
        !mean_below(b, a),
        mean_below(b, c),
    ensures
        mean_below(a, c),
{
    let ca = if a.count == 0 { 1 } else { a.count as int };
    let cb = if b.count == 0 { 1 } else { b.count as int };
    let cc = if c.count == 0 { 1 } else { c.count as int };
    assert(a.halves * cc < c.halves * ca) by (nonlinear_arith)
        requires
            a.halves * cb <= b.halves * ca,
            b.halves * cc < c.halves * cb,
            ca > 0,
            cb > 0,
            cc > 0,
            a.halves >= 0,
            b.halves >= 0,
            c.halves >= 0,
    ;
}

/// What one game contributes to the gain of each arm.
#[derive(Debug)]
pub struct Contribution {
    pub game: String,
    pub baseline: Share,
    /// The best of the safe moves.
    pub oracle: Share,
    /// The same, chosen by one half of the seeds and measured by the other.
    pub oracle_honest: Option<Share>,
    pub policy_strict: Share,
    pub policy_all: Share,
    pub policy_w0: Share,
}

/// Whether the gain of the safe moves of a game is right, the moves and seeds being those of the
/// game.
pub open spec fn oracle_is(
    rows: Seq<RowModel>,
    game: Seq<char>,
    moves: Seq<String>,
    seeds: Seq<u64>,
    oracle: Share,
    honest: Option<Share>,
) -> bool {
    &&& is_ordered_list(moves)
    &&& forall|t: Seq<char>|
        texts_of(moves).contains(t) <==> has_move(rows, rows.len() as int, game, "oracle"@, t)
    &&& strictly_ascending(seeds)
    &&& forall|t: u64| seeds.contains(t) <==> has_seed(rows, rows.len() as int, game, "oracle"@, t)
    &&& is_best_share(rows, game, "oracle"@, moves, oracle)
    &&& match honest {
        Some(s) => seeds.len() >= 2 && exists|m: int|
            #[trigger] is_trained_best(
                rows,
                game,
                "oracle"@,
                moves,
                seeds[seeds.len() as int / 2],
                m,
            ) && s == part_share(
                rows,
                game,
                "oracle"@,
                Part::From(moves[m], seeds[seeds.len() as int / 2]),
            ),
        None => seeds.len() < 2,
    }
}

/// Whether a contribution is that of its game.
pub open spec fn contribution_is(rows: Seq<RowModel>, c: Contribution) -> bool {
    let game = c.game@;
    &&& c.baseline == part_share(rows, game, "baseline"@, Part::Arm)
    &&& c.policy_strict == part_share(rows, game, "policy_strict"@, Part::Arm)
    &&& c.policy_all == part_share(rows, game, "policy_all"@, Part::Arm)
    &&& c.policy_w0 == part_share(rows, game, "policy_w0"@, Part::Arm)
    &&& exists|moves: Seq<String>, seeds: Seq<u64>| #[trigger]
        oracle_is(rows, game, moves, seeds, c.oracle, c.oracle_honest)
}

fn contribution(rows: &Vec<Row>, game: &String) -> (res: Contribution)
    requires
        rows_ok(rows@),
    ensures
        res.game@ == game@,
        contribution_is(row_list(rows@), res),
{
    let ghost all = row_list(rows@);
    let g = game.as_str();
    let moves = moves_in(rows, g, "oracle");
    let seeds = seeds_in(rows, g, "oracle");
    proof {
        if seeds@.len() >= 2 {
            assert(seeds@.contains(seeds@[0]));
            let k = choose|k: int|
                0 <= k < all.len() && (#[trigger] all[k]).game == game@ && all[k].arm == "oracle"@
                    && all[k].seed == seeds@[0];
            assert(has_move(all, all.len() as int, game@, "oracle"@, all[k].usi));
            assert(texts_of(moves@).contains(all[k].usi));
        }
    }
    let oracle = best_share(rows, g, "oracle", &moves);
    let oracle_honest = honest_share(rows, g, "oracle", &seeds, &moves);
    let res = Contribution {
        game: game.clone(),
        baseline: share_of(rows, g, "baseline", &Part::Arm),
        oracle,
        oracle_honest,
        policy_strict: share_of(rows, g, "policy_strict", &Part::Arm),
        policy_all: share_of(rows, g, "policy_all", &Part::Arm),
        policy_w0: share_of(rows, g, "policy_w0", &Part::Arm),
    };
    assert(oracle_is(all, res.game@, moves@, seeds@, res.oracle, res.oracle_honest));
    res
}

/// What each game contributes, the games in order.
pub fn contributions(rows: &Vec<Row>) -> (res: Vec<Contribution>)
    requires
        rows_ok(rows@),
    ensures
        forall|i: int| 0 <= i < res@.len() ==> contribution_is(row_list(rows@), #[trigger] res@[i]),
        forall|i: int, j: int|
            0 <= i < j < res@.len() ==> comes_before(
                (#[trigger] res@[i]).game@,
                (#[trigger] res@[j]).game@,
            ),
        forall|t: Seq<char>|
            #[trigger] has_game(row_list(rows@), rows@.len() as int, t) <==> exists|i: int|
                0 <= i < res@.len() && (#[trigger] res@[i]).game@ == t,
{
    let games = games_in(rows);
    let mut out: Vec<Contribution> = Vec::new();
    let mut i: usize = 0;
    while i < games.len()
        invariant
            i <= games@.len(),
            rows_ok(rows@),
            is_ordered_list(games@),
            out@.len() == i,
            forall|k: int| 0 <= k < i ==> contribution_is(row_list(rows@), #[trigger] out@[k]),
            forall|k: int| 0 <= k < i ==> (#[trigger] out@[k]).game@ == games@[k]@,
        decreases games@.len() - i,
    {
        out.push(contribution(rows, &games[i]));
        i += 1;
    }
    proof {
        assert forall|i: int, j: int| 0 <= i < j < out@.len() implies comes_before(
            (#[trigger] out@[i]).game@,
            (#[trigger] out@[j]).game@,
        ) by {
            assert(comes_before(games@[i]@, games@[j]@));
        }
        assert forall|t: Seq<char>|
            #[trigger] has_game(row_list(rows@), rows@.len() as int, t) <==> exists|i: int|
                0 <= i < out@.len() && (#[trigger] out@[i]).game@ == t by {
            assert(texts_of(games@).contains(t) <==> has_game(
                row_list(rows@),
                rows@.len() as int,
                t,
            ));
            if texts_of(games@).contains(t) {
                let k = choose|k: int| 0 <= k < games@.len() && texts_of(games@)[k] == t;
                assert(out@[k].game@ == t);
            }
            if exists|i: int| 0 <= i < out@.len() && (#[trigger] out@[i]).game@ == t {
                let k = choose|k: int| 0 <= k < out@.len() && (#[trigger] out@[k]).game@ == t;
                assert(texts_of(games@)[k] == t);
            }
        }
    }
    out
}

/// One line of the calibration: a candidate move of a position, what was predicted and what is true.
#[derive(Debug, PartialEq, Eq)]
pub struct CalibrationRow {
    /// Whether the position is one of danger, not one for comparison.
    pub danger: bool,
    /// Whether the move really allows a mate; nothing of a move that is not legal.
    pub allows_mate: Option<bool>,
    /// The tag of the kind of mate, where one is known.
    pub kind: Option<String>,
    /// The tenth that the prediction falls into.
    pub bin: usize,
    /// Which of the thresholds the prediction reaches.
    pub reaches: [bool; 7],
}

/// The counts of a calibration. Of two, the first is for danger and the second for comparison.
#[derive(Debug, PartialEq, Eq)]
pub struct Calibration {
    pub rows: [usize; 2],
    pub positives: [usize; 2],
    /// By tenth: the rows of danger and the positive ones among them.
    pub danger_bins: [(usize, usize); 10],
    /// By tenth: the rows for comparison and the positive ones among them.
    pub control_bins: [(usize, usize); 10],
    /// By kind of mate, in the order of the tags: the positive rows of that kind.
    pub kinds: Vec<(String, usize)>,
    /// By threshold: the rows that reach it.
    pub predicted: [usize; 7],
    /// By threshold: the positive rows that reach it.
    pub hits: [usize; 7],
    /// By threshold: the negative rows for comparison that reach it.
    pub false_alarms: [usize; 7],
    pub negatives: usize,
}

/// Whether a row has a label in a kind of position.
pub open spec fn labelled(r: CalibrationRow, danger: bool) -> bool {
    r.allows_mate is Some && r.danger == danger
}

/// Whether a row is a positive one.
pub open spec fn positive(r: CalibrationRow) -> bool {
    r.allows_mate == Some(true)
}

/// Whether a row is a negative one for comparison.
pub open spec fn control_negative(r: CalibrationRow) -> bool {
    r.allows_mate == Some(false) && !r.danger
}

/// Whether a row falls into a tenth in a kind of position.
pub open spec fn in_bin(r: CalibrationRow, danger: bool, bin: int) -> bool {
    labelled(r, danger) && r.bin == bin
}

/// Whether a row is a positive one of a kind of mate.
pub open spec fn of_kind(r: CalibrationRow, kind: Seq<char>) -> bool {
    positive(r) && (r.kind matches Some(k) && k@ == kind)
}

/// Whether the counts by tenth are right for a kind of position.
pub open spec fn bins_are(
    bins: Seq<(usize, usize)>,
    rows: Seq<CalibrationRow>,
    danger: bool,
    n: int,
) -> bool {
    forall|b: int|
        0 <= b < n ==> (#[trigger] bins[b]).0 == rows.filter(
            |r: CalibrationRow| in_bin(r, danger, b),
        ).len() && bins[b].1 == rows.filter(
            |r: CalibrationRow| in_bin(r, danger, b) && positive(r),
        ).len()
}

/// Whether some positive row among the first `n` is of a kind of mate.
pub open spec fn has_kind(rows: Seq<CalibrationRow>, n: int, kind: Seq<char>) -> bool {
    exists|i: int| 0 <= i < n && of_kind(#[trigger] rows[i], kind)
}

/// Whether the counts by kind of mate are right: each kind that occurs stands there once, in order,
/// with its rows.
pub open spec fn kinds_are(kinds: Seq<(String, usize)>, rows: Seq<CalibrationRow>) -> bool {
    &&& forall|i: int, j: int|
        0 <= i < j < kinds.len() ==> comes_before(
            (#[trigger] kinds[i]).0@,
            (#[trigger] kinds[j]).0@,
        )
    &&& forall|i: int|
        0 <= i < kinds.len() ==> (#[trigger] kinds[i]).1 == rows.filter(
            |r: CalibrationRow| of_kind(r, kinds[i].0@),
        ).len()
    &&& forall|t: Seq<char>| #[trigger]
        has_kind(rows, rows.len() as int, t) <==> exists|i: int|
            0 <= i < kinds.len() && (#[trigger] kinds[i]).0@ == t
}

/// Whether the counts of a calibration are right.
pub open spec fn calibration_is(c: Calibration, rows: Seq<CalibrationRow>) -> bool {
    &&& c.rows@[0] == rows.filter(|r: CalibrationRow| labelled(r, true)).len()
    &&& c.rows@[1] == rows.filter(|r: CalibrationRow| labelled(r, false)).len()
    &&& c.positives@[0] == rows.filter(|r: CalibrationRow| positive(r) && r.danger).len()
    &&& c.positives@[1] == rows.filter(|r: CalibrationRow| positive(r) && !r.danger).len()
    &&& bins_are(c.danger_bins@, rows, true, 10)
    &&& bins_are(c.control_bins@, rows, false, 10)
    &&& kinds_are(c.kinds@, rows)
    &&& forall|t: int|
        0 <= t < 7 ==> #[trigger] c.predicted@[t] == rows.filter(
            |r: CalibrationRow| r.allows_mate is Some && r.reaches@[t],
        ).len()
    &&& forall|t: int|
        0 <= t < 7 ==> #[trigger] c.hits@[t] == rows.filter(
            |r: CalibrationRow| positive(r) && r.reaches@[t],
        ).len()
    &&& forall|t: int|
        0 <= t < 7 ==> #[trigger] c.false_alarms@[t] == rows.filter(
            |r: CalibrationRow| control_negative(r) && r.reaches@[t],
        ).len()
    &&& c.negatives == rows.filter(|r: CalibrationRow| control_negative(r)).len()
}

fn count_bin(rows: &Vec<CalibrationRow>, danger: bool, b: usize) -> (res: (usize, usize))
    ensures
        res.0 == rows@.filter(|r: CalibrationRow| in_bin(r, danger, b as int)).len(),
        res.1 == rows@.filter(
            |r: CalibrationRow| in_bin(r, danger, b as int) && positive(r),
        ).len(),
{
    let ghost p = |r: CalibrationRow| in_bin(r, danger, b as int);
    let ghost q = |r: CalibrationRow| in_bin(r, danger, b as int) && positive(r);
    let is_all = |r: &CalibrationRow| -> (x: bool)
        ensures
            x == in_bin(*r, danger, b as int),
    { r.allows_mate.is_some() && r.danger == danger && r.bin == b };
    let all = count_if(rows, is_all, Ghost(p));
    let is_hit = |r: &CalibrationRow| -> (x: bool)
        ensures
            x == (in_bin(*r, danger, b as int) && positive(*r)),
    {
                match r.allows_mate {
                    Some(y) => y && r.danger == danger && r.bin == b,
                    None => false,
                }
            };
    let hit = count_if(rows, is_hit, Ghost(q));
    (all, hit)
}

fn count_bins(rows: &Vec<CalibrationRow>, danger: bool) -> (res: [(usize, usize); 10])
    ensures
        bins_are(res@, rows@, danger, 10),
{
    let mut bins: [(usize, usize); 10] = [(0, 0); 10];
    let mut b: usize = 0;
    while b < 10
        invariant
            b <= 10,
            bins_are(bins@, rows@, danger, b as int),
        decreases 10 - b,
    {
        let ghost before_ = bins@;
        bins[b] = count_bin(rows, danger, b);
        assert(bins@ =~= before_.update(b as int, bins@[b as int]));
        b += 1;
    }
    bins
}

fn is_of_kind(r: &CalibrationRow, kind: &String) -> (res: bool)
    ensures
        res == of_kind(*r, kind@),
{
    match (&r.allows_mate, &r.kind) {
        (Some(y), Some(k)) => *y && *k == *kind,
        _ => false,
    }
}

fn count_kind_rows(rows: &Vec<CalibrationRow>, kind: &String) -> (res: usize)
    ensures
        res == rows@.filter(|r: CalibrationRow| of_kind(r, kind@)).len(),
{
    let ghost p = |r: CalibrationRow| of_kind(r, kind@);
    let test = |r: &CalibrationRow| -> (x: bool)
        ensures
            x == of_kind(*r, kind@),
    { is_of_kind(r, kind) };
    count_if(rows, test, Ghost(p))
}

/// The kinds of mate of the positive rows, in order.
fn kinds_in(rows: &Vec<CalibrationRow>) -> (res: Vec<String>)
    ensures
        is_ordered_list(res@),
        forall|t: Seq<char>|
            texts_of(res@).contains(t) <==> has_kind(rows@, rows@.len() as int, t),
{
    let mut out: Vec<String> = Vec::new();
    let mut i: usize = 0;
    while i < rows.len()
        invariant
            i <= rows@.len(),
            is_ordered_list(out@),
            forall|t: Seq<char>| texts_of(out@).contains(t) <==> has_kind(rows@, i as int, t),
        decreases rows@.len() - i,
    {
        let ghost start = out@;
        let r = &rows[i];
        let y = match r.allows_mate {
            Some(y) => y,
            None => false,
        };
        if y {
            if let Some(k) = &r.kind {
                insert_ordered(&mut out, k);
            }
        }
        proof {
            assert forall|t: Seq<char>|
                texts_of(out@).contains(t) <==> has_kind(rows@, i + 1, t) by {
                assert(texts_of(start).contains(t) <==> has_kind(rows@, i as int, t));
                if has_kind(rows@, i as int, t) {
                    let k = choose|k: int| 0 <= k < i && of_kind(#[trigger] rows@[k], t);
                    assert(of_kind(rows@[k], t));
                }
                if has_kind(rows@, i + 1, t) && !of_kind(rows@[i as int], t) {
                    let k = choose|k: int| 0 <= k < i + 1 && of_kind(#[trigger] rows@[k], t);
                    assert(k < i);
                }
                assert(of_kind(rows@[i as int], t) ==> has_kind(rows@, i + 1, t));
            }
        }
        i += 1;
    }
    out
}

fn count_kinds(rows: &Vec<CalibrationRow>) -> (res: Vec<(String, usize)>)
    ensures
        kinds_are(res@, rows@),
{
    let names = kinds_in(rows);
    let mut out: Vec<(String, usize)> = Vec::new();
    let mut i: usize = 0;
    while i < names.len()
        invariant
            i <= names@.len(),
            out@.len() == i,
            forall|k: int| 0 <= k < i ==> (#[trigger] out@[k]).0@ == names@[k]@,
            forall|k: int|
                0 <= k < i ==> (#[trigger] out@[k]).1 == rows@.filter(
                    |r: CalibrationRow| of_kind(r, out@[k].0@),
                ).len(),
        decreases names@.len() - i,
    {
        let n: usize = count_kind_rows(rows, &names[i]);
        let ghost before_ = out@;
        out.push((names[i].clone(), n));
        assert forall|k: int| 0 <= k < i + 1 implies (#[trigger] out@[k]).1 == rows@.filter(
            |r: CalibrationRow| of_kind(r, out@[k].0@),
        ).len() by {
            if k < i {
                assert(out@[k] == before_[k]);
            }
        }
        i += 1;
    }
    proof {
        assert forall|a: int, b: int| 0 <= a < b < out@.len() implies comes_before(
            (#[trigger] out@[a]).0@,
            (#[trigger] out@[b]).0@,
        ) by {
            assert(comes_before(names@[a]@, names@[b]@));
        }
        assert forall|t: Seq<char>| #[trigger]
            has_kind(rows@, rows@.len() as int, t) <==> exists|i: int|
                0 <= i < out@.len() && (#[trigger] out@[i]).0@ == t by {
            assert(texts_of(names@).contains(t) <==> has_kind(rows@, rows@.len() as int, t));
            if texts_of(names@).contains(t) {
                let k = choose|k: int| 0 <= k < names@.len() && texts_of(names@)[k] == t;
                assert(out@[k].0@ == t);
            }
            if exists|i: int| 0 <= i < out@.len() && (#[trigger] out@[i]).0@ == t {
                let k = choose|k: int| 0 <= k < out@.len() && (#[trigger] out@[k]).0@ == t;
                assert(texts_of(names@)[k] == t);
            }
        }
    }
    out
}

fn count_threshold(rows: &Vec<CalibrationRow>, t: usize) -> (res: (usize, usize, usize))
    requires
        t < 7,
    ensures
        res.0 == rows@.filter(|r: CalibrationRow| r.allows_mate is Some && r.reaches@[t as int]).len(),
        res.1 == rows@.filter(|r: CalibrationRow| positive(r) && r.reaches@[t as int]).len(),
        res.2 == rows@.filter(|r: CalibrationRow| control_negative(r) && r.reaches@[t as int]).len(),
{
    let ghost p = |r: CalibrationRow| r.allows_mate is Some && r.reaches@[t as int];
    let ghost q = |r: CalibrationRow| positive(r) && r.reaches@[t as int];
    let ghost n = |r: CalibrationRow| control_negative(r) && r.reaches@[t as int];
    let is_all = |r: &CalibrationRow| -> (x: bool)
        ensures
            x == (r.allows_mate is Some && r.reaches@[t as int]),
    { r.allows_mate.is_some() && r.reaches[t] };
    let all = count_if(rows, is_all, Ghost(p));
    let is_hit = |r: &CalibrationRow| -> (x: bool)
        ensures
            x == (positive(*r) && r.reaches@[t as int]),
    {
                match r.allows_mate {
                    Some(y) => y && r.reaches[t],
                    None => false,
                }
            };
    let hit = count_if(rows, is_hit, Ghost(q));
    let is_alarm = |r: &CalibrationRow| -> (x: bool)
        ensures
            x == (control_negative(*r) && r.reaches@[t as int]),
    {
                match r.allows_mate {
                    Some(y) => !y && !r.danger && r.reaches[t],
                    None => false,
                }
            };
    let alarm = count_if(rows, is_alarm, Ghost(n));
    (all, hit, alarm)
}

/// Counts a calibration.
pub fn calibrate(rows: &Vec<CalibrationRow>) -> (res: Calibration)
    ensures
        calibration_is(res, rows@),
{
    let ghost d0 = |r: CalibrationRow| labelled(r, true);
    let ghost d1 = |r: CalibrationRow| labelled(r, false);
    let ghost p0 = |r: CalibrationRow| positive(r) && r.danger;
    let ghost p1 = |r: CalibrationRow| positive(r) && !r.danger;
    let ghost neg = |r: CalibrationRow| control_negative(r);
    let is_danger = |r: &CalibrationRow| -> (x: bool)
        ensures
            x == labelled(*r, true),
    { r.allows_mate.is_some() && r.danger };
    let danger = count_if(rows, is_danger, Ghost(d0));
    let is_control = |r: &CalibrationRow| -> (x: bool)
        ensures
            x == labelled(*r, false),
    { r.allows_mate.is_some() && !r.danger };
    let control = count_if(rows, is_control, Ghost(d1));
    let is_danger_pos = |r: &CalibrationRow| -> (x: bool)
        ensures
            x == (positive(*r) && r.danger),
    {
                match r.allows_mate {
                    Some(y) => y && r.danger,
                    None => false,
                }
            };
    let danger_pos = count_if(rows, is_danger_pos, Ghost(p0));
    let is_control_pos = |r: &CalibrationRow| -> (x: bool)
        ensures
            x == (positive(*r) && !r.danger),
    {
                match r.allows_mate {
                    Some(y) => y && !r.danger,
                    None => false,
                }
            };
    let control_pos = count_if(rows, is_control_pos, Ghost(p1));
    let is_negatives = |r: &CalibrationRow| -> (x: bool)
        ensures
            x == control_negative(*r),
    {
                match r.allows_mate {
                    Some(y) => !y && !r.danger,
                    None => false,
                }
            };
    let negatives = count_if(rows, is_negatives, Ghost(neg));
    let danger_bins = count_bins(rows, true);
    let control_bins = count_bins(rows, false);
    let kinds = count_kinds(rows);
    let mut predicted: [usize; 7] = [0; 7];
    let mut hits: [usize; 7] = [0; 7];
    let mut false_alarms: [usize; 7] = [0; 7];
    let mut t: usize = 0;
    while t < 7
        invariant
            t <= 7,
            forall|k: int|
                0 <= k < t ==> #[trigger] predicted@[k] == rows@.filter(
                    |r: CalibrationRow| r.allows_mate is Some && r.reaches@[k],
                ).len(),
            forall|k: int|
                0 <= k < t ==> #[trigger] hits@[k] == rows@.filter(
                    |r: CalibrationRow| positive(r) && r.reaches@[k],
                ).len(),
            forall|k: int|
                0 <= k < t ==> #[trigger] false_alarms@[k] == rows@.filter(
                    |r: CalibrationRow| control_negative(r) && r.reaches@[k],
                ).len(),
        decreases 7 - t,
    {
        let (all, hit, alarm) = count_threshold(rows, t);
        predicted[t] = all;
        hits[t] = hit;
        false_alarms[t] = alarm;
        t += 1;
    }
    Calibration {
        rows: [danger, control],
        positives: [danger_pos, control_pos],
        danger_bins,
        control_bins,
        kinds,
        predicted,
        hits,
        false_alarms,
        negatives,
    }
}

/// Every labelled row falls into one kind of position, the tenths of both kinds of position together
/// hold the rows of that tenth, and a threshold is never reached by more positive rows than rows, nor
/// by more negative ones than there are.
pub proof fn law_calibration_counts(c: Calibration, rows: Seq<CalibrationRow>, t: int, b: int)
    requires
        calibration_is(c, rows),
        0 <= t < 7,
        0 <= b < 10,
    ensures
        c.danger_bins@[b].0 + c.control_bins@[b].0 == rows.filter(
            |r: CalibrationRow| r.allows_mate is Some && r.bin == b,
        ).len(),
        c.danger_bins@[b].1 <= c.danger_bins@[b].0,
        c.control_bins@[b].1 <= c.control_bins@[b].0,
        c.rows@[0] + c.rows@[1] == rows.filter(|r: CalibrationRow| r.allows_mate is Some).len(),
        c.positives@[0] <= c.rows@[0],
        c.positives@[1] <= c.rows@[1],
        c.hits@[t] <= c.predicted@[t],
        c.hits@[t] <= c.positives@[0] + c.positives@[1],
        c.false_alarms@[t] <= c.negatives,
        c.positives@[1] + c.negatives == c.rows@[1],
{
    let any = |r: CalibrationRow| r.allows_mate is Some;
    let d0 = |r: CalibrationRow| labelled(r, true);
    let d1 = |r: CalibrationRow| labelled(r, false);
    let p0 = |r: CalibrationRow| positive(r) && r.danger;
    let p1 = |r: CalibrationRow| positive(r) && !r.danger;
    let neg = |r: CalibrationRow| control_negative(r);
    let never = |r: CalibrationRow| false;
    let pos = |r: CalibrationRow| positive(r);
    let hit = |r: CalibrationRow| positive(r) && r.reaches@[t];
    let pred = |r: CalibrationRow| r.allows_mate is Some && r.reaches@[t];
    let alarm = |r: CalibrationRow| control_negative(r) && r.reaches@[t];
    let whole = |r: CalibrationRow| r.allows_mate is Some && r.bin == b;
    let b0 = |r: CalibrationRow| in_bin(r, true, b);
    let b1 = |r: CalibrationRow| in_bin(r, false, b);
    let h0 = |r: CalibrationRow| in_bin(r, true, b) && positive(r);
    let h1 = |r: CalibrationRow| in_bin(r, false, b) && positive(r);
    lemma_never(rows, never);
    crate::lists::lemma_filter_three_ways(rows, whole, b0, b1, never);
    crate::lists::lemma_filter_fewer(rows, h0, b0);
    crate::lists::lemma_filter_fewer(rows, h1, b1);
    assert(c.danger_bins@[b].0 == rows.filter(b0).len());
    assert(c.control_bins@[b].0 == rows.filter(b1).len());
    crate::lists::lemma_filter_three_ways(rows, any, d0, d1, never);
    crate::lists::lemma_filter_three_ways(rows, pos, p0, p1, never);
    assert forall|r: CalibrationRow| #[trigger]
        d1(r) == (p1(r) || neg(r) || never(r)) && !(p1(r) && neg(r)) by {
        match r.allows_mate {
            Some(y) => {
                assert(r.allows_mate == Some(y));
                if y {
                    assert(r.allows_mate == Some(true));
                } else {
                    assert(r.allows_mate == Some(false));
                }
            },
            None => {},
        }
    }
    crate::lists::lemma_filter_three_ways(rows, d1, p1, neg, never);
    crate::lists::lemma_filter_fewer(rows, p0, d0);
    crate::lists::lemma_filter_fewer(rows, hit, pred);
    crate::lists::lemma_filter_fewer(rows, hit, pos);
    crate::lists::lemma_filter_fewer(rows, alarm, neg);
    assert(c.hits@[t] == rows.filter(hit).len());
    assert(c.predicted@[t] == rows.filter(pred).len());
    assert(c.false_alarms@[t] == rows.filter(alarm).len());
}

proof fn lemma_never<A>(s: Seq<A>, p: spec_fn(A) -> bool)
    requires
        forall|x: A| !#[trigger] p(x),
    ensures
        s.filter(p).len() == 0,
    decreases s.len(),
{
    if s.len() == 0 {
        s.lemma_filter_len(p);
    } else {
        let front = s.drop_last();
        lemma_never(front, p);
        assert(s =~= front.push(s.last()));
        front.lemma_filter_push(s.last(), p);
        assert(!p(s.last()));
    }
}

/// What is known of the candidates of a position of danger under one seed.
#[derive(Clone, Copy, Debug, PartialEq, Eq)]
pub struct DefenceUnit {
    /// Whether no consistent sample was left.
    pub blind: bool,
    /// Whether the present term has fired.
    pub fired: bool,
    /// The safe moves among the candidates, and the safe moves there are.
    pub covered: u32,
    pub safe: u32,
    /// The rank of the best safe candidate, counted from zero.
    pub best_rank: Option<usize>,
    /// Whether the choice is a safe move, without the penalty and with each of its weights.
    pub safe_choice: [bool; 6],
}

/// The counts over several positions of danger.
#[derive(Debug)]
pub struct DefenceSummary {
    pub units: usize,
    pub blind: usize,
    pub fired: usize,
    /// The positions without a safe candidate.
    pub without: usize,
    pub covered: u64,
    pub safe: u64,
    /// The ranks of the best safe candidates.
    pub ranks: Vec<usize>,
    pub top8: usize,
    pub top17: usize,
    pub safe_choices: [usize; 6],
}

/// The safe moves among the candidates of the first `n` positions.
pub open spec fn covered_sum(units: Seq<DefenceUnit>, n: int) -> nat
    decreases n,
{
    if n <= 0 {
        0
    } else {
        covered_sum(units, n - 1) + units[n - 1].covered as nat
    }
}

/// The safe moves of the first `n` positions.
pub open spec fn safe_sum(units: Seq<DefenceUnit>, n: int) -> nat
    decreases n,
{
    if n <= 0 {
        0
    } else {
        safe_sum(units, n - 1) + units[n - 1].safe as nat
    }
}

/// Whether the counts are right. Only positions with a safe candidate count for ranks and choices.
pub open spec fn defence_is(s: DefenceSummary, units: Seq<DefenceUnit>) -> bool {
    &&& s.units == units.len()
    &&& s.blind == units.filter(|u: DefenceUnit| u.blind).len()
    &&& s.fired == units.filter(|u: DefenceUnit| u.fired).len()
    &&& s.without == units.filter(|u: DefenceUnit| u.best_rank is None).len()
    &&& s.covered == covered_sum(units, units.len() as int)
    &&& s.safe == safe_sum(units, units.len() as int)
    &&& s.ranks@ == units.filter_map(|u: DefenceUnit| u.best_rank)
    &&& s.top8 == units.filter(|u: DefenceUnit| u.best_rank matches Some(r) && r < 8).len()
    &&& s.top17 == units.filter(|u: DefenceUnit| u.best_rank matches Some(r) && r < 17).len()
    &&& forall|w: int|
        0 <= w < 6 ==> #[trigger] s.safe_choices@[w] == units.filter(
            |u: DefenceUnit| u.best_rank is Some && u.safe_choice@[w],
        ).len()
}

fn count_choices(units: &Vec<DefenceUnit>, w: usize) -> (res: usize)
    requires
        w < 6,
    ensures
        res == units@.filter(
            |u: DefenceUnit| u.best_rank is Some && u.safe_choice@[w as int],
        ).len(),
{
    let ghost p = |u: DefenceUnit| u.best_rank is Some && u.safe_choice@[w as int];
    let is_counted = |u: &DefenceUnit| -> (x: bool)
        ensures
            x == (u.best_rank is Some && u.safe_choice@[w as int]),
    { u.best_rank.is_some() && u.safe_choice[w] };
    count_if(units, is_counted, Ghost(p))
}

fn count_top(units: &Vec<DefenceUnit>, top: usize) -> (res: usize)
    ensures
        res == units@.filter(|u: DefenceUnit| u.best_rank matches Some(r) && r < top).len(),
{
    let ghost p = |u: DefenceUnit| u.best_rank matches Some(r) && r < top;
    let is_counted = |u: &DefenceUnit| -> (x: bool)
        ensures
            x == (u.best_rank matches Some(r) && r < top),
    {
                match u.best_rank {
                    Some(r) => r < top,
                    None => false,
                }
            };
    count_if(units, is_counted, Ghost(p))
}

/// Counts over several positions of danger.
pub fn summarize_defence(units: &Vec<DefenceUnit>) -> (res: DefenceSummary)
    requires
        units@.len() <= u32::MAX,
    ensures
        defence_is(res, units@),
{
    let ghost blind_p = |u: DefenceUnit| u.blind;
    let ghost fired_p = |u: DefenceUnit| u.fired;
    let ghost none_p = |u: DefenceUnit| u.best_rank is None;
    let ghost pick = |u: DefenceUnit| u.best_rank;
    let is_blind = |u: &DefenceUnit| -> (x: bool)
        ensures
            x == u.blind,
    { u.blind };
    let blind = count_if(units, is_blind, Ghost(blind_p));
    let is_fired = |u: &DefenceUnit| -> (x: bool)
        ensures
            x == u.fired,
    { u.fired };
    let fired = count_if(units, is_fired, Ghost(fired_p));
    let is_without = |u: &DefenceUnit| -> (x: bool)
        ensures
            x == (u.best_rank is None),
    { u.best_rank.is_none() };
    let without = count_if(units, is_without, Ghost(none_p));
    let mut covered: u64 = 0;
    let mut safe: u64 = 0;
    let mut ranks: Vec<usize> = Vec::new();
    let mut i: usize = 0;
    assert(units@.take(0).filter_map(pick) =~= Seq::<usize>::empty());
    while i < units.len()
        invariant
            i <= units@.len() <= u32::MAX,
            pick == (|u: DefenceUnit| u.best_rank),
            covered == covered_sum(units@, i as int),
            safe == safe_sum(units@, i as int),
            covered <= i * u32::MAX,
            safe <= i * u32::MAX,
            ranks@ == units@.take(i as int).filter_map(pick),
        decreases units@.len() - i,
    {
        let u = units[i];
        proof {
            units@.lemma_filter_map_take_succ(pick, i as int);
            assert(i * u32::MAX + u32::MAX == (i + 1) * u32::MAX) by (nonlinear_arith);
            assert((i + 1) * u32::MAX <= u32::MAX * u32::MAX) by (nonlinear_arith)
                requires
                    i + 1 <= u32::MAX,
            ;
        }
        covered += u.covered as u64;
        safe += u.safe as u64;
        if let Some(r) = u.best_rank {
            ranks.push(r);
        }
        i += 1;
    }
    assert(units@.take(i as int) =~= units@);
    let mut safe_choices: [usize; 6] = [0; 6];
    let mut w: usize = 0;
    while w < 6
        invariant
            w <= 6,
            forall|k: int|
                0 <= k < w ==> #[trigger] safe_choices@[k] == units@.filter(
                    |u: DefenceUnit| u.best_rank is Some && u.safe_choice@[k],
                ).len(),
        decreases 6 - w,
    {
        safe_choices[w] = count_choices(units, w);
        w += 1;
    }
    DefenceSummary {
        units: units.len(),
        blind,
        fired,
        without,
        covered,
        safe,
        ranks,
        top8: count_top(units, 8),
        top17: count_top(units, 17),
        safe_choices,
    }
}

} // verus!
