//! What the reports on mates count, and which problems are taken from finished games.

use crate::board::Coord;
use crate::lists::lemma_filter_push;
use crate::mate_export::{
    description, fields, first_text, heading, is_in, least_text, on_one_line, scenario_ending_of, with_commas,
    MateLine, MatePoint,
};
use crate::mate_report::{
    all_parts, calibration_is, covered_sum, defence_is, in_part, is_trained_best, mean_below, oracle_is, part_share,
    part_total, row_counts, safe_sum, share_where,
    Calibration, CalibrationRow, DefenceSummary, DefenceUnit, Part, RowModel, Share,
};
use crate::protocol::{other_color, promoted, Color, Role};
use crate::replay::DecisionModel;
use crate::scenario::{one_line, scenario_header};
use crate::shogi::{checked, king_of};
use crate::text::{comes_before, lemma_not_before_chain, lemma_one_comes_first, number_of};
use crate::tsume::{
    args_from, default_args, is_fresh, is_taken, kind_text, meets, mined_at, occurrences, opt_of, turned, with_option, ArgsModel,
    FaultModel, Opt, Standard, Verdict,
};
use vstd::prelude::*;
use vstd::string::*;

verus! {

/// One for what holds, else nothing.
pub open spec fn once(b: bool) -> int {
    if b {
        1
    } else {
        0
    }
}

/// Of the rows of one game, arm, move and seed only the last counts.
pub proof fn law_last_row_counts(rows: Seq<RowModel>, i: int, j: int)
    requires
        0 <= i < j < rows.len(),
    ensures
        rows[i].game == rows[j].game && rows[i].arm == rows[j].arm && rows[i].usi == rows[j].usi
            && rows[i].seed == rows[j].seed ==> !row_counts(rows, i),
        (forall|k: int|
            i < k < rows.len() ==> (#[trigger] rows[k]).game != rows[i].game || rows[k].arm != rows[i].arm
                || rows[k].usi != rows[i].usi || rows[k].seed != rows[i].seed) ==> row_counts(rows, i),
        row_counts(rows, rows.len() - 1),
{
    if rows[i].game == rows[j].game && rows[i].arm == rows[j].arm && rows[i].usi == rows[j].usi
        && rows[i].seed == rows[j].seed {
        assert(crate::mate_report::same_key(rows[i], rows[j]));
    }
}

/// A row that counts adds its points and one game to every share it belongs to, and to no other.
pub proof fn law_shares_grow(rows: Seq<RowModel>, p: spec_fn(RowModel) -> bool, n: int)
    requires
        0 < n <= rows.len(),
        share_where(rows, p, n - 1).halves + rows[n - 1].halves <= u64::MAX,
        share_where(rows, p, n - 1).count < u64::MAX,
    ensures
        share_where(rows, p, n).halves == share_where(rows, p, n - 1).halves + (if row_counts(rows, n - 1)
            && p(rows[n - 1]) {
            rows[n - 1].halves as int
        } else {
            0
        }),
        share_where(rows, p, n).count == share_where(rows, p, n - 1).count + once(
            row_counts(rows, n - 1) && p(rows[n - 1]),
        ),
        share_where(rows, p, 0).halves == 0 && share_where(rows, p, 0).count == 0,
{
}

proof fn lemma_share_bounds(rows: Seq<RowModel>, p: spec_fn(RowModel) -> bool, n: int)
    requires
        0 <= n <= rows.len() <= u32::MAX,
        forall|i: int| 0 <= i < rows.len() ==> (#[trigger] rows[i]).halves <= 2,
    ensures
        share_where(rows, p, n).halves <= 2 * n,
        share_where(rows, p, n).count <= n,
    decreases n,
{
    if n > 0 {
        lemma_share_bounds(rows, p, n - 1);
        assert(rows[n - 1].halves <= 2);
    }
}

/// The rows of a move divide at any seed into those before it and those from it on, and the points and
/// games of the two add up to those of the move.
pub proof fn law_seeds_divide(rows: Seq<RowModel>, game: Seq<char>, arm: Seq<char>, usi: String, seed: u64)
    requires
        rows.len() <= u32::MAX,
        forall|i: int| 0 <= i < rows.len() ==> (#[trigger] rows[i]).halves <= 2,
    ensures
        ({
            let whole = part_share(rows, game, arm, Part::Move(usi));
            let a = part_share(rows, game, arm, Part::Before(usi, seed));
            let b = part_share(rows, game, arm, Part::From(usi, seed));
            a.halves + b.halves == whole.halves && a.count + b.count == whole.count
        }),
{
    lemma_seeds_divide(rows, game, arm, usi, seed, rows.len() as int);
}

proof fn lemma_seeds_divide(
    rows: Seq<RowModel>,
    game: Seq<char>,
    arm: Seq<char>,
    usi: String,
    seed: u64,
    n: int,
)
    requires
        0 <= n <= rows.len() <= u32::MAX,
        forall|i: int| 0 <= i < rows.len() ==> (#[trigger] rows[i]).halves <= 2,
    ensures
        ({
            let whole = share_where(rows, |r: RowModel| in_part(game, arm, Part::Move(usi), r), n);
            let a = share_where(rows, |r: RowModel| in_part(game, arm, Part::Before(usi, seed), r), n);
            let b = share_where(rows, |r: RowModel| in_part(game, arm, Part::From(usi, seed), r), n);
            a.halves + b.halves == whole.halves && a.count + b.count == whole.count
        }),
    decreases n,
{
    if n > 0 {
        lemma_seeds_divide(rows, game, arm, usi, seed, n - 1);
        lemma_share_bounds(rows, |r: RowModel| in_part(game, arm, Part::Move(usi), r), n - 1);
        lemma_share_bounds(rows, |r: RowModel| in_part(game, arm, Part::Before(usi, seed), r), n - 1);
        lemma_share_bounds(rows, |r: RowModel| in_part(game, arm, Part::From(usi, seed), r), n - 1);
        assert(rows[n - 1].halves <= 2);
    }
}

/// The parts of an arm: all its rows in a game, those of a move, and of these the ones with a seed below
/// or from a bound.
pub proof fn law_parts(game: Seq<char>, arm: Seq<char>, usi: String, seed: u64, r: RowModel)
    ensures
        in_part(game, arm, Part::Arm, r) <==> r.game == game && r.arm == arm,
        in_part(game, arm, Part::Move(usi), r) <==> r.game == game && r.arm == arm && r.usi == usi@,
        in_part(game, arm, Part::Before(usi, seed), r) <==> r.game == game && r.arm == arm && r.usi == usi@
            && r.seed < seed,
        in_part(game, arm, Part::From(usi, seed), r) <==> r.game == game && r.arm == arm && r.usi == usi@
            && r.seed >= seed,
{
}

/// Means are compared exactly: one is below another where its points times the other's games are fewer
/// than the other way round. No games at all have the mean nought.
pub proof fn law_means(a: Share, b: Share)
    ensures
        a.count > 0 && b.count > 0 ==> (mean_below(a, b) <==> a.halves * b.count < b.halves * a.count),
        mean_below(a, b) ==> !mean_below(b, a),
        a.count == 0 && a.halves == 0 && b.count > 0 ==> (mean_below(a, b) <==> b.halves > 0),
        a.count == b.count ==> (mean_below(a, b) <==> a.halves < b.halves),
{
    if a.count == 0 && a.halves == 0 && b.count > 0 {
        assert(0 * (b.count as int) == 0) by (nonlinear_arith);
    }
    if a.count == b.count {
        let c = if a.count == 0 {
            1
        } else {
            a.count as int
        };
        let x = a.halves as int;
        let y = b.halves as int;
        assert(x * c < y * c <==> x < y) by (nonlinear_arith)
            requires
                c > 0,
        ;
    }
}

/// What one more position of danger adds to a summary.
pub proof fn law_defence_counts(
    s: DefenceSummary,
    t: DefenceSummary,
    units: Seq<DefenceUnit>,
    u: DefenceUnit,
    w: int,
)
    requires
        defence_is(s, units),
        defence_is(t, units.push(u)),
        0 <= w < 6,
    ensures
        t.units == s.units + 1,
        t.blind == s.blind + once(u.blind),
        t.fired == s.fired + once(u.fired),
        t.without == s.without + once(u.best_rank is None),
        t.covered == s.covered + u.covered,
        t.safe == s.safe + u.safe,
        t.top8 == s.top8 + once(u.best_rank is Some && u.best_rank->0 < 8),
        t.top17 == s.top17 + once(u.best_rank is Some && u.best_rank->0 < 17),
        t.safe_choices@[w] == s.safe_choices@[w] + once(u.best_rank is Some && u.safe_choice@[w]),
        t.ranks@ == (match u.best_rank {
            Some(r) => s.ranks@.push(r),
            None => s.ranks@,
        }),
{
    let n = units.len() as int;
    lemma_filter_push(units, u, |u: DefenceUnit| u.blind);
    lemma_filter_push(units, u, |u: DefenceUnit| u.fired);
    lemma_filter_push(units, u, |u: DefenceUnit| u.best_rank is None);
    lemma_filter_push(units, u, |u: DefenceUnit| u.best_rank matches Some(r) && r < 8);
    lemma_filter_push(units, u, |u: DefenceUnit| u.best_rank matches Some(r) && r < 17);
    lemma_filter_push(units, u, |u: DefenceUnit| u.best_rank is Some && u.safe_choice@[w]);
    assert(s.safe_choices@[w] == units.filter(
        |u: DefenceUnit| u.best_rank is Some && u.safe_choice@[w],
    ).len());
    assert(t.safe_choices@[w] == units.push(u).filter(
        |u: DefenceUnit| u.best_rank is Some && u.safe_choice@[w],
    ).len());
    lemma_sums(units, units.push(u), n);
    reveal(Seq::filter_map);
    assert(units.push(u).drop_last() =~= units);
}

proof fn lemma_sums(a: Seq<DefenceUnit>, b: Seq<DefenceUnit>, n: int)
    requires
        0 <= n <= a.len(),
        n <= b.len(),
        forall|i: int| 0 <= i < n ==> #[trigger] a[i] == b[i],
    ensures
        covered_sum(a, n) == covered_sum(b, n),
        safe_sum(a, n) == safe_sum(b, n),
    decreases n,
{
    if n > 0 {
        lemma_sums(a, b, n - 1);
        assert(a[n - 1] == b[n - 1]);
    }
}

/// What one more row adds to a calibration: nothing where its move has no label. Else it counts in its kind
/// of position and its tenth, for each threshold that it reaches, and as a hit or a false alarm by
/// what is true.
pub proof fn law_calibration_grows(
    c: Calibration,
    d: Calibration,
    rows: Seq<CalibrationRow>,
    r: CalibrationRow,
    t: int,
    b: int,
)
    requires
        calibration_is(c, rows),
        calibration_is(d, rows.push(r)),
        0 <= t < 7,
        0 <= b < 10,
    ensures
        d.rows@[0] == c.rows@[0] + once(r.allows_mate is Some && r.danger),
        d.rows@[1] == c.rows@[1] + once(r.allows_mate is Some && !r.danger),
        d.positives@[0] == c.positives@[0] + once(r.allows_mate == Some(true) && r.danger),
        d.positives@[1] == c.positives@[1] + once(r.allows_mate == Some(true) && !r.danger),
        d.danger_bins@[b].0 == c.danger_bins@[b].0 + once(
            r.allows_mate is Some && r.danger && r.bin == b,
        ),
        d.control_bins@[b].0 == c.control_bins@[b].0 + once(
            r.allows_mate is Some && !r.danger && r.bin == b,
        ),
        d.danger_bins@[b].1 == c.danger_bins@[b].1 + once(
            r.allows_mate == Some(true) && r.danger && r.bin == b,
        ),
        d.control_bins@[b].1 == c.control_bins@[b].1 + once(
            r.allows_mate == Some(true) && !r.danger && r.bin == b,
        ),
        d.predicted@[t] == c.predicted@[t] + once(r.allows_mate is Some && r.reaches@[t]),
        d.hits@[t] == c.hits@[t] + once(r.allows_mate == Some(true) && r.reaches@[t]),
        d.false_alarms@[t] == c.false_alarms@[t] + once(
            r.allows_mate == Some(false) && !r.danger && r.reaches@[t],
        ),
        d.negatives == c.negatives + once(r.allows_mate == Some(false) && !r.danger),
{
    let more = rows.push(r);
    lemma_filter_push(rows, r, |r: CalibrationRow| crate::mate_report::labelled(r, true));
    lemma_filter_push(rows, r, |r: CalibrationRow| crate::mate_report::labelled(r, false));
    lemma_filter_push(rows, r, |r: CalibrationRow| crate::mate_report::positive(r) && r.danger);
    lemma_filter_push(rows, r, |r: CalibrationRow| crate::mate_report::positive(r) && !r.danger);
    lemma_filter_push(rows, r, |r: CalibrationRow| crate::mate_report::in_bin(r, true, b));
    lemma_filter_push(rows, r, |r: CalibrationRow| crate::mate_report::in_bin(r, false, b));
    lemma_filter_push(
        rows,
        r,
        |r: CalibrationRow| crate::mate_report::in_bin(r, true, b) && crate::mate_report::positive(r),
    );
    lemma_filter_push(
        rows,
        r,
        |r: CalibrationRow| crate::mate_report::in_bin(r, false, b) && crate::mate_report::positive(r),
    );
    lemma_filter_push(rows, r, |r: CalibrationRow| r.allows_mate is Some && r.reaches@[t]);
    lemma_filter_push(rows, r, |r: CalibrationRow| crate::mate_report::positive(r) && r.reaches@[t]);
    lemma_filter_push(
        rows,
        r,
        |r: CalibrationRow| crate::mate_report::control_negative(r) && r.reaches@[t],
    );
    lemma_filter_push(rows, r, |r: CalibrationRow| crate::mate_report::control_negative(r));
    assert(c.predicted@[t] == rows.filter(|r: CalibrationRow| r.allows_mate is Some && r.reaches@[t]).len());
    assert(d.predicted@[t] == more.filter(|r: CalibrationRow| r.allows_mate is Some && r.reaches@[t]).len());
    assert(c.hits@[t] == rows.filter(
        |r: CalibrationRow| crate::mate_report::positive(r) && r.reaches@[t],
    ).len());
    assert(d.hits@[t] == more.filter(
        |r: CalibrationRow| crate::mate_report::positive(r) && r.reaches@[t],
    ).len());
    assert(c.false_alarms@[t] == rows.filter(
        |r: CalibrationRow| crate::mate_report::control_negative(r) && r.reaches@[t],
    ).len());
    assert(d.false_alarms@[t] == more.filter(
        |r: CalibrationRow| crate::mate_report::control_negative(r) && r.reaches@[t],
    ).len());
    assert(c.danger_bins@[b].0 <= rows.len() && d.danger_bins@[b].0 <= more.len() + 1);
    assert(c.control_bins@[b].0 <= rows.len() + 1 && d.control_bins@[b].0 <= more.len() + 1);
}

/// The text wanted is one of the list, and none of the list comes before it; without a list it is empty.
pub proof fn law_least_text(list: Seq<String>, k: int)
    ensures
        list.len() == 0 ==> least_text(list).len() == 0,
        list.len() > 0 ==> is_in(list, least_text(list)),
        0 <= k < list.len() ==> !comes_before(list[k]@, least_text(list)),
{
    if list.len() > 0 {
        let n = list.len() as int;
        lemma_first_text(list, n, if 0 <= k < n {
            k
        } else {
            0
        });
        assert(list[first_text(list, n)]@ == least_text(list));
    }
}

proof fn lemma_first_text(list: Seq<String>, n: int, k: int)
    requires
        0 <= k < n <= list.len(),
    ensures
        0 <= first_text(list, n) < n,
        !comes_before(list[k]@, list[first_text(list, n)]@),
    decreases n,
{
    if n > 1 {
        let best = first_text(list, n - 1);
        let now = first_text(list, n);
        lemma_first_text(list, n - 1, if k < n - 1 {
            k
        } else {
            0
        });
        lemma_one_comes_first(list[n - 1]@, list[best]@);
        lemma_one_comes_first(list[n - 1]@, list[n - 1]@);
        if comes_before(list[n - 1]@, list[best]@) {
            lemma_one_comes_first(list[n - 1]@, list[best]@);
            if k < n - 1 {
                lemma_not_before_chain(list[n - 1]@, list[best]@, list[k]@);
            }
        }
    } else {
        lemma_one_comes_first(list[0]@, list[0]@);
    }
}

/// Only a game lost by fouls or by mate has a word for its end in such a score.
pub proof fn law_scenario_endings(reason: Seq<char>)
    ensures
        scenario_ending_of(reason) == Some("反則負け"@) <==> reason == "foul_limit"@,
        scenario_ending_of(reason) == Some("詰み"@) <==> reason == "checkmate"@,
{
    reveal_strlit("反則負け");
    reveal_strlit("詰み");
    reveal_strlit("foul_limit");
    reveal_strlit("checkmate");
    assert("反則負け"@.len() == 4);
    assert("詰み"@.len() == 2);
    assert("foul_limit"@.len() == 10);
    assert("checkmate"@.len() == 9);
}

/// One field more is put behind a comma; the first field has none before it.
pub proof fn law_with_commas(fields: Seq<Seq<char>>, n: int)
    requires
        0 < n < fields.len(),
    ensures
        with_commas(fields, 1) == fields[0],
        with_commas(fields, n + 1) == with_commas(fields, n) + seq![','] + fields[n],
{
    reveal_strlit(",");
    assert(","@ =~= seq![',']);
}

/// Turning the board twice leaves it as it was; turned once, the sides' far corners change places.
pub proof fn law_turned(c: Coord)
    requires
        crate::board::is_on_board(c),
    ensures
        turned(turned(c, true), true) == c,
        turned(c, false) == c,
        turned(c, true).file + c.file == 10 && turned(c, true).rank + c.rank == 10,
{
}

/// A decision is a problem where it is late enough, the opponent's king is in sight, and it is not in
/// check already.
pub proof fn law_problems(name: Seq<char>, skip: u32, d: DecisionModel)
    ensures
        mined_at(name, skip, d) is Some <==> d.plies >= skip && king_of(d.pos, other_color(d.side)) is Some
            && !checked(d.pos, other_color(d.side)),
        mined_at(name, skip, d) matches Some(m) ==> name.is_prefix_of(m.game) && name.is_prefix_of(m.origin),
{
    if let Some(m) = mined_at(name, skip, d) {
        assert(m.game =~= name + ("/"@ + (if d.side == Color::Sente {
            "sente"@
        } else {
            "gote"@
        })));
        assert(m.origin =~= name + ("#"@ + crate::text::decimal(d.plies as nat)));
    }
}

/// A signature is fresh where neither an earlier run nor an earlier place has it.
pub proof fn law_fresh(seen: Set<Seq<char>>, signatures: Seq<Seq<char>>, i: int, j: int)
    requires
        0 <= i < signatures.len(),
        0 <= j < i,
    ensures
        is_fresh(seen, signatures, i) ==> signatures[j] != signatures[i] && !seen.contains(signatures[i]),
        !seen.contains(signatures[i]) && (forall|k: int|
            0 <= k < i ==> #[trigger] signatures[k] != signatures[i]) ==> is_fresh(seen, signatures, i),
{
    let head = signatures.take(i);
    assert(head[j] == signatures[j]);
    if head.contains(signatures[i]) {
        let k = choose|k: int| 0 <= k < head.len() && head[k] == signatures[i];
        assert(signatures[k] == signatures[i]);
    }
}

/// The first problems of a game are taken, up to the limit; without a limit all are.
pub proof fn law_taken(max: usize, games: Seq<Seq<char>>, i: int, game: Seq<char>)
    requires
        0 <= i < games.len(),
    ensures
        is_taken(0, games, i),
        max > 0 ==> (is_taken(max, games, i) <==> occurrences(games, games[i], i) < max),
        occurrences(games, game, i + 1) == occurrences(games, game, i) + once(games[i] == game),
        occurrences(games, game, 0) == 0,
{
}

/// An option sets its own value and leaves the others. One that takes a number takes none but a number
/// that fits.
pub proof fn law_options(a: ArgsModel, o: Opt, value: Seq<char>)
    ensures
        with_option(a, o, value) is None ==> number_of(value) is None || number_of(value)->0 > u32::MAX,
        number_of(value) is None ==> (with_option(a, o, value) is Some <==> o == Opt::Out || o == Opt::Solver
            || o == Opt::Source || o == Opt::Dump),
        with_option(a, o, value) matches Some(b) ==> {
            let n = number_of(value);
            &&& b.inputs == a.inputs && b.allow_second == a.allow_second
            &&& o == Opt::Out ==> b.out == Some(value)
            &&& o != Opt::Out ==> b.out == a.out
            &&& o == Opt::Solver ==> b.solver == Some(value)
            &&& o != Opt::Solver ==> b.solver == a.solver
            &&& o == Opt::Source ==> b.source == value
            &&& o != Opt::Source ==> b.source == a.source
            &&& o == Opt::Dump ==> b.dump_candidates == Some(value)
            &&& o != Opt::Dump ==> b.dump_candidates == a.dump_candidates
            &&& o == Opt::MinDepth ==> n is Some && b.min_depth == n->0
            &&& o != Opt::MinDepth ==> b.min_depth == a.min_depth
            &&& o == Opt::MaxDepth ==> n is Some && b.max_depth == n->0
            &&& o != Opt::MaxDepth ==> b.max_depth == a.max_depth
            &&& o == Opt::SkipPlies ==> n is Some && b.skip_plies == n->0
            &&& o != Opt::SkipPlies ==> b.skip_plies == a.skip_plies
            &&& o == Opt::Limit ==> n is Some && b.limit == n->0
            &&& o != Opt::Limit ==> b.limit == a.limit
            &&& o == Opt::MaxPerGame ==> n is Some && b.max_per_game == n->0
            &&& o != Opt::MaxPerGame ==> b.max_per_game == a.max_per_game
            &&& o == Opt::MaxCandidates ==> n is Some && b.max_candidates == n->0
            &&& o != Opt::MaxCandidates ==> b.max_candidates == a.max_candidates
            &&& o == Opt::Jobs ==> n is Some && b.jobs == n->0
            &&& o != Opt::Jobs ==> b.jobs == a.jobs
            &&& o == Opt::TimeoutSecs ==> n is Some && b.timeout_secs == n->0
            &&& o != Opt::TimeoutSecs ==> b.timeout_secs == a.timeout_secs
            &&& o == Opt::MemoryLimitMb ==> n is Some && b.memory_limit_mb == n->0
            &&& o != Opt::MemoryLimitMb ==> b.memory_limit_mb == a.memory_limit_mb
            &&& o == Opt::NodeLimit ==> n is Some && b.node_limit == n->0
            &&& o != Opt::NodeLimit ==> b.node_limit == a.node_limit
            &&& o == Opt::RatingNodeLimit ==> n is Some && b.rating_node_limit == n->0
            &&& o != Opt::RatingNodeLimit ==> b.rating_node_limit == a.rating_node_limit
        },
{
}

/// The arguments are read from left to right: an option takes the next one as its value, a switch none,
/// and anything without two dashes is an input. In the end there must be an input and a job.
pub proof fn law_arguments(args: Seq<Seq<char>>, i: int, a: ArgsModel, o: Opt)
    requires
        0 <= i < args.len(),
    ensures
        args[i] == "--allow-second"@ ==> args_from(args, i, a) == args_from(
            args,
            i + 1,
            ArgsModel { allow_second: true, ..a },
        ),
        args[i] != "--allow-second"@ && opt_of(args[i]) == Some(o) && i + 1 == args.len() ==> args_from(
            args,
            i,
            a,
        ) == Err::<ArgsModel, FaultModel>(FaultModel::Missing(o)),
        args[i] != "--allow-second"@ && opt_of(args[i]) == Some(o) && i + 1 < args.len() ==> args_from(
            args,
            i,
            a,
        ) == (match with_option(a, o, args[i + 1]) {
            Some(b) => args_from(args, i + 2, b),
            None => Err::<ArgsModel, FaultModel>(FaultModel::NoNumber(o)),
        }),
        args[i] != "--allow-second"@ && opt_of(args[i]) is None && !"--"@.is_prefix_of(args[i])
            ==> args_from(args, i, a) == args_from(
            args,
            i + 1,
            ArgsModel { inputs: a.inputs.push(args[i]), ..a },
        ),
        args[i] != "--allow-second"@ && opt_of(args[i]) is None && "--"@.is_prefix_of(args[i])
            ==> args_from(args, i, a) == Err::<ArgsModel, FaultModel>(FaultModel::Unknown(args[i])),
        args_from(args, args.len() as int, a) is Ok <==> a.inputs.len() > 0 && a.jobs > 0,
        args_from(args, args.len() as int, a) matches Ok(b) ==> b == a,
{
    reveal_strlit("--");
    assert("--"@.len() == 2);
    if "--"@.is_prefix_of(args[i]) {
        assert(args[i].take(2) =~= "--"@);
        assert(args[i].subrange(0, 2) =~= "--"@);
    }
}

/// Every option has a name of its own.
pub proof fn law_option_names(name: Seq<char>)
    ensures
        opt_of("--out"@) == Some(Opt::Out),
        opt_of("--solver"@) == Some(Opt::Solver),
        opt_of("--source"@) == Some(Opt::Source),
        opt_of("--dump-candidates"@) == Some(Opt::Dump),
        opt_of("--min-depth"@) == Some(Opt::MinDepth),
        opt_of("--max-depth"@) == Some(Opt::MaxDepth),
        opt_of("--skip-plies"@) == Some(Opt::SkipPlies),
        opt_of("--limit"@) == Some(Opt::Limit),
        opt_of("--max-per-game"@) == Some(Opt::MaxPerGame),
        opt_of("--max-candidates"@) == Some(Opt::MaxCandidates),
        opt_of("--jobs"@) == Some(Opt::Jobs),
        opt_of("--timeout-secs"@) == Some(Opt::TimeoutSecs),
        opt_of("--memory-limit-mb"@) == Some(Opt::MemoryLimitMb),
        opt_of("--node-limit"@) == Some(Opt::NodeLimit),
        opt_of("--rating-node-limit"@) == Some(Opt::RatingNodeLimit),
        opt_of(name) matches Some(o) ==> name.len() >= 5 && name[0] == '-' && name[1] == '-',
{
    reveal_strlit("--out");
    assert("--out"@.len() == 5 && "--out"@[3] == 'u');
    reveal_strlit("--solver");
    assert("--solver"@.len() == 8 && "--solver"@[4] == 'l');
    reveal_strlit("--source");
    assert("--source"@.len() == 8 && "--source"@[4] == 'u');
    reveal_strlit("--dump-candidates");
    assert("--dump-candidates"@.len() == 17 && "--dump-candidates"@[3] == 'u');
    reveal_strlit("--min-depth");
    assert("--min-depth"@.len() == 11 && "--min-depth"@[3] == 'i');
    reveal_strlit("--max-depth");
    assert("--max-depth"@.len() == 11 && "--max-depth"@[3] == 'a');
    reveal_strlit("--skip-plies");
    assert("--skip-plies"@.len() == 12 && "--skip-plies"@[3] == 'k');
    reveal_strlit("--limit");
    assert("--limit"@.len() == 7 && "--limit"@[3] == 'i');
    reveal_strlit("--max-per-game");
    assert("--max-per-game"@.len() == 14 && "--max-per-game"@[3] == 'a');
    reveal_strlit("--max-candidates");
    assert("--max-candidates"@.len() == 16 && "--max-candidates"@[3] == 'a');
    reveal_strlit("--jobs");
    assert("--jobs"@.len() == 6 && "--jobs"@[3] == 'o');
    reveal_strlit("--timeout-secs");
    assert("--timeout-secs"@.len() == 14 && "--timeout-secs"@[3] == 'i');
    reveal_strlit("--memory-limit-mb");
    assert("--memory-limit-mb"@.len() == 17 && "--memory-limit-mb"@[3] == 'e');
    reveal_strlit("--node-limit");
    assert("--node-limit"@.len() == 12 && "--node-limit"@[3] == 'o');
    reveal_strlit("--rating-node-limit");
    assert("--rating-node-limit"@.len() == 19 && "--rating-node-limit"@[3] == 'a');
}

/// What holds where nothing is said: mates in three to fifteen moves, behind the twentieth move, one of a
/// game, one job, a minute and the limits of the solver.
pub proof fn law_defaults(solver: Option<Seq<char>>)
    ensures
        ({
            let d = default_args(solver);
            &&& d.inputs.len() == 0 && d.out is None && d.solver == solver && d.dump_candidates is None
            &&& d.source == "selfplay"@ && !d.allow_second
            &&& d.min_depth == 3 && d.max_depth == 15 && d.skip_plies == 20
            &&& d.limit == 0 && d.max_per_game == 1 && d.max_candidates == 0 && d.jobs == 1
            &&& d.timeout_secs == 60 && d.memory_limit_mb == 2000
            &&& d.node_limit == 20_000_000 && d.rating_node_limit == 200_000
        }),
{
}

/// A problem with a mate of some length is good enough where the length is within the bounds, it is the only
/// one or others are allowed, and its strength is known; without a mate it never is.
pub proof fn law_good_problems(standard: Standard, verdict: Verdict, depth: u64)
    ensures
        !verdict.found || verdict.depth is None || !verdict.rated ==> !meets(standard, verdict),
        verdict.found && verdict.depth == Some(depth) && verdict.rated ==> (meets(standard, verdict) <==> depth
            >= standard.min_depth && depth <= standard.max_depth && (verdict.second
            ==> standard.allow_second)),
{
}

/// Where all parts are there, each of them is: their numbers are those below the total, none missing.
pub proof fn law_no_part_is_missing(parts: Seq<(usize, usize)>, a: usize)
    requires
        all_parts(parts),
        parts.len() > 0,
        forall|i: int| 0 <= i < parts.len() ==> (#[trigger] parts[i]).0 < parts[i].1,
        a < parts[0].1,
    ensures
        exists|i: int| 0 <= i < parts.len() && (#[trigger] parts[i]).0 == a && parts[i].1 == parts[0].1,
{
    let n = parts[0].1;
    let firsts = parts.map_values(|p: (usize, usize)| p.0);
    let have = firsts.to_set();
    if !firsts.contains(a) {
        let all = Set::new(|x: usize| x < n);
        lemma_below(n);
        assert forall|x: usize| have.contains(x) implies all.remove(a).contains(x) by {
            let k = choose|k: int| 0 <= k < firsts.len() && firsts[k] == x;
            assert(parts[k].0 < parts[k].1);
            assert(firsts[k] != a) by {
                if firsts[k] == a {
                    assert(firsts.contains(a));
                }
            }
        }
        vstd::set_lib::lemma_len_subset(have, all.remove(a));
    } else {
        let k = choose|k: int| 0 <= k < firsts.len() && firsts[k] == a;
        assert(parts[k].0 == a);
    }
}

proof fn lemma_below(n: usize)
    ensures
        Set::new(|x: usize| x < n).finite(),
        Set::new(|x: usize| x < n).len() == n,
    decreases n,
{
    let s = Set::new(|x: usize| x < n);
    if n == 0 {
        assert(s =~= Set::empty());
    } else {
        let m = (n - 1) as usize;
        lemma_below(m);
        assert(s =~= Set::new(|x: usize| x < m).insert(m));
    }
}

/// Without a word of parts there is one; else the first head tells how many there are.
pub proof fn law_part_totals(parts: Seq<(usize, usize)>)
    ensures
        parts.len() == 0 ==> part_total(parts) == 1,
        parts.len() > 0 ==> part_total(parts) == parts[0].1,
        all_parts(parts) && parts.len() > 0 ==> parts.last().1 == parts[0].1,
{
}

/// The best by the seeds before the middle one is tried on the others: no move has a better mean before
/// it, and what is reported is the mean of that move from it on.
pub proof fn law_honest_gain(
    rows: Seq<RowModel>,
    game: Seq<char>,
    moves: Seq<String>,
    seeds: Seq<u64>,
    oracle: Share,
    honest: Option<Share>,
) -> (m: int)
    requires
        oracle_is(rows, game, moves, seeds, oracle, honest),
    ensures
        honest is Some <==> seeds.len() >= 2,
        honest matches Some(s) ==> {
            let half = seeds[seeds.len() as int / 2];
            &&& 0 <= m < moves.len()
            &&& s == part_share(rows, game, "oracle"@, Part::From(moves[m], half))
            &&& forall|k: int|
                0 <= k < moves.len() ==> !mean_below(
                    part_share(rows, game, "oracle"@, Part::Before(moves[m], half)),
                    part_share(rows, game, "oracle"@, Part::Before(#[trigger] moves[k], half)),
                )
        },
        forall|k: int|
            0 <= k < moves.len() ==> !mean_below(
                oracle,
                part_share(rows, game, "oracle"@, Part::Move(#[trigger] moves[k])),
            ),
{
    if honest is Some {
        let half = seeds[seeds.len() as int / 2];
        choose|m: int|
            #[trigger] is_trained_best(rows, game, "oracle"@, moves, half, m) && honest->0 == part_share(
                rows,
                game,
                "oracle"@,
                Part::From(moves[m], half),
            )
    } else {
        0
    }
}

/// A line of the table says of a candidate whether it is safe, whether it was played and whether it was
/// chosen, and of the point whether it is one of danger; what is not known is left empty.
pub proof fn law_table_lines(p: MatePoint, seed: u64, chosen: Seq<char>, r: MateLine)
    requires
        r.scores@.len() == 5,
        r.masses@.len() == 4,
    ensures
        ({
            let f = fields(p, seed, chosen, r);
            let flagged = |t: Seq<char>, b: bool| t == (if b {
                "1"@
            } else {
                "0"@
            });
            &&& f.len() == 23
            &&& f[0] == p.game@ && f[4] == r.usi@
            &&& number_of(f[1]) == number_of(crate::text::decimal((p.ply + 1) as nat))
            &&& flagged(f[2], p.danger)
            &&& f[6] == r.scores@[0]@ && f[10] == r.scores@[4]@
            &&& flagged(f[11], r.depth2)
            &&& f[12] == r.masses@[0]@ && f[15] == r.masses@[3]@
            &&& flagged(f[16], r.truth_legal)
            &&& r.allows_mate is None ==> f[17].len() == 0
            &&& r.allows_mate is Some ==> flagged(f[17], r.allows_mate->0)
            &&& r.kind is None ==> f[18].len() == 0
            &&& flagged(
                f[20],
                exists|i: int| 0 <= i < p.safe@.len() && (#[trigger] p.safe@[i])@ == r.usi@,
            )
            &&& flagged(f[21], r.usi@ == p.played@)
            &&& flagged(f[22], r.usi@ == chosen)
        }),
{
}

/// The heading of a point begins as that of a scenario: the same number of moves, the text wanted, and the
/// description on one line.
pub proof fn law_headings(p: MatePoint)
    ensures
        scenario_header(p.ply as nat, least_text(p.safe@), description(p)).is_prefix_of(heading(p)),
        p.game@.is_prefix_of(description(p)),
{
    let line = scenario_header(p.ply as nat, least_text(p.safe@), description(p));
    assert(on_one_line(description(p)) =~= one_line(description(p)));
    assert(heading(p) =~= line + heading(p).skip(line.len() as int));
    let d = description(p);
    assert(d =~= p.game@ + d.skip(p.game@.len() as int));
}

/// A promoted role is named by its first role, with a word before it.
pub proof fn law_promoted_names(role: Role)
    ensures
        promoted(role) matches Some(up) ==> kind_text(up) == "promoted_"@ + kind_text(role),
        kind_text(Role::King) == "king"@ && kind_text(Role::Gold) == "gold"@,
        kind_text(Role::Rook) == "rook"@ && kind_text(Role::Bishop) == "bishop"@,
        kind_text(Role::Silver) == "silver"@ && kind_text(Role::Knight) == "knight"@,
        kind_text(Role::Lance) == "lance"@ && kind_text(Role::Pawn) == "pawn"@,
{
    reveal_strlit("promoted_");
    reveal_strlit("promoted_rook");
    reveal_strlit("promoted_bishop");
    reveal_strlit("promoted_silver");
    reveal_strlit("promoted_knight");
    reveal_strlit("promoted_lance");
    reveal_strlit("promoted_pawn");
    reveal_strlit("rook");
    reveal_strlit("bishop");
    reveal_strlit("silver");
    reveal_strlit("knight");
    reveal_strlit("lance");
    reveal_strlit("pawn");
    if let Some(up) = promoted(role) {
        assert(kind_text(up) =~= "promoted_"@ + kind_text(role));
    }
}

} // verus!
