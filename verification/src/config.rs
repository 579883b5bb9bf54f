//! The boundary of the settings. The values that steer the strength of a strategy are read once, at
//! the edge of the program; from there on only the resolved settings are looked at, so that two
//! strategies of one process can be set differently.

use crate::digest::{head_hex, hex_of, is_hex_text, lemma_hex_text, sha256, sha256_of};
use crate::text::{
    append_decimal, before, comes_before, decimal, lemma_comes_before_chain, lemma_one_comes_first,
    number_of, parse_number, same_text,
};
use vstd::prelude::*;
use vstd::string::*;
use vstd::utf8::encode_utf8;

verus! {

/// The time for a move where nothing else is set.
pub const DEFAULT_THINK_BUDGET_MS: u64 = 2000;

/// The names of all values that steer the strength of a strategy, in order.
pub const STRATEGY_ENV_KEYS: [&'static str; 150] = [
    "TSUITATE_ANCHOR_MOVE_W",
    "TSUITATE_BELIEF_GAIN_W",
    "TSUITATE_BELIEF_GUIDE_W",
    "TSUITATE_BELIEF_LIVE_W",
    "TSUITATE_BELIEF_OCC_CAP_W",
    "TSUITATE_BELIEF_SPAN",
    "TSUITATE_BISHOP_RETREAT_W",
    "TSUITATE_BLIND_ATTACK_SURVIVE_W",
    "TSUITATE_BLIND_HOME_DROP_OCC_W",
    "TSUITATE_BLIND_HOME_FLOOR",
    "TSUITATE_BLIND_HOME_LAMBDA",
    "TSUITATE_BLIND_HOME_RISK_W",
    "TSUITATE_BLIND_RECAPTURE_W",
    "TSUITATE_BOARD_DISCOUNT_W",
    "TSUITATE_CAND_THINK_BUDGET_MS",
    "TSUITATE_CAPTURE_BET_VAR_W",
    "TSUITATE_CAPTURE_PRIOR_LAMBDA",
    "TSUITATE_CAPTURE_RETREAT_W",
    "TSUITATE_CHECKER_REMOVAL_W",
    "TSUITATE_CHECK_BELIEF_OCC_W",
    "TSUITATE_CHECK_CAPTURE_BOOST",
    "TSUITATE_CHECK_CAPTURE_PRUNE",
    "TSUITATE_CHECK_DROP_EXPLAIN_W",
    "TSUITATE_CHECK_DROP_TARGET",
    "TSUITATE_CHECK_ESCAPE_DECAY",
    "TSUITATE_CHECK_FOUL_EVIDENCE",
    "TSUITATE_CHECK_FOUL_PRIOR_BOOST",
    "TSUITATE_CHECK_HYP_PRIOR",
    "TSUITATE_CHECK_KING_COVER_CAP",
    "TSUITATE_CHECK_KING_GAIN_MEAN",
    "TSUITATE_CHECK_KING_PRIOR_W",
    "TSUITATE_CHECK_KNOWN_UNACC",
    "TSUITATE_CHECK_SAFE_RESOLVE",
    "TSUITATE_CHECK_STRENGTH_W",
    "TSUITATE_CHECK_WALKIN_DISCOUNT",
    "TSUITATE_DEBUG_CHECK",
    "TSUITATE_DEBUG_REJUV",
    "TSUITATE_DEBUG_REJUV_SQ",
    "TSUITATE_DEFENDER_CAPTURE_W",
    "TSUITATE_DEPTH2_FOCAL_K",
    "TSUITATE_DEPTH2_OPTIMISM_CAP",
    "TSUITATE_DISABLE_DEFEND_GUIDE",
    "TSUITATE_DROP_HIT_ALL_RANKS",
    "TSUITATE_DROP_HIT_EVAC_W",
    "TSUITATE_DROP_PROBE_REPEAT_GATE",
    "TSUITATE_DROP_PROBE_W",
    "TSUITATE_EFFECT_OPP_W",
    "TSUITATE_EFFECT_OWN_W",
    "TSUITATE_ENABLE_HANG_RISK",
    "TSUITATE_ENDGAME_CAMP_GENERAL_W",
    "TSUITATE_EPS_PHYS",
    "TSUITATE_ESCAPE_COVER_W",
    "TSUITATE_EVAL_TAINT_ATTACK",
    "TSUITATE_EVAL_TAINT_FALLBACK",
    "TSUITATE_EVAL_WEIGHT_CAP",
    "TSUITATE_EXPOSED_KNOWN",
    "TSUITATE_EXPOSED_MULTI_W",
    "TSUITATE_EXPOSED_PAWN_HEAD_W",
    "TSUITATE_FAR_MAJOR_PROMO_CAPTURE_W",
    "TSUITATE_FILTER_DEBUG",
    "TSUITATE_FOUL_OCC_ATTACK_W",
    "TSUITATE_GEN_NONPROMOTE",
    "TSUITATE_GOLD_JOIN_KING_W",
    "TSUITATE_GOLD_KING_FILE_W",
    "TSUITATE_HAND_ASSET_W",
    "TSUITATE_HAND_OPTION_W",
    "TSUITATE_HOME_GOLD_ATTACK_W",
    "TSUITATE_JOSEKI",
    "TSUITATE_KING_ADJ_ENTRY_W",
    "TSUITATE_KING_ADJ_HEAVY_W",
    "TSUITATE_KING_BELIEF_PROX_W",
    "TSUITATE_KING_CAND_ATTACK_BLIND",
    "TSUITATE_KING_CAND_ATTACK_GATE",
    "TSUITATE_KING_CAND_ATTACK_W",
    "TSUITATE_KING_CAND_CHECK_W",
    "TSUITATE_KING_CAPTURE_REVEAL",
    "TSUITATE_KING_ENDGAME_FLEE_W",
    "TSUITATE_KING_FILE_GOLD_W",
    "TSUITATE_KING_FILE_PAWN_MID_W",
    "TSUITATE_KING_FILE_PAWN_W",
    "TSUITATE_KING_HOLE_W",
    "TSUITATE_KING_KNOWN_APPROACH_W",
    "TSUITATE_KING_NET_PROJ",
    "TSUITATE_KING_NET_W",
    "TSUITATE_KING_PROBE_W",
    "TSUITATE_KING_PROX_EXCLUDE_SELF",
    "TSUITATE_KING_REPEAT_FOUL_W",
    "TSUITATE_KING_SENSOR_W",
    "TSUITATE_KNIGHT_CAMP_EXIT_W",
    "TSUITATE_KNIGHT_ENDGAME_PROMO_W",
    "TSUITATE_KNIGHT_LATE_PROMO_W",
    "TSUITATE_LANDING_SUPPORT_W",
    "TSUITATE_LAST_FOUL_GUARD",
    "TSUITATE_LAST_FOUL_GUARD_2",
    "TSUITATE_LAST_FOUL_GUARD_3",
    "TSUITATE_LINK_ENDGAME_DAMPEN",
    "TSUITATE_LINK_W",
    "TSUITATE_LINK_WORK_REF",
    "TSUITATE_LINK_WORK_W",
    "TSUITATE_MAJOR_PROMO_PATH_W",
    "TSUITATE_MATERIAL_DEGEN_Q0",
    "TSUITATE_MATE_GATE_Q0",
    "TSUITATE_MATE_RISK_W",
    "TSUITATE_MATE_THREAT_W",
    "TSUITATE_MOVER_CHECK_EXTRA",
    "TSUITATE_MUT_RESCUE",
    "TSUITATE_NONPROMOTE_CHECK_P",
    "TSUITATE_NONPROMOTE_CHECK_ROLES",
    "TSUITATE_NONPROMOTE_CHECK_W",
    "TSUITATE_OPP_CAPTURE_REVEAL_W",
    "TSUITATE_OPP_MOVE_TEMP",
    "TSUITATE_OWN_CAMP_IDLE_W",
    "TSUITATE_OWN_CAMP_MINOR_PROMO_W",
    "TSUITATE_OWN_ZONE_CAPTURE_W",
    "TSUITATE_PATH_PROBE_W",
    "TSUITATE_PAWN_OFFFILE_W",
    "TSUITATE_PLAN_W",
    "TSUITATE_PROBE_ANCHOR_DECAY",
    "TSUITATE_PROBE_AUDIT",
    "TSUITATE_PROBE_THREAT_W",
    "TSUITATE_PROMOTE_BIAS",
    "TSUITATE_PROMOTE_CHECK_REVEAL_W",
    "TSUITATE_PROMOTE_FAR_ALL",
    "TSUITATE_PROMOTE_FAR_W",
    "TSUITATE_PROMO_DECAY",
    "TSUITATE_PROMO_KING_PROX",
    "TSUITATE_PROMO_POTENTIAL_W",
    "TSUITATE_PROMO_REALIZED_FLOOR",
    "TSUITATE_PROMO_RISK_PREROLE",
    "TSUITATE_REGEN_KEEP_IS",
    "TSUITATE_REJUV_KEEP_CAPTURER",
    "TSUITATE_REPEAT_PENALTY_W",
    "TSUITATE_SENSOR_P_PROMO",
    "TSUITATE_SENSOR_P_PUSH",
    "TSUITATE_SHUFFLE_PENALTY",
    "TSUITATE_SILVER_CAMP_EXIT_W",
    "TSUITATE_STALE_THREAT_W",
    "TSUITATE_TAINT_KING_EMPTY",
    "TSUITATE_TAINT_KING_FIX",
    "TSUITATE_TAINT_MULTISET_REPAIR",
    "TSUITATE_TAINT_OCC_LEGAL_W",
    "TSUITATE_THINK_BUDGET_MS",
    "TSUITATE_THREAT_BY_COUNT",
    "TSUITATE_TOKIN_APPROACH_W",
    "TSUITATE_TOKIN_FILE_DRIFT_W",
    "TSUITATE_UNBACKED_CAMP_W",
    "TSUITATE_UNBACKED_GS_CAPTURE_W",
    "TSUITATE_V1_DEFENDED",
    "TSUITATE_V1_PRESSURE",
    "TSUITATE_VALUE_NN_W",
];

/// Whether a strategy looks at a value.
pub open spec fn is_strategy_key(key: Seq<char>) -> bool {
    exists|i: int| 0 <= i < 150 && #[trigger] STRATEGY_ENV_KEYS[i]@ == key
}

/// Whether a strategy looks at a value.
pub fn is_strategy_env_key(key: &str) -> (res: bool)
    ensures
        res == is_strategy_key(key@),
{
    let mut i: usize = 0;
    while i < 150
        invariant
            i <= 150,
            forall|k: int| 0 <= k < i ==> #[trigger] STRATEGY_ENV_KEYS[k]@ != key@,
        decreases 150 - i,
    {
        if same_text(STRATEGY_ENV_KEYS[i], key) {
            assert(STRATEGY_ENV_KEYS[i as int]@ == key@);
            return true;
        }
        i += 1;
    }
    false
}

/// The values among some that a strategy looks at.
pub open spec fn looked_at(source: Map<Seq<char>, Seq<char>>) -> Map<Seq<char>, Seq<char>> {
    Map::new(
        |k: Seq<char>| source.dom().contains(k) && is_strategy_key(k),
        |k: Seq<char>| source[k],
    )
}

/// The content of a list of named values.
pub open spec fn pair_texts(pairs: Seq<(String, String)>) -> Seq<(Seq<char>, Seq<char>)> {
    pairs.map_values(|p: (String, String)| (p.0@, p.1@))
}

/// A map with named values put in, one after the other: a later one takes the place of an earlier.
pub open spec fn overlaid(
    base: Map<Seq<char>, Seq<char>>,
    pairs: Seq<(Seq<char>, Seq<char>)>,
) -> Map<Seq<char>, Seq<char>>
    decreases pairs.len(),
{
    if pairs.len() == 0 {
        base
    } else {
        overlaid(base, pairs.drop_last()).insert(pairs.last().0, pairs.last().1)
    }
}

/// The named values that a strategy is set by. Each name occurs once, and the names are in order.
#[derive(Debug)]
pub struct EnvSource {
    vars: Vec<(String, String)>,
}

/// Whether the names of a list are in order, none twice.
pub open spec fn names_in_order(pairs: Seq<(String, String)>) -> bool {
    forall|i: int, j: int|
        0 <= i < j < pairs.len() ==> comes_before(
            (#[trigger] pairs[i]).0@,
            (#[trigger] pairs[j]).0@,
        )
}

/// The place of a name in a list, from a place on.
pub open spec fn place_of(pairs: Seq<(String, String)>, key: Seq<char>, i: int) -> Option<int>
    decreases pairs.len() - i,
{
    if i < 0 || i >= pairs.len() {
        None
    } else if pairs[i].0@ == key {
        Some(i)
    } else {
        place_of(pairs, key, i + 1)
    }
}

/// The map that a list of named values stands for.
pub open spec fn map_of(pairs: Seq<(String, String)>) -> Map<Seq<char>, Seq<char>> {
    Map::new(
        |k: Seq<char>| place_of(pairs, k, 0) is Some,
        |k: Seq<char>| pairs[place_of(pairs, k, 0)->0].1@,
    )
}

impl View for EnvSource {
    type V = Map<Seq<char>, Seq<char>>;

    closed spec fn view(&self) -> Map<Seq<char>, Seq<char>> {
        map_of(self.vars@)
    }
}

proof fn lemma_place(pairs: Seq<(String, String)>, key: Seq<char>, i: int, n: int)
    requires
        0 <= i <= n < pairs.len(),
        pairs[n].0@ == key,
        forall|k: int| i <= k < n ==> (#[trigger] pairs[k]).0@ != key,
    ensures
        place_of(pairs, key, i) == Some(n),
    decreases n - i,
{
    if i < n {
        assert(pairs[i].0@ != key);
        lemma_place(pairs, key, i + 1, n);
    }
}

proof fn lemma_no_place(pairs: Seq<(String, String)>, key: Seq<char>, i: int)
    requires
        0 <= i,
        forall|k: int| i <= k < pairs.len() ==> (#[trigger] pairs[k]).0@ != key,
    ensures
        place_of(pairs, key, i) is None,
    decreases pairs.len() - i,
{
    if i < pairs.len() {
        assert(pairs[i].0@ != key);
        lemma_no_place(pairs, key, i + 1);
    }
}

proof fn lemma_found(pairs: Seq<(String, String)>, key: Seq<char>, i: int)
    requires
        0 <= i,
    ensures
        match place_of(pairs, key, i) {
            Some(n) => i <= n < pairs.len() && pairs[n].0@ == key,
            None => forall|k: int| i <= k < pairs.len() ==> (#[trigger] pairs[k]).0@ != key,
        },
    decreases pairs.len() - i,
{
    if i < pairs.len() && pairs[i].0@ != key {
        lemma_found(pairs, key, i + 1);
    }
}

/// In an ordered list every name has one place.
proof fn lemma_place_unique(pairs: Seq<(String, String)>, n: int)
    requires
        names_in_order(pairs),
        0 <= n < pairs.len(),
    ensures
        place_of(pairs, pairs[n].0@, 0) == Some(n),
{
    assert forall|k: int| 0 <= k < n implies (#[trigger] pairs[k]).0@ != pairs[n].0@ by {
        lemma_one_comes_first(pairs[k].0@, pairs[n].0@);
    }
    lemma_place(pairs, pairs[n].0@, 0, n);
}

/// Changing the value of a name.
proof fn lemma_replaced(pairs: Seq<(String, String)>, n: int, entry: (String, String))
    requires
        names_in_order(pairs),
        0 <= n < pairs.len(),
        pairs[n].0@ == entry.0@,
    ensures
        names_in_order(pairs.update(n, entry)),
        map_of(pairs.update(n, entry)) == map_of(pairs).insert(entry.0@, entry.1@),
{
    let after = pairs.update(n, entry);
    assert(names_in_order(after)) by {
        assert forall|i: int, j: int| 0 <= i < j < after.len() implies comes_before(
            (#[trigger] after[i]).0@,
            (#[trigger] after[j]).0@,
        ) by {
            assert(after[i].0@ == pairs[i].0@);
            assert(after[j].0@ == pairs[j].0@);
            assert(comes_before(pairs[i].0@, pairs[j].0@));
        }
    }
    lemma_place_unique(pairs, n);
    lemma_place_unique(after, n);
    assert forall|k: Seq<char>| place_of(after, k, 0) == place_of(pairs, k, 0) by {
        lemma_found(pairs, k, 0);
        match place_of(pairs, k, 0) {
            Some(i) => {
                assert(after[i].0@ == k);
                lemma_place_unique(after, i);
            },
            None => {
                assert forall|i: int| 0 <= i < after.len() implies (#[trigger] after[i]).0@ != k by {
                    assert(pairs[i].0@ != k);
                }
                lemma_no_place(after, k, 0);
            },
        }
    }
    assert forall|k: Seq<char>| #[trigger] map_of(pairs).dom().contains(k) && k
        != entry.0@ implies map_of(after)[k] == map_of(pairs)[k] by {
        lemma_found(pairs, k, 0);
    }
    assert(map_of(after) =~= map_of(pairs).insert(entry.0@, entry.1@));
}

/// Putting in a new name.
proof fn lemma_inserted(pairs: Seq<(String, String)>, n: int, entry: (String, String))
    requires
        names_in_order(pairs),
        0 <= n <= pairs.len(),
        forall|i: int| 0 <= i < n ==> comes_before((#[trigger] pairs[i]).0@, entry.0@),
        forall|i: int| n <= i < pairs.len() ==> comes_before(entry.0@, (#[trigger] pairs[i]).0@),
    ensures
        names_in_order(pairs.insert(n, entry)),
        map_of(pairs.insert(n, entry)) == map_of(pairs).insert(entry.0@, entry.1@),
{
    let after = pairs.insert(n, entry);
    assert(names_in_order(after)) by {
        assert forall|i: int, j: int| 0 <= i < j < after.len() implies comes_before(
            (#[trigger] after[i]).0@,
            (#[trigger] after[j]).0@,
        ) by {
            let p = if i < n { pairs[i] } else if i == n { entry } else { pairs[i - 1] };
            let q = if j < n { pairs[j] } else if j == n { entry } else { pairs[j - 1] };
            assert(after[i] == p);
            assert(after[j] == q);
            if i != n && j != n {
                let a = if i < n { i } else { i - 1 };
                let b = if j < n { j } else { j - 1 };
                assert(comes_before(pairs[a].0@, pairs[b].0@));
            }
        }
    }
    lemma_place_unique(after, n);
    assert(after[n] == entry);
    assert forall|k: Seq<char>|
        #![trigger place_of(pairs, k, 0)]
        #![trigger place_of(after, k, 0)]
        k != entry.0@ implies match place_of(pairs, k, 0) {
        Some(i) => place_of(after, k, 0) == Some(if i < n { i } else { i + 1 }),
        None => place_of(after, k, 0) is None,
    } by {
        lemma_found(pairs, k, 0);
        match place_of(pairs, k, 0) {
            Some(i) => {
                let j = if i < n { i } else { i + 1 };
                assert(after[j] == pairs[i]);
                lemma_place_unique(after, j);
            },
            None => {
                assert forall|j: int| 0 <= j < after.len() implies (#[trigger] after[j]).0@ != k by {
                    if j < n {
                        assert(pairs[j].0@ != k);
                    } else if j > n {
                        assert(after[j] == pairs[j - 1]);
                        assert(pairs[j - 1].0@ != k);
                    }
                }
                lemma_no_place(after, k, 0);
            },
        }
    }
    assert forall|k: Seq<char>| #[trigger] map_of(pairs).dom().contains(k) && k
        != entry.0@ implies map_of(after)[k] == map_of(pairs)[k] by {
        lemma_found(pairs, k, 0);
        let i = place_of(pairs, k, 0)->0;
        let j = if i < n { i } else { i + 1 };
        assert(after[j] == pairs[i]);
    }
    assert(map_of(after) =~= map_of(pairs).insert(entry.0@, entry.1@));
}

impl EnvSource {
    /// Whether the names are in order.
    pub closed spec fn wf(&self) -> bool {
        names_in_order(self.vars@)
    }

    /// The values by their place.
    pub closed spec fn list(&self) -> Seq<(String, String)> {
        self.vars@
    }

    /// No values: everything is left at its default.
    pub fn empty() -> (res: EnvSource)
        ensures
            res.wf(),
            res@ == Map::<Seq<char>, Seq<char>>::empty(),
    {
        let res = EnvSource { vars: Vec::new() };
        proof {
            assert forall|k: Seq<char>| place_of(res.vars@, k, 0) is None by {
                lemma_no_place(res.vars@, k, 0);
            }
            assert(map_of(res.vars@) =~= Map::<Seq<char>, Seq<char>>::empty());
        }
        res
    }

    /// Puts a value in.
    fn put(&mut self, key: String, value: String)
        requires
            old(self).wf(),
        ensures
            final(self).wf(),
            final(self)@ == old(self)@.insert(key@, value@),
    {
        let ghost start = self.vars@;
        let mut i: usize = 0;
        while i < self.vars.len()
            invariant
                self.vars@ == start,
                names_in_order(start),
                i <= start.len(),
                forall|k: int| 0 <= k < i ==> comes_before((#[trigger] start[k]).0@, key@),
                *old(self) == *self,
                map_of(start) == old(self)@,
            decreases start.len() - i,
        {
            if self.vars[i].0 == key {
                let entry = (key, value);
                proof {
                    lemma_replaced(start, i as int, entry);
                }
                self.vars.set(i, entry);
                return;
            }
            if !before(self.vars[i].0.as_str(), key.as_str()) {
                let entry = (key, value);
                proof {
                    lemma_one_comes_first(start[i as int].0@, entry.0@);
                    assert forall|k: int| i <= k < start.len() implies comes_before(
                        entry.0@,
                        (#[trigger] start[k]).0@,
                    ) by {
                        if k > i {
                            assert(comes_before(start[i as int].0@, start[k].0@));
                            lemma_comes_before_chain(entry.0@, start[i as int].0@, start[k].0@);
                        }
                    }
                    lemma_inserted(start, i as int, entry);
                }
                self.vars.insert(i, entry);
                return;
            }
            i += 1;
        }
        let entry = (key, value);
        proof {
            lemma_inserted(start, i as int, entry);
            assert(start.insert(i as int, entry) =~= start.push(entry));
        }
        self.vars.push(entry);
    }

    /// The values of a list; of two with one name the later counts.
    pub fn from_pairs(pairs: &Vec<(String, String)>) -> (res: EnvSource)
        ensures
            res.wf(),
            res@ == overlaid(Map::empty(), pair_texts(pairs@)),
    {
        EnvSource::empty().with_overrides(pairs)
    }

    /// The value of a name.
    pub fn var(&self, key: &str) -> (res: Option<String>)
        ensures
            match res {
                Some(v) => self@.dom().contains(key@) && v@ == self@[key@],
                None => !self@.dom().contains(key@),
            },
    {
        let mut i: usize = 0;
        while i < self.vars.len()
            invariant
                i <= self.vars@.len(),
                place_of(self.vars@, key@, 0) == place_of(self.vars@, key@, i as int),
            decreases self.vars@.len() - i,
        {
            if same_text(self.vars[i].0.as_str(), key) {
                return Some(self.vars[i].1.clone());
            }
            i += 1;
        }
        None
    }

    /// All values, ordered by name.
    pub fn vars(&self) -> (res: &Vec<(String, String)>)
        requires
            self.wf(),
        ensures
            res@ == self.list(),
            names_in_order(res@),
            map_of(res@) == self@,
    {
        &self.vars
    }

    fn copy(&self) -> (res: EnvSource)
        requires
            self.wf(),
        ensures
            res.wf(),
            res@ == self@,
    {
        let mut vars: Vec<(String, String)> = Vec::new();
        let mut i: usize = 0;
        while i < self.vars.len()
            invariant
                i <= self.vars@.len(),
                vars@ == self.vars@.take(i as int),
            decreases self.vars@.len() - i,
        {
            vars.push((self.vars[i].0.clone(), self.vars[i].1.clone()));
            i += 1;
            assert(vars@ =~= self.vars@.take(i as int));
        }
        assert(vars@ =~= self.vars@);
        EnvSource { vars }
    }

    /// The values with others laid over them.
    pub fn with_overrides(&self, pairs: &Vec<(String, String)>) -> (res: EnvSource)
        requires
            self.wf(),
        ensures
            res.wf(),
            res@ == overlaid(self@, pair_texts(pairs@)),
    {
        let mut out = self.copy();
        let ghost all = pair_texts(pairs@);
        let mut i: usize = 0;
        assert(overlaid(self@, all.take(0)) == self@);
        while i < pairs.len()
            invariant
                i <= pairs@.len(),
                out.wf(),
                all == pair_texts(pairs@),
                out@ == overlaid(self@, all.take(i as int)),
            decreases pairs@.len() - i,
        {
            proof {
                let t = all.take(i + 1);
                assert(t.drop_last() =~= all.take(i as int));
                assert(t.last() == all[i as int]);
            }
            out.put(pairs[i].0.clone(), pairs[i].1.clone());
            i += 1;
        }
        assert(all.take(i as int) =~= all);
        out
    }

    /// The values that a strategy looks at, ordered by name.
    pub fn strategy_keys(&self) -> (res: Vec<(String, String)>)
        requires
            self.wf(),
        ensures
            names_in_order(res@),
            pair_texts(res@) == pair_texts(self.list()).filter(
                |p: (Seq<char>, Seq<char>)| is_strategy_key(p.0),
            ),
            map_of(res@) == looked_at(self@),
            overlaid(Map::empty(), pair_texts(res@)) == looked_at(self@),
    {
        let ghost all = pair_texts(self.vars@);
        let ghost looked = |p: (Seq<char>, Seq<char>)| is_strategy_key(p.0);
        let mut out: Vec<(String, String)> = Vec::new();
        let mut i: usize = 0;
        assert(all.take(0).filter(looked) =~= Seq::<(Seq<char>, Seq<char>)>::empty()) by {
            reveal(Seq::filter);
        }
        assert(pair_texts(out@) =~= Seq::<(Seq<char>, Seq<char>)>::empty());
        assert(map_of(out@) =~= looked_at(map_of(self.vars@.take(0))));
        while i < self.vars.len()
            invariant
                i <= self.vars@.len(),
                names_in_order(self.vars@),
                map_of(out@) == looked_at(map_of(self.vars@.take(i as int))),
                names_in_order(out@),
                forall|k: int|
                    0 <= k < out@.len() ==> exists|j: int|
                        0 <= j < i && #[trigger] self.vars@[j].0@ == (#[trigger] out@[k]).0@,
                all == pair_texts(self.vars@),
                looked == (|p: (Seq<char>, Seq<char>)| is_strategy_key(p.0)),
                pair_texts(out@) == all.take(i as int).filter(looked),
            decreases self.vars@.len() - i,
        {
            let ghost before_ = out@;
            proof {
                assert(all.take(i + 1) =~= all.take(i as int).push(all[i as int]));
                all.take(i as int).lemma_filter_push(all[i as int], looked);
                let seen = self.vars@.take(i as int);
                lemma_inserted(seen, i as int, self.vars@[i as int]);
                assert(seen.insert(i as int, self.vars@[i as int]) =~= self.vars@.take(i + 1));
                assert(!is_strategy_key(self.vars@[i as int].0@) ==> looked_at(
                    map_of(self.vars@.take(i + 1)),
                ) =~= looked_at(map_of(seen)));
            }
            if is_strategy_env_key(self.vars[i].0.as_str()) {
                proof {
                    assert forall|k: int| 0 <= k < before_.len() implies comes_before(
                        (#[trigger] before_[k]).0@,
                        self.vars@[i as int].0@,
                    ) by {
                        let j = choose|j: int|
                            0 <= j < i && #[trigger] self.vars@[j].0@ == before_[k].0@;
                        assert(comes_before(self.vars@[j].0@, self.vars@[i as int].0@));
                    }
                }
                out.push((self.vars[i].0.clone(), self.vars[i].1.clone()));
                assert(pair_texts(out@) =~= pair_texts(before_).push(all[i as int]));
                assert(self.vars@[i as int].0@ == out@[before_.len() as int].0@);
                proof {
                    let n = before_.len() as int;
                    lemma_inserted(before_, n, out@[n]);
                    assert(before_.insert(n, out@[n]) =~= out@);
                    assert(map_of(out@) =~= looked_at(map_of(self.vars@.take(i + 1))));
                }
            }
            i += 1;
        }
        assert(all.take(i as int) =~= all);
        assert(self.vars@.take(i as int) =~= self.vars@);
        proof {
            lemma_laid_in_order(out@);
        }
        out
    }
}

/// Values in order, laid one after the other, are the map that their list stands for.
proof fn lemma_laid_in_order(pairs: Seq<(String, String)>)
    requires
        names_in_order(pairs),
    ensures
        overlaid(Map::empty(), pair_texts(pairs)) == map_of(pairs),
    decreases pairs.len(),
{
    let texts = pair_texts(pairs);
    if pairs.len() > 0 {
        let front = pairs.drop_last();
        let n = front.len() as int;
        lemma_laid_in_order(front);
        lemma_inserted(front, n, pairs[n]);
        assert(front.insert(n, pairs[n]) =~= pairs);
        assert(texts.drop_last() =~= pair_texts(front));
    } else {
        assert(map_of(pairs) =~= Map::<Seq<char>, Seq<char>>::empty());
    }
}

/// The settings of a strategy, resolved. The groups of weights are held as they are written out,
/// every value among them.
#[derive(Debug)]
pub struct StrategyConfig {
    /// The values that the settings were resolved from.
    pub source: EnvSource,
    /// The time for a move.
    pub think_budget_ms: u64,
    /// The file with the opening book.
    pub joseki_path: String,
    /// The weights of the evaluation.
    pub strategy: String,
    /// The weights of the estimation.
    pub estimator: String,
    /// The weights of the play in check.
    pub check: String,
}

/// The number that a named value stands for.
pub open spec fn number_in(source: Map<Seq<char>, Seq<char>>, key: Seq<char>) -> Option<u64> {
    if source.dom().contains(key) {
        number_of(source[key])
    } else {
        None
    }
}

/// The time for a move: that of the candidate if it is set, else that of all, else the default. A
/// value that is no number counts as not set.
pub open spec fn think_budget(source: Map<Seq<char>, Seq<char>>) -> u64 {
    match number_in(source, "TSUITATE_CAND_THINK_BUDGET_MS"@) {
        Some(n) => n,
        None => match number_in(source, "TSUITATE_THINK_BUDGET_MS"@) {
            Some(n) => n,
            None => DEFAULT_THINK_BUDGET_MS,
        },
    }
}

/// The file with the opening book.
pub open spec fn joseki_file(source: Map<Seq<char>, Seq<char>>) -> Seq<char> {
    if source.dom().contains("TSUITATE_JOSEKI"@) {
        source["TSUITATE_JOSEKI"@]
    } else {
        "joseki.json"@
    }
}

/// The bytes that the fingerprint of resolved settings is taken of.
pub open spec fn setting_bytes(
    budget: u64,
    joseki: Seq<char>,
    strategy: Seq<char>,
    estimator: Seq<char>,
    check: Seq<char>,
) -> Seq<u8> {
    encode_utf8(decimal(budget as nat)) + seq![0u8] + encode_utf8(joseki) + seq![0u8] + encode_utf8(
        strategy,
    ) + seq![0u8] + encode_utf8(estimator) + seq![0u8] + encode_utf8(check)
}

fn number_at(source: &EnvSource, key: &str) -> (res: Option<u64>)
    ensures
        res == number_in(source@, key@),
{
    match source.var(key) {
        Some(v) => parse_number(v.as_str()),
        None => None,
    }
}

pub fn append_bytes(out: &mut Vec<u8>, s: &str)
    ensures
        final(out)@ == old(out)@ + encode_utf8(s@),
{
    let bytes = s.as_bytes();
    let ghost start = out@;
    let mut i: usize = 0;
    while i < bytes.len()
        invariant
            i <= bytes@.len(),
            out@ == start + bytes@.take(i as int),
        decreases bytes@.len() - i,
    {
        out.push(bytes[i]);
        i += 1;
        assert(out@ =~= start + bytes@.take(i as int));
    }
    assert(bytes@.take(i as int) =~= bytes@);
}

impl StrategyConfig {
    /// The bytes that the fingerprint is taken of.
    pub open spec fn bytes(&self) -> Seq<u8> {
        setting_bytes(
            self.think_budget_ms,
            self.joseki_path@,
            self.strategy@,
            self.estimator@,
            self.check@,
        )
    }

    /// The fingerprint.
    pub open spec fn print(&self) -> Seq<char> {
        hex_of(sha256_of(self.bytes()))
    }

    /// The settings from named values and the groups of weights resolved from the same.
    pub fn from_source(
        source: EnvSource,
        strategy: String,
        estimator: String,
        check: String,
    ) -> (res:
        StrategyConfig)
        ensures
            res.source == source,
            res.think_budget_ms == think_budget(source@),
            res.joseki_path@ == joseki_file(source@),
            res.strategy@ == strategy@,
            res.estimator@ == estimator@,
            res.check@ == check@,
    {
        let think_budget_ms: u64 = match number_at(&source, "TSUITATE_CAND_THINK_BUDGET_MS") {
            Some(n) => n,
            None => match number_at(&source, "TSUITATE_THINK_BUDGET_MS") {
                Some(n) => n,
                None => DEFAULT_THINK_BUDGET_MS,
            },
        };
        let joseki_path = match source.var("TSUITATE_JOSEKI") {
            Some(path) => path,
            None => "joseki.json".to_owned(),
        };
        StrategyConfig { source, think_budget_ms, joseki_path, strategy, estimator, check }
    }

    /// The settings without any named value, and the groups of weights at their defaults.
    pub fn defaults(strategy: String, estimator: String, check: String) -> (res: StrategyConfig)
        ensures
            res.source@ == Map::<Seq<char>, Seq<char>>::empty(),
            res.source.wf(),
            res.think_budget_ms == DEFAULT_THINK_BUDGET_MS,
            res.joseki_path@ == "joseki.json"@,
            res.strategy@ == strategy@,
            res.estimator@ == estimator@,
            res.check@ == check@,
    {
        StrategyConfig::from_source(EnvSource::empty(), strategy, estimator, check)
    }

    /// The fingerprint of the settings. It is taken of the resolved values: naming a value that no
    /// strategy looks at, or one that is the default anyway, does not change it.
    pub fn fingerprint(&self) -> (res: String)
        requires
            self.bytes().len() < 0x2000_0000_0000_0000,
        ensures
            res@ == self.print(),
            res@.len() == 64,
            is_hex_text(res@),
    {
        let mut number = String::new();
        append_decimal(&mut number, self.think_budget_ms);
        assert(number@ =~= decimal(self.think_budget_ms as nat));
        let mut bytes: Vec<u8> = Vec::new();
        append_bytes(&mut bytes, number.as_str());
        bytes.push(0);
        append_bytes(&mut bytes, self.joseki_path.as_str());
        bytes.push(0);
        append_bytes(&mut bytes, self.strategy.as_str());
        bytes.push(0);
        append_bytes(&mut bytes, self.estimator.as_str());
        bytes.push(0);
        append_bytes(&mut bytes, self.check.as_str());
        assert(bytes@ =~= self.bytes());
        let digest = sha256(bytes.as_slice());
        assert(digest@.take(32) =~= digest@);
        head_hex(&digest, 32)
    }
}

/// The fingerprint tells nothing of the named values but what they resolve to: settings that resolve
/// to the same have one fingerprint, whatever they were resolved from. It is written in lower-case
/// hexadecimal, two digits for each byte of the digest.
pub proof fn law_fingerprint_of_resolved_values(a: StrategyConfig, b: StrategyConfig)
    requires
        a.think_budget_ms == b.think_budget_ms,
        a.joseki_path@ == b.joseki_path@,
        a.strategy@ == b.strategy@,
        a.estimator@ == b.estimator@,
        a.check@ == b.check@,
    ensures
        a.print() == b.print(),
        is_hex_text(a.print()),
        a.print().len() == 2 * sha256_of(a.bytes()).len(),
{
    lemma_hex_text(sha256_of(a.bytes()));
}

/// A value that no strategy looks at resolves to nothing: time and opening book stay.
pub proof fn law_unknown_key_resolves_to_nothing(
    source: Map<Seq<char>, Seq<char>>,
    key: Seq<char>,
    value: Seq<char>,
)
    requires
        !is_strategy_key(key),
    ensures
        think_budget(source.insert(key, value)) == think_budget(source),
        joseki_file(source.insert(key, value)) == joseki_file(source),
{
    assert(STRATEGY_ENV_KEYS[14]@ == "TSUITATE_CAND_THINK_BUDGET_MS"@);
    assert(STRATEGY_ENV_KEYS[67]@ == "TSUITATE_JOSEKI"@);
    assert(STRATEGY_ENV_KEYS[141]@ == "TSUITATE_THINK_BUDGET_MS"@);
}

/// Values that no strategy looks at may be dropped: the rest is kept by dropping them again, time and
/// opening book come out the same, and with the same weights so does the fingerprint.
pub proof fn law_dropped_keys_have_no_effect(
    source: Map<Seq<char>, Seq<char>>,
    other: Map<Seq<char>, Seq<char>>,
    strategy: Seq<char>,
    estimator: Seq<char>,
    check: Seq<char>,
)
    requires
        looked_at(source) == looked_at(other),
    ensures
        looked_at(looked_at(source)) == looked_at(source),
        think_budget(source) == think_budget(other),
        joseki_file(source) == joseki_file(other),
        think_budget(source) == think_budget(looked_at(source)),
        joseki_file(source) == joseki_file(looked_at(source)),
        ({
            let print = |m: Map<Seq<char>, Seq<char>>|
                hex_of(
                    sha256_of(
                        setting_bytes(think_budget(m), joseki_file(m), strategy, estimator, check),
                    ),
                );
            print(source) == print(other) && print(source) == print(looked_at(source))
        }),
{
    assert(looked_at(looked_at(source)) =~= looked_at(source));
    lemma_resolves_from_looked_at(source);
    lemma_resolves_from_looked_at(other);
}

proof fn lemma_resolves_from_looked_at(source: Map<Seq<char>, Seq<char>>)
    ensures
        think_budget(source) == think_budget(looked_at(source)),
        joseki_file(source) == joseki_file(looked_at(source)),
{
    assert(STRATEGY_ENV_KEYS[14]@ == "TSUITATE_CAND_THINK_BUDGET_MS"@);
    assert(STRATEGY_ENV_KEYS[67]@ == "TSUITATE_JOSEKI"@);
    assert(STRATEGY_ENV_KEYS[141]@ == "TSUITATE_THINK_BUDGET_MS"@);
    assert(is_strategy_key("TSUITATE_CAND_THINK_BUDGET_MS"@));
    assert(is_strategy_key("TSUITATE_JOSEKI"@));
    assert(is_strategy_key("TSUITATE_THINK_BUDGET_MS"@));
}

/// The settings that hold at present: those installed last and not yet taken back, else those of the
/// process.
#[derive(Debug)]
pub struct ConfigStack {
    ambient: StrategyConfig,
    installed: Vec<StrategyConfig>,
}

/// What is left to take back after settings were installed.
#[derive(Debug)]
pub struct Scope {
    depth: usize,
}

impl Scope {
    /// How many settings were installed before.
    pub closed spec fn depth(&self) -> nat {
        self.depth as nat
    }
}

impl ConfigStack {
    /// The settings of the process.
    pub closed spec fn base(&self) -> StrategyConfig {
        self.ambient
    }

    /// The settings installed, oldest first.
    pub closed spec fn stack(&self) -> Seq<StrategyConfig> {
        self.installed@
    }

    /// The settings that hold.
    pub open spec fn top(&self) -> StrategyConfig {
        if self.stack().len() == 0 {
            self.base()
        } else {
            self.stack().last()
        }
    }

    /// With the settings of the process alone.
    pub fn new(ambient: StrategyConfig) -> (res: ConfigStack)
        ensures
            res.base() == ambient,
            res.stack() == Seq::<StrategyConfig>::empty(),
    {
        let res = ConfigStack { ambient, installed: Vec::new() };
        assert(res.stack() =~= Seq::<StrategyConfig>::empty());
        res
    }

    /// The settings of the process.
    pub fn ambient(&self) -> (res: &StrategyConfig)
        ensures
            *res == self.base(),
    {
        &self.ambient
    }

    /// The settings that hold.
    pub fn current_config(&self) -> (res: &StrategyConfig)
        ensures
            *res == self.top(),
    {
        let n: usize = self.installed.len();
        if n == 0 {
            &self.ambient
        } else {
            &self.installed[n - 1]
        }
    }

    /// Reads something out of the settings that hold.
    pub fn current<R, F: Fn(&StrategyConfig) -> R>(&self, f: F) -> (res: R)
        requires
            call_requires(f, (&self.top(),)),
        ensures
            call_ensures(f, (&self.top(),), res),
    {
        f(self.current_config())
    }

    /// Installs settings until the scope is left.
    pub fn scoped(&mut self, cfg: StrategyConfig) -> (res: Scope)
        ensures
            final(self).base() == old(self).base(),
            final(self).stack() == old(self).stack().push(cfg),
            res.depth() == old(self).stack().len(),
    {
        let depth: usize = self.installed.len();
        self.installed.push(cfg);
        Scope { depth }
    }

    /// Leaves a scope: what was installed in it, and in scopes inside it, is taken back.
    pub fn leave(&mut self, scope: Scope)
        ensures
            final(self).base() == old(self).base(),
            final(self).stack() == (if scope.depth() <= old(self).stack().len() {
                old(self).stack().take(scope.depth() as int)
            } else {
                old(self).stack()
            }),
    {
        if scope.depth <= self.installed.len() {
            self.installed.truncate(scope.depth);
        }
        assert(self.stack() =~= (if scope.depth() <= old(self).stack().len() {
            old(self).stack().take(scope.depth() as int)
        } else {
            old(self).stack()
        }));
    }
}

/// Leaving a scope brings back the settings that held when it was entered, whatever scopes were
/// entered inside it.
pub proof fn law_scopes_nest(
    before_: Seq<StrategyConfig>,
    cfg: StrategyConfig,
    inner: Seq<StrategyConfig>,
)
    ensures
        (before_.push(cfg) + inner).take(before_.len() as int) == before_,
{
    assert((before_.push(cfg) + inner).take(before_.len() as int) =~= before_);
}

/// What is wrong with values that were given on purpose.
#[derive(Debug)]
pub struct KnobCheck {
    /// The names that no strategy looks at.
    pub unknown: Vec<String>,
    /// The names whose value has changed nothing.
    pub ineffective: Vec<String>,
}

/// The contents of a list of texts.
pub open spec fn texts_of(list: Seq<String>) -> Seq<Seq<char>> {
    list.map_values(|s: String| s@)
}

impl KnobCheck {
    /// Whether nothing is wrong.
    pub fn is_clean(&self) -> (res: bool)
        ensures
            res == (self.unknown@.len() == 0 && self.ineffective@.len() == 0),
    {
        self.unknown.len() == 0 && self.ineffective.len() == 0
    }
}

/// The names of values that no strategy looks at.
pub open spec fn unknown_names(pairs: Seq<(Seq<char>, Seq<char>)>, n: int) -> Seq<Seq<char>>
    decreases n,
{
    if n <= 0 {
        Seq::empty()
    } else if is_strategy_key(pairs[n - 1].0) {
        unknown_names(pairs, n - 1)
    } else {
        unknown_names(pairs, n - 1).push(pairs[n - 1].0)
    }
}

/// The names that strategies look at but whose value alone leaves the fingerprint as it was.
pub open spec fn idle_names(
    pairs: Seq<(Seq<char>, Seq<char>)>,
    fingerprints: Seq<Seq<char>>,
    base: Seq<char>,
    n: int,
) -> Seq<Seq<char>>
    decreases n,
{
    if n <= 0 {
        Seq::empty()
    } else if is_strategy_key(pairs[n - 1].0) && fingerprints[n - 1] == base {
        idle_names(pairs, fingerprints, base, n - 1).push(pairs[n - 1].0)
    } else {
        idle_names(pairs, fingerprints, base, n - 1)
    }
}

/// The values to resolve for a test of each override by itself: two that cancel each other out
/// still count.
pub fn single_overrides(base: &EnvSource, overrides: &EnvSource) -> (res: Vec<EnvSource>)
    requires
        base.wf(),
        overrides.wf(),
    ensures
        res@.len() == overrides.list().len(),
        forall|i: int|
            0 <= i < res@.len() ==> (#[trigger] res@[i]).wf() && res@[i]@ == base@.insert(
                overrides.list()[i].0@,
                overrides.list()[i].1@,
            ),
{
    let pairs = overrides.vars();
    let mut out: Vec<EnvSource> = Vec::new();
    let mut i: usize = 0;
    while i < pairs.len()
        invariant
            i <= pairs@.len(),
            base.wf(),
            pairs@ == overrides.list(),
            out@.len() == i,
            forall|k: int|
                0 <= k < i ==> (#[trigger] out@[k]).wf() && out@[k]@ == base@.insert(
                    pairs@[k].0@,
                    pairs@[k].1@,
                ),
        decreases pairs@.len() - i,
    {
        let mut one = base.copy();
        one.put(pairs[i].0.clone(), pairs[i].1.clone());
        out.push(one);
        i += 1;
    }
    out
}

/// Tests values that were given on purpose. `fingerprints` are those of the settings with one
/// override each, in the order of the names. A misspelt name would otherwise pass unseen, and the
/// default would be measured in place of the value.
pub fn check_overrides(
    base_fingerprint: &String,
    overrides: &EnvSource,
    fingerprints: &Vec<String>,
) -> (res:
    KnobCheck)
    requires
        overrides.wf(),
        fingerprints@.len() == overrides.list().len(),
    ensures
        texts_of(res.unknown@) == unknown_names(
            pair_texts(overrides.list()),
            overrides.list().len() as int,
        ),
        texts_of(res.ineffective@) == idle_names(
            pair_texts(overrides.list()),
            texts_of(fingerprints@),
            base_fingerprint@,
            overrides.list().len() as int,
        ),
{
    let pairs = overrides.vars();
    let ghost all = pair_texts(pairs@);
    let ghost prints = texts_of(fingerprints@);
    let mut unknown: Vec<String> = Vec::new();
    let mut ineffective: Vec<String> = Vec::new();
    let mut i: usize = 0;
    assert(texts_of(unknown@) =~= Seq::<Seq<char>>::empty());
    while i < pairs.len()
        invariant
            i <= pairs@.len(),
            pairs@ == overrides.list(),
            fingerprints@.len() == pairs@.len(),
            all == pair_texts(pairs@),
            prints == texts_of(fingerprints@),
            texts_of(unknown@) == unknown_names(all, i as int),
            texts_of(ineffective@) == idle_names(all, prints, base_fingerprint@, i as int),
        decreases pairs@.len() - i,
    {
        let key = &pairs[i].0;
        let ghost u = unknown@;
        let ghost e = ineffective@;
        assert(all[i as int].0 == key@);
        assert(prints[i as int] == fingerprints@[i as int]@);
        if !is_strategy_env_key(key.as_str()) {
            unknown.push(key.clone());
            assert(texts_of(unknown@) =~= texts_of(u).push(key@));
        } else if fingerprints[i] == *base_fingerprint {
            ineffective.push(key.clone());
            assert(texts_of(ineffective@) =~= texts_of(e).push(key@));
        }
        i += 1;
    }
    KnobCheck { unknown, ineffective }
}

} // verus!
