//! Seeds and numbers derived from them: mixing, text hashes, the split of games over opponents,
//! and draws with repetition.

use vstd::prelude::*;
use vstd::string::*;
use vstd::utf8::encode_utf8;

verus! {

/// A 64-bit number scrambled so that nearby numbers give unrelated ones.
pub open spec fn mixed(z: u64) -> u64 {
    let a = z.wrapping_add(0x9E37_79B9_7F4A_7C15);
    let b = (a ^ (a >> 30u64)).wrapping_mul(0xBF58_476D_1CE4_E5B9);
    let c = (b ^ (b >> 27u64)).wrapping_mul(0x94D0_49BB_1331_11EB);
    c ^ (c >> 31u64)
}

/// Scrambles a 64-bit number.
pub fn mix(z: u64) -> (res: u64)
    ensures
        res == mixed(z),
{
    let a: u64 = z.wrapping_add(0x9E37_79B9_7F4A_7C15);
    let b: u64 = (a ^ (a >> 30u64)).wrapping_mul(0xBF58_476D_1CE4_E5B9);
    let c: u64 = (b ^ (b >> 27u64)).wrapping_mul(0x94D0_49BB_1331_11EB);
    c ^ (c >> 31u64)
}

/// The bytes folded into a number, one after the other.
pub open spec fn folded(bytes: Seq<u8>) -> u64
    decreases bytes.len(),
{
    if bytes.len() == 0 {
        0xcbf2_9ce4_8422_2325
    } else {
        (folded(bytes.drop_last()) ^ (bytes.last() as u64)).wrapping_mul(0x1000_0000_01b3)
    }
}

/// The hash of a text under a seed.
pub open spec fn text_hash(seed: u64, s: Seq<char>) -> u64 {
    mixed(seed ^ folded(encode_utf8(s)))
}

/// The hash of a text under a seed. It is the same in every run.
pub fn stable_hash(seed: u64, s: &str) -> (res: u64)
    ensures
        res == text_hash(seed, s@),
{
    let bytes = s.as_bytes();
    let mut h: u64 = 0xcbf2_9ce4_8422_2325;
    let mut i: usize = 0;
    while i < bytes.len()
        invariant
            i <= bytes@.len(),
            h == folded(bytes@.take(i as int)),
        decreases bytes@.len() - i,
    {
        proof {
            let t = bytes@.take(i + 1);
            assert(t.drop_last() =~= bytes@.take(i as int));
            assert(t.last() == bytes@[i as int]);
        }
        h = (h ^ (bytes[i] as u64)).wrapping_mul(0x1000_0000_01b3);
        i += 1;
    }
    assert(bytes@.take(i as int) =~= bytes@);
    mix(seed ^ h)
}

/// How many games to play against each opponent so that at least the requested number is played:
/// the least even number that is enough, so that both sides are played equally often.
pub fn games_per_baseline(games_per_eval: u32, baselines: usize) -> (res: u32)
    requires
        0 < baselines <= u32::MAX,
        baselines == 1 ==> games_per_eval < u32::MAX,
    ensures
        res % 2 == 0,
        res >= 2,
        res * baselines >= games_per_eval,
        res == 2 || (res - 2) * baselines < games_per_eval,
{
    let b: u32 = baselines as u32;
    let whole: u32 = games_per_eval / b;
    let rest: u32 = games_per_eval % b;
    proof {
        vstd::arithmetic::div_mod::lemma_fundamental_div_mod(games_per_eval as int, b as int);
        assert(whole <= games_per_eval) by (nonlinear_arith)
            requires
                games_per_eval == b * whole + rest,
                b >= 1,
                rest >= 0,
                whole >= 0,
        ;
        assert(rest > 0 ==> whole < games_per_eval) by (nonlinear_arith)
            requires
                games_per_eval == b * whole + rest,
                b >= 1,
                rest >= 0,
                whole >= 0,
        ;
        assert(b >= 2 ==> 2 * whole <= games_per_eval) by (nonlinear_arith)
            requires
                games_per_eval == b * whole + rest,
                rest >= 0,
                whole >= 0,
        ;
    }
    let enough: u32 = if rest > 0 {
        whole + 1
    } else {
        whole
    };
    let per: u32 = if enough < 2 {
        2
    } else {
        enough
    };
    let res: u32 = per + (per % 2);
    proof {
        assert(res * b >= games_per_eval) by (nonlinear_arith)
            requires
                games_per_eval == b * whole + rest,
                rest < b,
                res >= whole,
                rest > 0 ==> res >= whole + 1,
        ;
        if res != 2 {
            assert((res - 2) * b < games_per_eval) by (nonlinear_arith)
                requires
                    games_per_eval == b * whole + rest,
                    b >= 1,
                    rest >= 0,
                    rest > 0 ==> res - 2 <= whole,
                    rest == 0 ==> res - 2 <= whole - 1,
            ;
        }
    }
    res
}

/// The seeds of the games of one evaluation, one for each opponent.
pub open spec fn seed_row(base: u64, n: nat) -> Seq<u64> {
    Seq::new(n, |i: int| mixed(base ^ ((i + 1) as u64)))
}

/// The seed from which those of one step of a search come.
pub fn iteration_seed(run_seed: u64, k: u32) -> (res: u64)
    ensures
        res == mixed(run_seed ^ (k as u64)),
{
    mix(run_seed ^ (k as u64))
}

/// One seed for each opponent. Both points of a step are played under the same ones.
pub fn match_seeds(base: u64, baselines: usize) -> (res: Vec<u64>)
    ensures
        res@ == seed_row(base, baselines as nat),
{
    let mut out: Vec<u64> = Vec::new();
    let mut i: usize = 0;
    while i < baselines
        invariant
            i <= baselines,
            out@ == seed_row(base, i as nat),
        decreases baselines - i,
    {
        let place: u64 = i as u64 + 1;
        out.push(mix(base ^ place));
        i += 1;
        assert(out@ =~= seed_row(base, i as nat));
    }
    out
}

/// The seed base of the evaluation that closes a search.
pub fn closing_seed(run_seed: u64) -> (res: u64)
    ensures
        res == run_seed ^ 0x000F_17A1u64,
{
    run_seed ^ 0x000F_17A1u64
}

/// Whether a step evaluates its upper point first. The order changes from step to step.
pub fn plus_first(iter_seed: u64) -> (res: bool)
    ensures
        res == ((iter_seed >> 7u64) & 1u64 == 0),
{
    (iter_seed >> 7u64) & 1u64 == 0
}

/// The state of the generator after one step.
pub open spec fn stepped(state: u64) -> u64 {
    state.wrapping_mul(6364136223846793005).wrapping_add(1442695040888963407)
}

/// The state of the generator after `k` steps.
pub open spec fn stepped_by(state: u64, k: nat) -> u64
    decreases k,
{
    if k == 0 {
        state
    } else {
        stepped(stepped_by(state, (k - 1) as nat))
    }
}

/// The places that one draw of `n` from `n` takes, repetitions allowed.
pub open spec fn drawn(state: u64, n: nat) -> Seq<int> {
    Seq::new(n, |k: int| ((stepped_by(state, (k + 1) as nat) >> 33u64) as int) % (n as int))
}

/// The state with which a generator starts.
pub fn generator(seed: u64) -> (res: u64)
    ensures
        res == seed | 1u64,
{
    seed | 1u64
}

/// Draws `n` places out of `n`, repetitions allowed, and moves the generator on.
pub fn draw_places(state: &mut u64, n: usize) -> (res: Vec<usize>)
    ensures
        res@.len() == n,
        forall|k: int| 0 <= k < n ==> #[trigger] res@[k] == drawn(*old(state), n as nat)[k],
        forall|k: int| 0 <= k < n ==> #[trigger] res@[k] < n,
        *final(state) == stepped_by(*old(state), n as nat),
{
    let ghost start = *state;
    let mut out: Vec<usize> = Vec::new();
    let mut k: usize = 0;
    while k < n
        invariant
            k <= n,
            out@.len() == k,
            *state == stepped_by(start, k as nat),
            forall|j: int| 0 <= j < k ==> #[trigger] out@[j] == drawn(start, n as nat)[j],
            forall|j: int| 0 <= j < k ==> #[trigger] out@[j] < n,
        decreases n - k,
    {
        *state = state.wrapping_mul(6364136223846793005).wrapping_add(1442695040888963407);
        let s: u64 = *state;
        let high: u64 = s >> 33u64;
        assert(high < 0x8000_0000u64) by (bit_vector)
            requires
                high == s >> 33u64,
        ;
        let place: usize = (high as usize) % n;
        out.push(place);
        k += 1;
    }
    out
}

/// Thinking times in short, in microseconds.
#[derive(Clone, Copy, Debug, PartialEq, Eq)]
pub struct ThinkStats {
    pub count: usize,
    pub total: u128,
    pub p99: u64,
    pub max: u64,
}

/// The numbers in ascending order.
pub open spec fn is_ascending(s: Seq<u64>) -> bool {
    forall|i: int, j: int| 0 <= i <= j < s.len() ==> s[i] <= s[j]
}

/// The sum of the numbers.
pub open spec fn sum_of(s: Seq<u64>) -> nat
    decreases s.len(),
{
    if s.len() == 0 {
        0
    } else {
        sum_of(s.drop_last()) + s.last() as nat
    }
}

/// The place in an ascending list of `n` numbers that 99 in a hundred stand before.
pub open spec fn p99_place(n: int) -> int {
    if n * 99 / 100 <= n - 1 {
        n * 99 / 100
    } else {
        n - 1
    }
}

/// Puts the numbers in ascending order.
pub fn ascending(us: &[u64]) -> (res: Vec<u64>)
    ensures
        is_ascending(res@),
        res@.to_multiset() == us@.to_multiset(),
        res@.len() == us@.len(),
{
    let mut out: Vec<u64> = Vec::new();
    let mut i: usize = 0;
    assert(us@.take(0) =~= out@);
    while i < us.len()
        invariant
            i <= us@.len(),
            out@.len() == i,
            is_ascending(out@),
            out@.to_multiset() == us@.take(i as int).to_multiset(),
        decreases us@.len() - i,
    {
        let x: u64 = us[i];
        let mut n: usize = out.len();
        while n > 0 && out[n - 1] > x
            invariant
                n <= out@.len(),
                forall|k: int| n <= k < out@.len() ==> #[trigger] out@[k] > x,
            decreases n,
        {
            n -= 1;
        }
        proof {
            assert(us@.take(i + 1) =~= us@.take(i as int).push(x));
            us@.take(i as int).to_multiset_ensures();
            out@.to_multiset_ensures();
            lemma_insert_multiset(out@, n as int, x);
        }
        out.insert(n, x);
        i += 1;
    }
    assert(us@.take(i as int) =~= us@);
    out
}

proof fn lemma_insert_multiset(s: Seq<u64>, n: int, x: u64)
    requires
        0 <= n <= s.len(),
    ensures
        s.insert(n, x).to_multiset() == s.to_multiset().insert(x),
{
    s.to_multiset_ensures();
    assert(s.insert(n, x) =~= s.take(n).push(x) + s.skip(n));
    assert(s =~= s.take(n) + s.skip(n));
    vstd::seq_lib::lemma_multiset_commutative(s.take(n).push(x), s.skip(n));
    vstd::seq_lib::lemma_multiset_commutative(s.take(n), s.skip(n));
    s.take(n).to_multiset_ensures();
    assert(s.take(n).push(x).to_multiset() =~= s.take(n).to_multiset().insert(x));
    assert(s.insert(n, x).to_multiset() =~= s.to_multiset().insert(x));
}

/// What a report shows of thinking times; nothing where there are none.
pub fn think_stats(us: &[u64]) -> (res: Option<ThinkStats>)
    ensures
        res is None <==> us@.len() == 0,
        res matches Some(t) ==> {
            &&& t.count == us@.len()
            &&& t.total == sum_of(us@)
            &&& exists|s: Seq<u64>|
                is_ascending(s) && #[trigger] s.to_multiset() == us@.to_multiset() && s.len()
                    == us@.len() && t.p99 == s[p99_place(us@.len() as int)] && t.max == s.last()
        },
{
    let n: usize = us.len();
    if n == 0 {
        return None;
    }
    let mut total: u128 = 0;
    let mut i: usize = 0;
    while i < us.len()
        invariant
            i <= us@.len(),
            us@.len() <= usize::MAX,
            total == sum_of(us@.take(i as int)),
            total <= i * u64::MAX,
        decreases us@.len() - i,
    {
        proof {
            let t = us@.take(i + 1);
            assert(t.drop_last() =~= us@.take(i as int));
            assert(t.last() == us@[i as int]);
            assert(i * u64::MAX + u64::MAX == (i + 1) * u64::MAX) by (nonlinear_arith);
            assert((i + 1) * u64::MAX <= u64::MAX * u64::MAX) by (nonlinear_arith)
                requires
                    i + 1 <= u64::MAX,
            ;
        }
        total += us[i] as u128;
        i += 1;
    }
    assert(us@.take(i as int) =~= us@);
    let sorted = ascending(us);
    let n: usize = sorted.len();
    let share: u128 = (n as u128) * 99 / 100;
    let place: usize = if share <= (n - 1) as u128 {
        share as usize
    } else {
        n - 1
    };
    let res = ThinkStats { count: us.len(), total, p99: sorted[place], max: sorted[n - 1] };
    assert(sorted@.to_multiset() == us@.to_multiset());
    Some(res)
}

} // verus!
