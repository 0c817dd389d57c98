//! The difficulty engine: a single pass over a height-ordered header
//! sequence that revalidates the consensus target at every adjustment
//! boundary and derives a smoothed implied-difficulty signal at every
//! height past the bootstrap window.
use vstd::prelude::*;
use vstd::arithmetic::power2::pow2;
use crate::u256::U256;
use crate::compact::target_of_compact;
use crate::compact::target_from_compact;
use crate::compact::difficulty_of_compact;
use crate::compact::compact_difficulty;
use crate::compact::compact_round;
use crate::header::BlockHeader;

verus! {

/// The network profile the engine runs under: adjustment cadence, nominal
/// timespan, the fixed-point scale of the smoothing formula, and the easiest
/// allowed target. Injected so small synthetic networks can be analysed with
/// the same engine.
pub struct NetworkParams {
    pub interval: u32,
    pub timespan: u32,
    pub scale_precision: u32,
    pub max_target: U256,
}

pub open spec fn wf_params(p: NetworkParams) -> bool {
    &&& p.interval >= 1
    &&& p.timespan >= 4
    &&& p.timespan <= 0x3fff_ffff
    &&& p.scale_precision >= 1
    &&& p.max_target.as_nat() > 0
}

impl NetworkParams {
    /// The mainnet profile: 2016 blocks per period, two weeks of seconds,
    /// and the easiest target 0xFFFF * 2^208, the largest value the compact
    /// encoding can carry at that magnitude.
    pub fn bitcoin() -> (r: NetworkParams)
        ensures
            r.interval == 2016,
            r.timespan == 1209600,
            r.scale_precision == 1000,
            r.max_target.as_nat() == pow2(224) - pow2(208),
            wf_params(r),
    {
        let max_target = U256 { w0: 0, w1: 0, w2: 0, w3: 0xffff_0000 };
        proof {
            vstd::arithmetic::power2::lemma2_to64();
            vstd::arithmetic::power2::lemma2_to64_rest();
            vstd::arithmetic::power2::lemma_pow2_adds(64, 64);
            vstd::arithmetic::power2::lemma_pow2_adds(128, 64);
            vstd::arithmetic::power2::lemma_pow2_adds(192, 16);
            vstd::arithmetic::power2::lemma_pow2_adds(192, 32);
        }
        NetworkParams { interval: 2016, timespan: 1209600, scale_precision: 1000, max_target }
    }
}

/// A header annotated with its consensus difficulty and the smoothed
/// implied-difficulty estimate.
pub struct HeaderWithDifficulty {
    pub header: BlockHeader,
    pub difficulty: u64,
    pub implied_difficulty: u64,
}

/// The failures the pipeline surfaces: transport trouble, a malformed wire
/// message, or a boundary header whose encoded target disagrees with the
/// recomputed one (carrying the offending height).
#[derive(Debug)]
pub enum ChainError {
    Transport,
    ProtocolDecode,
    BadTarget(usize),
}

/// Clamps a raw interval measurement to the window the retarget rule allows:
/// no more than a factor of four away from the nominal timespan in either
/// direction.
pub open spec fn clamp_spec(raw: nat, timespan: u32) -> nat {
    if raw < timespan as nat / 4 {
        timespan as nat / 4
    } else if raw > timespan as nat * 4 {
        timespan as nat * 4
    } else {
        raw
    }
}

pub fn clamp_interval(raw: u32, timespan: u32) -> (r: u32)
    requires
        timespan >= 4,
        timespan <= 0x3fff_ffff,
    ensures
        r as nat == clamp_spec(raw as nat, timespan),
        timespan as nat / 4 <= r as nat <= timespan as nat * 4,
{
    if raw < timespan / 4 {
        timespan / 4
    } else if raw > timespan * 4 {
        timespan * 4
    } else {
        raw
    }
}

/// The unsigned image of the signed accumulator, as the cast to a 32-bit
/// word reads it.
pub open spec fn wrap_u32(x: int) -> nat {
    if x >= 0 {
        x as nat
    } else {
        (x + 0x1_0000_0000) as nat
    }
}

/// The scale factor of one window block: the window-start difficulty times
/// the fixed-point precision, divided by the block's own difficulty, in the
/// low 32 bits.
pub open spec fn scale_spec(bits: u32, maxt: nat, sdif: nat) -> nat {
    (sdif / difficulty_of_compact(bits, maxt)) % 0x1_0000_0000
}

/// One time-weighted term of the interval sum: the (possibly negative) time
/// delta from block `i` to its successor, scaled by `scale / precision`.
pub open spec fn single_interval_spec(
    headers: Seq<BlockHeader>,
    maxt: nat,
    sp: u32,
    sdif: nat,
    i: int,
) -> int {
    let scale = scale_spec(headers[i].bits, maxt, sdif);
    if headers[i + 1].time < headers[i].time {
        -(((headers[i].time - headers[i + 1].time) * scale / (sp as int)))
    } else {
        (headers[i + 1].time - headers[i].time) * scale / (sp as int)
    }
}

/// The arithmetic of one term stays within the machine words it is computed
/// in: the block's difficulty divides a nonzero value and the scaled delta
/// fits 32 bits unsigned and, after the precision division, 31 bits.
pub open spec fn single_interval_ok(
    headers: Seq<BlockHeader>,
    maxt: nat,
    sp: u32,
    sdif: nat,
    i: int,
) -> bool {
    let scale = scale_spec(headers[i].bits, maxt, sdif);
    let dt: int = if headers[i + 1].time < headers[i].time {
        headers[i].time - headers[i + 1].time
    } else {
        headers[i + 1].time - headers[i].time
    };
    &&& target_of_compact(headers[i].bits) > 0
    &&& difficulty_of_compact(headers[i].bits, maxt) > 0
    &&& dt * scale <= u32::MAX
    &&& dt * scale / (sp as int) <= 0x7fff_ffff
}

pub fn single_interval(
    headers: &Vec<BlockHeader>,
    params: &NetworkParams,
    sdif: u64,
    i: usize,
) -> (r: i32)
    requires
        wf_params(*params),
        i + 1 < headers@.len(),
        single_interval_ok(
            headers@,
            params.max_target.as_nat(),
            params.scale_precision,
            sdif as nat,
            i as int,
        ),
    ensures
        r as int == single_interval_spec(
            headers@,
            params.max_target.as_nat(),
            params.scale_precision,
            sdif as nat,
            i as int,
        ),
{
    // binds the length into a machine word so the successor index stays in range
    let _chain_len: usize = headers.len();
    let d = compact_difficulty(headers[i].bits, &params.max_target);
    let scale: u32 = #[verifier::truncate] ((sdif / d) as u32);
    proof {
        let v: u64 = (sdif / d) as u64;
        assert(v as u32 == v % 0x1_0000_0000) by (bit_vector);
    }
    if headers[i + 1].time < headers[i].time {
        let dt = headers[i].time - headers[i + 1].time;
        let q = dt * scale / params.scale_precision;
        -(q as i32)
    } else {
        let dt = headers[i + 1].time - headers[i].time;
        let q = dt * scale / params.scale_precision;
        q as i32
    }
}

/// The running interval sum over window positions `lo .. k`, accumulated in
/// height order.
pub open spec fn interval_sum(
    headers: Seq<BlockHeader>,
    maxt: nat,
    sp: u32,
    sdif: nat,
    lo: int,
    k: int,
) -> int
    decreases k - lo,
{
    if k <= lo {
        0
    } else {
        interval_sum(headers, maxt, sp, sdif, lo, k - 1) + single_interval_spec(
            headers,
            maxt,
            sp,
            sdif,
            k - 1,
        )
    }
}

/// The window-start difficulty in fixed-point scale.
pub open spec fn sdif_spec(headers: Seq<BlockHeader>, maxt: nat, sp: u32, h: int, iv: int) -> nat {
    difficulty_of_compact(headers[h - iv].bits, maxt) * (sp as nat)
}

/// Every arithmetic step of the window accumulation at height `h` stays in
/// range: the fixed-point start difficulty fits a 64-bit word, each term is
/// well formed, and every partial sum fits the signed 32-bit accumulator.
pub open spec fn window_ok(headers: Seq<BlockHeader>, p: NetworkParams, h: int) -> bool {
    let maxt = p.max_target.as_nat();
    let sp = p.scale_precision;
    let iv = p.interval as int;
    let sdif = sdif_spec(headers, maxt, sp, h, iv);
    &&& target_of_compact(headers[h - iv].bits) > 0
    &&& difficulty_of_compact(headers[h - iv].bits, maxt) * sp <= u64::MAX
    &&& forall|i: int|
        h - iv <= i < h - 1 ==> single_interval_ok(headers, maxt, sp, sdif, i)
    &&& forall|k: int|
        h - iv <= k <= h - 1 ==> -0x8000_0000 <= #[trigger] interval_sum(
            headers,
            maxt,
            sp,
            sdif,
            h - iv,
            k,
        ) <= 0x7fff_ffff
}

/// The clamped interval the retarget at height `h` uses.
pub open spec fn adjusted_interval_spec(headers: Seq<BlockHeader>, p: NetworkParams, h: int) -> nat {
    let maxt = p.max_target.as_nat();
    let iv = p.interval as int;
    let sdif = sdif_spec(headers, maxt, p.scale_precision, h, iv);
    clamp_spec(
        wrap_u32(interval_sum(headers, maxt, p.scale_precision, sdif, h - iv, h - 1)),
        p.timespan,
    )
}

/// A retarget seeded from the target a given compact field encodes: scale by
/// the clamped interval over the nominal timespan, cap at the easiest
/// target. The compact rounding is applied afterwards.
pub open spec fn retarget_from(base_bits: u32, adj: nat, timespan: u32, maxt: nat) -> nat {
    let t1 = (target_of_compact(base_bits) * adj) % pow2(256);
    let t2 = t1 / (timespan as nat);
    if t2 > maxt {
        maxt
    } else {
        t2
    }
}

/// The consensus target implied at height `h`: seeded from the previous
/// header's target.
pub open spec fn consensus_target(headers: Seq<BlockHeader>, p: NetworkParams, h: int) -> nat {
    compact_round(
        retarget_from(
            headers[h - 1].bits,
            adjusted_interval_spec(headers, p, h),
            p.timespan,
            p.max_target.as_nat(),
        ),
    )
}

/// The implied target at height `h`: the same computation seeded from the
/// window-start header's target, evaluated at every height.
pub open spec fn implied_target(headers: Seq<BlockHeader>, p: NetworkParams, h: int) -> nat {
    compact_round(
        retarget_from(
            headers[h - p.interval as int].bits,
            adjusted_interval_spec(headers, p, h),
            p.timespan,
            p.max_target.as_nat(),
        ),
    )
}

/// The implied difficulty recorded at height `h`.
pub open spec fn implied_difficulty_spec(headers: Seq<BlockHeader>, p: NetworkParams, h: int) -> nat {
    (p.max_target.as_nat() / implied_target(headers, p, h)) % pow2(64)
}

/// Everything the engine's arithmetic at height `h` needs of the input: the
/// window is well formed, the header's own target decodes to a nonzero
/// value, and both retarget seeds stay above the sixteen-bit floor of the
/// compact rounding.
pub open spec fn engine_ok(headers: Seq<BlockHeader>, p: NetworkParams, h: int) -> bool {
    &&& window_ok(headers, p, h)
    &&& target_of_compact(headers[h].bits) > 0
    &&& retarget_from(
        headers[h - 1].bits,
        adjusted_interval_spec(headers, p, h),
        p.timespan,
        p.max_target.as_nat(),
    ) >= 0x10000
    &&& retarget_from(
        headers[h - p.interval as int].bits,
        adjusted_interval_spec(headers, p, h),
        p.timespan,
        p.max_target.as_nat(),
    ) >= 0x10000
}

/// Whether the boundary check passes at height `h`: only official adjustment
/// points are compared, and there the recomputed target must equal the one
/// the header encodes.
pub open spec fn boundary_good(headers: Seq<BlockHeader>, p: NetworkParams, h: int) -> bool {
    h % (p.interval as int) == 0 ==> consensus_target(headers, p, h) == target_of_compact(
        headers[h].bits,
    )
}

/// What the record at height `h` must hold: placeholder ones through the
/// bootstrap window, then the header's own difficulty beside the smoothed
/// implied difficulty.
pub open spec fn record_ok(
    headers: Seq<BlockHeader>,
    p: NetworkParams,
    h: int,
    rec: HeaderWithDifficulty,
) -> bool {
    &&& rec.header == headers[h]
    &&& if h <= p.interval as int {
        rec.difficulty == 1 && rec.implied_difficulty == 1
    } else {
        rec.difficulty == difficulty_of_compact(headers[h].bits, p.max_target.as_nat())
            && rec.implied_difficulty == implied_difficulty_spec(headers, p, h)
    }
}

/// Clamp bound: whatever the raw timestamps did to the accumulated interval,
/// the value fed into a retarget computation lies between a quarter of the
/// nominal timespan and four times it.
pub proof fn lemma_clamp_bound(headers: Seq<BlockHeader>, p: NetworkParams, h: int)
    requires
        wf_params(p),
    ensures
        p.timespan as nat / 4 <= adjusted_interval_spec(headers, p, h) <= p.timespan as nat * 4,
{
}

/// One uniform window: when every block of the window carries the same
/// compact target and consecutive timestamps differ by exactly `ds`, the
/// interval sum telescopes to the gap count times `ds`.
proof fn lemma_uniform_sum(
    headers: Seq<BlockHeader>,
    maxt: nat,
    sp: u32,
    sdif: nat,
    lo: int,
    k: int,
    ds: nat,
)
    requires
        sp >= 1,
        lo <= k,
        forall|i: int| lo <= i < k ==> #[trigger] headers[i].bits == headers[lo].bits,
        forall|i: int|
            lo <= i < k ==> headers[i + 1].time == #[trigger] headers[i].time + ds,
        difficulty_of_compact(headers[lo].bits, maxt) > 0,
        sdif == difficulty_of_compact(headers[lo].bits, maxt) * (sp as nat),
    ensures
        interval_sum(headers, maxt, sp, sdif, lo, k) == (k - lo) * ds,
    decreases k - lo,
{
    if k == lo {
        assert((k - lo) * ds == 0) by (nonlinear_arith)
            requires
                k == lo,
        ;
    } else {
        lemma_uniform_sum(headers, maxt, sp, sdif, lo, k - 1, ds);
        assert(interval_sum(headers, maxt, sp, sdif, lo, k) == interval_sum(
            headers,
            maxt,
            sp,
            sdif,
            lo,
            k - 1,
        ) + single_interval_spec(headers, maxt, sp, sdif, k - 1));
        let d0 = difficulty_of_compact(headers[lo].bits, maxt);
        assert(headers[k - 1].bits == headers[lo].bits);
        assert(headers[k - 1 + 1].time == headers[k - 1].time + ds);
        // the scale of a window block with the window-start difficulty is the
        // precision itself
        assert(sdif / d0 == sp) by {
            vstd::arithmetic::div_mod::lemma_div_multiples_vanish(
                sp as int,
                d0 as int,
            );
            assert(d0 * sp == sdif);
        }
        assert(scale_spec(headers[k - 1].bits, maxt, sdif) == sp as nat) by {
            vstd::arithmetic::div_mod::lemma_small_mod(sp as nat, 0x1_0000_0000);
        }
        assert(single_interval_spec(headers, maxt, sp, sdif, k - 1) == ds) by {
            assert(headers[k].time >= headers[k - 1].time);
            assert((headers[k].time - headers[k - 1].time) == ds);
            assert(ds * sp / (sp as int) == ds) by {
                vstd::arithmetic::div_mod::lemma_div_multiples_vanish(ds as int, sp as int);
                assert((sp as int) * (ds as int) == ds * sp) by (nonlinear_arith);
            }
        }
        assert((k - lo) * ds == (k - 1 - lo) * ds + ds) by (nonlinear_arith);
    }
}

/// On a uniform window the engine's precondition holds outright: every term
/// is `ds`, every partial sum stays far inside the accumulator, and both
/// retarget seeds come out at the unchanged window target.
pub proof fn lemma_uniform_engine_ok(
    headers: Seq<BlockHeader>,
    p: NetworkParams,
    h: int,
    ds: nat,
)
    requires
        wf_params(p),
        p.interval >= 2,
        p.interval < h < headers.len(),
        forall|i: int|
            h - p.interval <= i <= h ==> #[trigger] headers[i].bits == headers[h
                - p.interval].bits,
        forall|i: int|
            h - p.interval <= i < h - 1 ==> headers[i + 1].time == #[trigger] headers[i].time
                + ds,
        (p.interval - 1) * ds == p.timespan,
        ds * (p.scale_precision as nat) <= u32::MAX,
        target_of_compact(headers[h - p.interval].bits) > 0,
        difficulty_of_compact(headers[h - p.interval].bits, p.max_target.as_nat()) > 0,
        difficulty_of_compact(headers[h - p.interval].bits, p.max_target.as_nat()) * (
        p.scale_precision as nat) <= u64::MAX,
        target_of_compact(headers[h - p.interval].bits) * (p.timespan as nat) < pow2(256),
        target_of_compact(headers[h - p.interval].bits) <= p.max_target.as_nat(),
        target_of_compact(headers[h - p.interval].bits) >= 0x10000,
        compact_round(target_of_compact(headers[h - p.interval].bits)) == target_of_compact(
            headers[h - p.interval].bits,
        ),
    ensures
        engine_ok(headers, p, h),
{
    let iv = p.interval as int;
    let lo = h - iv;
    let maxt = p.max_target.as_nat();
    let sp = p.scale_precision;
    let t0 = target_of_compact(headers[lo].bits);
    let d0 = difficulty_of_compact(headers[lo].bits, maxt);
    let sdif = sdif_spec(headers, maxt, sp, h, iv);
    assert(sdif == d0 * (sp as nat));
    assert(sdif / d0 == sp) by {
        vstd::arithmetic::div_mod::lemma_div_multiples_vanish(sp as int, d0 as int);
        assert(d0 * sp == sdif);
    }
    assert forall|i: int| lo <= i < h - 1 implies single_interval_ok(
        headers,
        maxt,
        sp,
        sdif,
        i,
    ) by {
        assert(headers[i].bits == headers[lo].bits);
        assert(headers[i + 1].time == headers[i].time + ds);
        assert(scale_spec(headers[i].bits, maxt, sdif) == sp as nat) by {
            vstd::arithmetic::div_mod::lemma_small_mod(sp as nat, 0x1_0000_0000);
        }
        assert(ds * sp / (sp as int) == ds) by {
            vstd::arithmetic::div_mod::lemma_div_multiples_vanish(ds as int, sp as int);
            assert((sp as int) * (ds as int) == ds * sp) by (nonlinear_arith);
        }
        assert(ds <= 0x7fff_ffff) by (nonlinear_arith)
            requires
                (p.interval - 1) * ds == p.timespan,
                p.interval >= 2,
                p.timespan <= 0x3fff_ffff,
        ;
    }
    assert forall|k: int| lo <= k <= h - 1 implies -0x8000_0000 <= #[trigger] interval_sum(
        headers,
        maxt,
        sp,
        sdif,
        lo,
        k,
    ) <= 0x7fff_ffff by {
        lemma_uniform_sum(headers, maxt, sp, sdif, lo, k, ds);
        assert((k - lo) * ds <= (iv - 1) * ds) by (nonlinear_arith)
            requires
                k - lo <= iv - 1,
                ds >= 0,
        ;
        assert((k - lo) * ds >= 0) by (nonlinear_arith)
            requires
                k - lo >= 0,
                ds >= 0,
        ;
    }
    lemma_boundary_invariance(headers, p, h, ds);
    assert(adjusted_interval_spec(headers, p, h) == p.timespan as nat);
    assert(retarget_from(headers[h - 1].bits, p.timespan as nat, p.timespan, maxt) == t0);
    assert(retarget_from(headers[lo].bits, p.timespan as nat, p.timespan, maxt) == t0);
}

/// Boundary invariance: over a window whose blocks all carry one compact
/// target, already at compact precision and no easier than the cap, and whose
/// inter-block times all equal the per-gap share of the nominal timespan, the
/// retarget reproduces that target exactly.
pub proof fn lemma_boundary_invariance(
    headers: Seq<BlockHeader>,
    p: NetworkParams,
    h: int,
    ds: nat,
)
    requires
        wf_params(p),
        p.interval >= 2,
        p.interval <= h < headers.len(),
        forall|i: int|
            h - p.interval <= i <= h - 1 ==> #[trigger] headers[i].bits == headers[h
                - p.interval].bits,
        forall|i: int|
            h - p.interval <= i < h - 1 ==> headers[i + 1].time == #[trigger] headers[i].time
                + ds,
        (p.interval - 1) * ds == p.timespan,
        difficulty_of_compact(headers[h - p.interval].bits, p.max_target.as_nat()) > 0,
        target_of_compact(headers[h - p.interval].bits) * (p.timespan as nat) < pow2(256),
        target_of_compact(headers[h - p.interval].bits) <= p.max_target.as_nat(),
        compact_round(target_of_compact(headers[h - p.interval].bits)) == target_of_compact(
            headers[h - p.interval].bits,
        ),
    ensures
        adjusted_interval_spec(headers, p, h) == p.timespan as nat,
        retarget_from(
            headers[h - 1].bits,
            p.timespan as nat,
            p.timespan,
            p.max_target.as_nat(),
        ) == target_of_compact(headers[h - p.interval].bits),
        retarget_from(
            headers[h - p.interval].bits,
            p.timespan as nat,
            p.timespan,
            p.max_target.as_nat(),
        ) == target_of_compact(headers[h - p.interval].bits),
        consensus_target(headers, p, h) == target_of_compact(headers[h - 1].bits),
        consensus_target(headers, p, h) == target_of_compact(headers[h - p.interval].bits),
        implied_target(headers, p, h) == target_of_compact(headers[h - p.interval].bits),
{
    let iv = p.interval as int;
    let lo = h - iv;
    let maxt = p.max_target.as_nat();
    let t0 = target_of_compact(headers[lo].bits);
    let sdif = sdif_spec(headers, maxt, p.scale_precision, h, iv);
    lemma_uniform_sum(headers, maxt, p.scale_precision, sdif, lo, h - 1, ds);
    assert(interval_sum(headers, maxt, p.scale_precision, sdif, lo, h - 1) == (iv - 1) * ds);
    assert((iv - 1) * ds == p.timespan);
    assert(wrap_u32(p.timespan as int) == p.timespan as nat);
    assert(clamp_spec(p.timespan as nat, p.timespan) == p.timespan as nat);
    assert(adjusted_interval_spec(headers, p, h) == p.timespan as nat);
    // the scaled target divides back out exactly
    assert(headers[h - 1].bits == headers[lo].bits);
    assert(retarget_from(headers[h - 1].bits, p.timespan as nat, p.timespan, maxt) == t0) by {
        vstd::arithmetic::power2::lemma_pow2_pos(256);
        vstd::arithmetic::div_mod::lemma_small_mod(
            (t0 * (p.timespan as nat)) as nat,
            pow2(256),
        );
        vstd::arithmetic::div_mod::lemma_div_multiples_vanish(
            t0 as int,
            p.timespan as int,
        );
        assert((p.timespan as int) * (t0 as int) == t0 * (p.timespan as nat))
            by (nonlinear_arith);
    }
}

/// One retarget computation from a seed target: scale the decoded target by
/// the clamped interval, divide by the nominal timespan, cap at the easiest
/// target. The compact rounding is applied by the caller.
fn retarget_target(base_bits: u32, adjusted: u32, params: &NetworkParams) -> (r: U256)
    requires
        wf_params(*params),
    ensures
        r.as_nat() == retarget_from(
            base_bits,
            adjusted as nat,
            params.timespan,
            params.max_target.as_nat(),
        ),
{
    let base = target_from_compact(base_bits);
    let scaled = base.mul_u32(adjusted);
    let ts_u = U256::from_u64(params.timespan as u64);
    let (t2, _rem) = scaled.div_rem(&ts_u);
    if params.max_target.lt(&t2) {
        params.max_target
    } else {
        t2
    }
}

/// The height-`h` instance of the runtime precondition check.
fn check_engine_ok_at(headers: &Vec<BlockHeader>, params: &NetworkParams, h: usize) -> (b: bool)
    requires
        wf_params(*params),
        params.interval < h < headers@.len(),
    ensures
        b == engine_ok(headers@, *params, h as int),
{
    let ghost maxt: nat = params.max_target.as_nat();
    let ghost sp: u32 = params.scale_precision;
    let iv: usize = params.interval as usize;
    let lo: usize = h - iv;
    let zero = U256::zero();
    // the header's own target must decode to a nonzero value
    let own_t = target_from_compact(headers[h].bits);
    if own_t.eq_val(&zero) {
        return false;
    }
    // so must the window-start target, whose difficulty seeds the scale
    let start_t = target_from_compact(headers[lo].bits);
    if start_t.eq_val(&zero) {
        return false;
    }
    let d0 = compact_difficulty(headers[lo].bits, &params.max_target);
    proof {
        assert((d0 as int) * (params.scale_precision as int)
            < 0x1_0000_0000_0000_0000_0000_0000_0000_0000) by (nonlinear_arith)
            requires
                d0 <= 0xffff_ffff_ffff_ffff,
                params.scale_precision <= 0xffff_ffff,
        ;
    }
    let prod128: u128 = d0 as u128 * params.scale_precision as u128;
    if prod128 > 0xffff_ffff_ffff_ffffu128 {
        // the fixed-point start difficulty would not fit a 64-bit word
        return false;
    }
    let sdif: u64 = d0 * params.scale_precision as u64;
    proof {
        assert(sdif as nat == sdif_spec(headers@, maxt, sp, h as int, iv as int));
    }
    let mut sum: i64 = 0;
    let mut i: usize = lo;
    while i < h - 1
        invariant
            lo <= i <= h - 1,
            lo == h - iv,
            iv == params.interval,
            params.interval < h < headers@.len(),
            wf_params(*params),
            maxt == params.max_target.as_nat(),
            sp == params.scale_precision,
            sdif as nat == sdif_spec(headers@, maxt, sp, h as int, iv as int),
            sum as int == interval_sum(headers@, maxt, sp, sdif as nat, lo as int, i as int),
            forall|k: int|
                lo <= k <= i ==> -0x8000_0000 <= #[trigger] interval_sum(
                    headers@,
                    maxt,
                    sp,
                    sdif as nat,
                    lo as int,
                    k,
                ) <= 0x7fff_ffff,
            forall|j: int|
                lo <= j < i ==> #[trigger] single_interval_ok(
                    headers@,
                    maxt,
                    sp,
                    sdif as nat,
                    j,
                ),
            zero.as_nat() == 0,
        decreases h - 1 - i,
    {
        let ti = target_from_compact(headers[i].bits);
        if ti.eq_val(&zero) {
            proof {
                assert(!single_interval_ok(headers@, maxt, sp, sdif as nat, i as int));
            }
            return false;
        }
        let di = compact_difficulty(headers[i].bits, &params.max_target);
        if di == 0 {
            proof {
                assert(!single_interval_ok(headers@, maxt, sp, sdif as nat, i as int));
            }
            return false;
        }
        let scale: u64 = (sdif / di) % 0x1_0000_0000;
        proof {
            assert(scale as nat == scale_spec(headers@[i as int].bits, maxt, sdif as nat));
        }
        let dt: u64 = if headers[i + 1].time < headers[i].time {
            (headers[i].time - headers[i + 1].time) as u64
        } else {
            (headers[i + 1].time - headers[i].time) as u64
        };
        proof {
            assert((dt as int) * (scale as int) < 0x1_0000_0000_0000_0000) by (nonlinear_arith)
                requires
                    dt <= 0xffff_ffff,
                    scale <= 0xffff_ffff,
            ;
        }
        let prod: u64 = dt * scale;
        if prod > 0xffff_ffff {
            // this term's scaled delta does not fit the 32-bit word
            proof {
                assert(!single_interval_ok(headers@, maxt, sp, sdif as nat, i as int));
            }
            return false;
        }
        let q: u64 = prod / params.scale_precision as u64;
        if q > 0x7fff_ffff {
            proof {
                assert(!single_interval_ok(headers@, maxt, sp, sdif as nat, i as int));
            }
            return false;
        }
        proof {
            assert(single_interval_ok(headers@, maxt, sp, sdif as nat, i as int));
        }
        let term: i64 = if headers[i + 1].time < headers[i].time {
            -(q as i64)
        } else {
            q as i64
        };
        proof {
            assert(term as int == single_interval_spec(
                headers@,
                maxt,
                sp,
                sdif as nat,
                i as int,
            ));
        }
        let new_sum: i64 = sum + term;
        if new_sum < -0x8000_0000i64 || new_sum > 0x7fff_ffffi64 {
            // this partial sum leaves the signed 32-bit accumulator
            proof {
                assert(interval_sum(headers@, maxt, sp, sdif as nat, lo as int, i + 1)
                    == new_sum as int);
            }
            return false;
        }
        sum = new_sum;
        i = i + 1;
    }
    proof {
        assert(window_ok(headers@, *params, h as int));
    }
    // both retarget seeds must stay above the rounding floor
    let adjusted_u: u32 = if sum >= 0 {
        sum as u32
    } else {
        (sum + 0x1_0000_0000i64) as u32
    };
    proof {
        assert(adjusted_u as nat == wrap_u32(sum as int));
    }
    let adjusted = clamp_interval(adjusted_u, params.timespan);
    proof {
        assert(adjusted as nat == adjusted_interval_spec(headers@, *params, h as int));
    }
    let floor = U256::from_u64(0x10000);
    let rt1 = retarget_target(headers[h - 1].bits, adjusted, params);
    if rt1.lt(&floor) {
        return false;
    }
    let rt2 = retarget_target(headers[lo].bits, adjusted, params);
    if rt2.lt(&floor) {
        return false;
    }
    proof {
        assert(engine_ok(headers@, *params, h as int));
    }
    true
}

/// Decides at run time whether the engine's arithmetic precondition holds at
/// every height past the bootstrap window, so an unverified caller can test
/// it and fail cleanly before asking for the annotation pass.
pub fn check_engine_ok(headers: &Vec<BlockHeader>, params: &NetworkParams) -> (b: bool)
    requires
        wf_params(*params),
    ensures
        b == forall|h: int|
            params.interval < h < headers@.len() ==> #[trigger] engine_ok(headers@, *params, h),
{
    let n: usize = headers.len();
    let iv: usize = params.interval as usize;
    if n <= iv {
        return true;
    }
    let mut h: usize = iv + 1;
    while h < n
        invariant
            iv + 1 <= h <= n,
            n == headers@.len(),
            iv == params.interval,
            wf_params(*params),
            forall|k: int|
                params.interval < k < h ==> #[trigger] engine_ok(headers@, *params, k),
        decreases n - h,
    {
        if !check_engine_ok_at(headers, params, h) {
            return false;
        }
        h = h + 1;
    }
    true
}

/// Annotates the whole chain with difficulties, validating the recomputed
/// consensus target against the encoded one at every official adjustment
/// point; the first disagreement aborts the pass with the offending height.
pub fn compute_difficulty(headers: &Vec<BlockHeader>, params: &NetworkParams) -> (r: Result<
    Vec<HeaderWithDifficulty>,
    ChainError,
>)
    requires
        wf_params(*params),
        headers@.len() > params.interval as int,
        forall|h: int|
            params.interval < h < headers@.len() ==> #[trigger] engine_ok(headers@, *params, h),
    ensures
        match r {
            Ok(v) => {
                &&& v@.len() == headers@.len()
                &&& forall|h: int|
                    0 <= h < headers@.len() ==> record_ok(headers@, *params, h, #[trigger] v@[h])
                &&& forall|h: int|
                    params.interval < h < headers@.len() ==> #[trigger] boundary_good(
                        headers@,
                        *params,
                        h,
                    )
            },
            Err(e) => {
                &&& e matches ChainError::BadTarget(bh)
                &&& e matches ChainError::BadTarget(bh) ==> {
                    &&& params.interval < bh < headers@.len()
                    &&& !boundary_good(headers@, *params, bh as int)
                    &&& forall|h: int|
                        params.interval < h < bh ==> #[trigger] boundary_good(headers@, *params, h)
                }
            },
        },
{
    let n: usize = headers.len();
    let iv: usize = params.interval as usize;
    let mut out: Vec<HeaderWithDifficulty> = Vec::new();
    let mut j: usize = 0;
    while j < iv + 1
        invariant
            j <= iv + 1,
            iv + 1 <= n,
            n == headers@.len(),
            iv == params.interval,
            out@.len() == j,
            forall|k: int| 0 <= k < j ==> record_ok(headers@, *params, k, #[trigger] out@[k]),
        decreases iv + 1 - j,
    {
        out.push(HeaderWithDifficulty { header: headers[j], difficulty: 1, implied_difficulty: 1 });
        j = j + 1;
    }
    let mut h: usize = iv + 1;
    while h < n
        invariant
            iv + 1 <= h <= n,
            n == headers@.len(),
            iv == params.interval,
            wf_params(*params),
            forall|k: int|
                params.interval < k < headers@.len() ==> #[trigger] engine_ok(headers@, *params, k),
            out@.len() == h,
            forall|k: int| 0 <= k < h ==> record_ok(headers@, *params, k, #[trigger] out@[k]),
            forall|k: int|
                params.interval < k < h ==> #[trigger] boundary_good(headers@, *params, k),
        decreases n - h,
    {
        let ghost maxt: nat = params.max_target.as_nat();
        let ghost sp: u32 = params.scale_precision;
        let lo: usize = h - iv;
        proof {
            assert(engine_ok(headers@, *params, h as int));
        }
        let start_diff = compact_difficulty(headers[lo].bits, &params.max_target);
        let sdif: u64 = start_diff * (params.scale_precision as u64);
        let mut interval: i32 = 0;
        let mut i: usize = lo;
        proof {
            assert(sdif as nat == sdif_spec(headers@, maxt, sp, h as int, iv as int));
        }
        while i < h - 1
            invariant
                lo <= i <= h - 1 || (lo == i && h - 1 < lo),
                lo == h - iv,
                iv == params.interval,
                iv + 1 <= h < n,
                n == headers@.len(),
                wf_params(*params),
                maxt == params.max_target.as_nat(),
                sp == params.scale_precision,
                engine_ok(headers@, *params, h as int),
                sdif as nat == sdif_spec(headers@, maxt, sp, h as int, iv as int),
                interval as int == interval_sum(headers@, maxt, sp, sdif as nat, lo as int, i as int),
            decreases h - 1 - i,
        {
            proof {
                assert(single_interval_ok(headers@, maxt, sp, sdif as nat, i as int));
                assert(-0x8000_0000 <= interval_sum(
                    headers@,
                    maxt,
                    sp,
                    sdif as nat,
                    lo as int,
                    i + 1,
                ) <= 0x7fff_ffff);
            }
            let term = single_interval(headers, params, sdif, i);
            interval = interval + term;
            i = i + 1;
        }
        proof {
            assert(interval as int == interval_sum(
                headers@,
                maxt,
                sp,
                sdif as nat,
                lo as int,
                h - 1,
            ));
        }
        // the signed accumulator is read as an unsigned word, then clamped
        let iu: u32 = if interval >= 0 {
            interval as u32
        } else {
            ((interval as i64) + 0x1_0000_0000i64) as u32
        };
        proof {
            assert(iu as nat == wrap_u32(interval as int));
        }
        let adjusted = clamp_interval(iu, params.timespan);
        proof {
            assert(adjusted as nat == adjusted_interval_spec(headers@, *params, h as int));
        }
        // consensus retarget, seeded from the previous header's target
        let t3 = retarget_target(headers[h - 1].bits, adjusted, params);
        let rounded = t3.compact_precision_round();
        if h % iv == 0 {
            let enc = target_from_compact(headers[h].bits);
            if !rounded.eq_val(&enc) {
                proof {
                    assert(rounded.as_nat() == consensus_target(headers@, *params, h as int));
                    assert(!boundary_good(headers@, *params, h as int));
                }
                return Err(ChainError::BadTarget(h));
            }
        }
        proof {
            assert(boundary_good(headers@, *params, h as int));
        }
        // implied retarget, seeded from the window-start header's target
        let it3 = retarget_target(headers[lo].bits, adjusted, params);
        let irounded = it3.compact_precision_round();
        proof {
            assert(irounded.as_nat() == implied_target(headers@, *params, h as int));
        }
        let (idq, _r3) = params.max_target.div_rem(&irounded);
        let own = compact_difficulty(headers[h].bits, &params.max_target);
        out.push(
            HeaderWithDifficulty {
                header: headers[h],
                difficulty: own,
                implied_difficulty: idq.low_u64(),
            },
        );
        h = h + 1;
    }
    Ok(out)
}

} // verus!
