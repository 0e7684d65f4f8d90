//! Decimation of a run of samples for plotting: each stretch of `spp`
//! samples (or of `spp` microseconds) is replaced by two points holding,
//! per analog channel, a running maximum and a running minimum, in the
//! order in which they were taken. A channel's maximum is its own largest
//! value in the stretch; a value replaces a channel's minimum when it lies
//! below the current minimum of channel 0 (see `upd_one`), so for channels
//! other than 0 the minimum is not in general the channel's own smallest value.

use vstd::prelude::*;
use crate::rtmap::{ACHANELS, RtPoint, PointView, points_view, lemma_points_view_push};
use rayon::iter::{IndexedParallelIterator, IntoParallelRefIterator, ParallelIterator};

verus! {

/// Running extremes of one analog channel. `minfirst` tells which of the two
/// is drawn first when the stretch is emitted.
#[derive(Clone, Copy)]
pub struct Aminmax {
    pub min: i16,
    pub max: i16,
    pub minfirst: bool,
}

impl Aminmax {
    /// One zeroed record per analog channel.
    pub fn new_vec() -> (achs: Vec<Aminmax>)
        ensures
            achs@.len() == ACHANELS,
            forall|x: int|
                0 <= x < ACHANELS ==> #[trigger] achs@[x] == (Aminmax {
                    min: 0,
                    max: 0,
                    minfirst: true,
                }),
    {
        let mut achs: Vec<Aminmax> = Vec::new();
        let mut x: usize = 0;
        while x < ACHANELS
            invariant
                x <= ACHANELS,
                achs@.len() == x,
                forall|k: int|
                    0 <= k < x ==> #[trigger] achs@[k] == (Aminmax { min: 0, max: 0, minfirst: true }),
            decreases ACHANELS - x,
        {
            achs.push(Aminmax { min: 0, max: 0, minfirst: true });
            x = x + 1;
        }
        achs
    }
}

/// Extremes that start at the channel values `a`.
pub open spec fn reset_achs(a: Seq<i16>) -> Seq<Aminmax> {
    Seq::new(ACHANELS as nat, |x: int| Aminmax { min: a[x], max: a[x], minfirst: true })
}

/// Folds the value of channel `k` into the extremes. A new maximum is taken
/// against the channel's own maximum; a new minimum is taken against the
/// current minimum of channel 0.
pub open spec fn upd_one(acs: Seq<Aminmax>, a: Seq<i16>, k: int) -> Seq<Aminmax> {
    let m = acs[k];
    let m1 = if a[k] > m.max {
        Aminmax { min: m.min, max: a[k], minfirst: true }
    } else {
        m
    };
    let m2 = if a[k] < acs[0].min {
        Aminmax { min: a[k], max: m1.max, minfirst: false }
    } else {
        m1
    };
    acs.update(k, m2)
}

/// Folds the first `k` channel values of `a` into the extremes, channel by channel.
pub open spec fn ach_update(acs: Seq<Aminmax>, a: Seq<i16>, k: nat) -> Seq<Aminmax>
    decreases k,
{
    if k == 0 {
        acs
    } else {
        upd_one(ach_update(acs, a, (k - 1) as nat), a, k - 1)
    }
}

/// The channel values of an emitted extreme: channel `x` gets its minimum when
/// its `minfirst` flag equals `first`, else its maximum.
pub open spec fn env_vals(achs: Seq<Aminmax>, first: bool) -> Seq<i16> {
    Seq::new(
        ACHANELS as nat,
        |x: int|
            if achs[x].minfirst == first {
                achs[x].min
            } else {
                achs[x].max
            },
    )
}

/// A sample emitted unchanged (its first `ACHANELS` channels).
pub open spec fn copy_point(p: PointView) -> PointView {
    PointView {
        nan: false,
        timestamp: p.timestamp,
        achanels: p.achanels.subrange(0, ACHANELS as int),
        digital: p.digital,
    }
}

/// Division by two that rounds toward zero, as `i64` division does.
pub open spec fn trunc_half(d: int) -> int {
    if d >= 0 {
        d / 2
    } else {
        -((-d) / 2)
    }
}

/// State of the compressor between two samples of a run.
pub struct ChunkState {
    /// samples folded since the last emitted stretch
    pub t: int,
    pub achs: Seq<Aminmax>,
    /// digital word of the latest change
    pub dig: u64,
    /// digital bits that changed in the stretch
    pub digs: u64,
    /// digital word at the start of the stretch
    pub digf: u64,
    /// time at the start of the stretch
    pub timef: i64,
    pub out: Seq<PointView>,
    /// index of the sample at which the last stretch closed
    pub reti: int,
}

/// The state before any sample but the first has been seen.
pub open spec fn chunk_init(p0: PointView) -> ChunkState {
    ChunkState {
        t: 0,
        achs: reset_achs(p0.achanels),
        dig: p0.digital,
        digs: 0,
        digf: p0.digital,
        timef: p0.timestamp,
        out: Seq::empty(),
        reti: 0,
    }
}

/// The stretch is long enough in time: the elapsed time, taken as `usize`
/// the way `as` does (so that a negative one counts as very long), reaches `spp`.
pub open spec fn time_elapsed(ts: i64, timef: i64, spp: usize) -> bool {
    ((ts - timef) as i64) as usize >= spp
}

/// One sample `p`, at index `i` of a run of `n`, folded into the state.
pub open spec fn chunk_step(st: ChunkState, p: PointView, i: int, n: int, spp: usize) -> ChunkState {
    let achs1 = ach_update(st.achs, p.achanels, ACHANELS as nat);
    let x = st.dig ^ p.digital;
    let dig1 = if x != 0 { p.digital } else { st.dig };
    let digs1 = if x != 0 { st.digs | x } else { st.digs };
    let big = time_elapsed(p.timestamp, st.timef, spp);
    if st.t >= spp || big {
        let out1 = if spp == 1 || st.t == 0 || big {
            if big {
                st.out.push(copy_point(p)).push(copy_point(p))
            } else {
                st.out.push(copy_point(p))
            }
        } else {
            st.out.push(
                PointView {
                    nan: false,
                    timestamp: st.timef,
                    achanels: env_vals(achs1, true),
                    digital: st.digf ^ digs1,
                },
            ).push(
                PointView {
                    nan: false,
                    timestamp: (st.timef + trunc_half(p.timestamp - st.timef)) as i64,
                    achanels: env_vals(achs1, false),
                    digital: p.digital,
                },
            )
        };
        ChunkState {
            t: 0,
            achs: reset_achs(p.achanels),
            dig: p.digital,
            digs: 0,
            digf: p.digital,
            timef: p.timestamp,
            out: out1,
            reti: i,
        }
    } else if spp > 1 && i == n - 1 {
        ChunkState {
            t: st.t + 1,
            achs: achs1,
            dig: dig1,
            digs: digs1,
            digf: st.digf,
            timef: st.timef,
            out: st.out.push(
                PointView {
                    nan: false,
                    timestamp: st.timef,
                    achanels: env_vals(achs1, true),
                    digital: st.digf ^ digs1,
                },
            ).push(copy_point(p)),
            reti: if st.t + 1 >= spp { i } else { st.reti },
        }
    } else {
        ChunkState { t: st.t + 1, achs: achs1, dig: dig1, digs: digs1, ..st }
    }
}

/// The state after the first `k` samples of the run `s`.
pub open spec fn chunk_run(s: Seq<PointView>, k: nat, spp: usize) -> ChunkState
    decreases k,
{
    if k == 0 {
        chunk_init(s[0])
    } else {
        chunk_step(chunk_run(s, (k - 1) as nat, spp), s[k - 1], k - 1, s.len() as int, spp)
    }
}

/// The points emitted for the run `s` and the index at which its last stretch closed.
pub open spec fn compress_run(s: Seq<PointView>, spp: usize) -> (Seq<PointView>, int) {
    let st = chunk_run(s, s.len(), spp);
    (st.out, st.reti)
}

/// Every sample has all analog channels and any two timestamps differ by an `i64`.
pub open spec fn run_ok(s: Seq<PointView>) -> bool {
    &&& forall|i: int| 0 <= i < s.len() ==> #[trigger] s[i].achanels.len() >= ACHANELS
    &&& forall|i: int, j: int|
        0 <= i < s.len() && 0 <= j < s.len() ==> i64::MIN <= #[trigger] s[i].timestamp
            - #[trigger] s[j].timestamp <= i64::MAX
}

fn copy_sample(p: &RtPoint) -> (r: RtPoint)
    requires
        p.achanels@.len() >= ACHANELS,
    ensures
        r@ == copy_point(p@),
{
    let mut achanels: Vec<i16> = Vec::new();
    let mut x: usize = 0;
    while x < ACHANELS
        invariant
            x <= ACHANELS,
            p.achanels@.len() >= ACHANELS,
            achanels@ =~= p.achanels@.subrange(0, x as int),
        decreases ACHANELS - x,
    {
        achanels.push(p.achanels[x]);
        x = x + 1;
    }
    RtPoint { nan: false, timestamp: p.timestamp, achanels, digital: p.digital }
}

fn extreme_sample(timestamp: i64, achs: &Vec<Aminmax>, first: bool, digital: u64) -> (r: RtPoint)
    requires
        achs@.len() == ACHANELS,
    ensures
        r@ == (PointView { nan: false, timestamp, achanels: env_vals(achs@, first), digital }),
{
    let mut achanels: Vec<i16> = Vec::new();
    let mut x: usize = 0;
    while x < ACHANELS
        invariant
            x <= ACHANELS,
            achs@.len() == ACHANELS,
            achanels@ =~= env_vals(achs@, first).subrange(0, x as int),
        decreases ACHANELS - x,
    {
        let m = achs[x];
        let v = if m.minfirst == first { m.min } else { m.max };
        achanels.push(v);
        x = x + 1;
    }
    assert(achanels@ =~= env_vals(achs@, first));
    RtPoint { nan: false, timestamp, achanels, digital }
}

fn reset_extremes(achs: &mut Vec<Aminmax>, p: &RtPoint)
    requires
        old(achs)@.len() == ACHANELS,
        p.achanels@.len() >= ACHANELS,
    ensures
        final(achs)@ == reset_achs(p.achanels@),
{
    let mut x: usize = 0;
    while x < ACHANELS
        invariant
            x <= ACHANELS,
            achs@.len() == ACHANELS,
            p.achanels@.len() >= ACHANELS,
            forall|k: int| 0 <= k < x ==> #[trigger] achs@[k] == reset_achs(p.achanels@)[k],
        decreases ACHANELS - x,
    {
        let v = p.achanels[x];
        achs.set(x, Aminmax { min: v, max: v, minfirst: true });
        x = x + 1;
    }
    assert(achs@ =~= reset_achs(p.achanels@));
}

fn fold_extremes(achs: &mut Vec<Aminmax>, p: &RtPoint)
    requires
        old(achs)@.len() == ACHANELS,
        p.achanels@.len() >= ACHANELS,
    ensures
        final(achs)@ == ach_update(old(achs)@, p.achanels@, ACHANELS as nat),
        final(achs)@.len() == ACHANELS,
        forall|x: int|
            0 <= x < ACHANELS ==> #[trigger] final(achs)@[x].max == (if p.achanels@[x] > old(achs)@[x].max {
                p.achanels@[x]
            } else {
                old(achs)@[x].max
            }),
{
    let ghost start = achs@;
    proof {
        lemma_fold_max(achs@, p.achanels@);
    }
    let mut x: usize = 0;
    while x < ACHANELS
        invariant
            x <= ACHANELS,
            p.achanels@.len() >= ACHANELS,
            start.len() == ACHANELS,
            achs@ == ach_update(start, p.achanels@, x as nat),
            achs@.len() == ACHANELS,
        decreases ACHANELS - x,
    {
        proof {
            lemma_ach_update_len(start, p.achanels@, x as nat);
        }
        let v = p.achanels[x];
        let m = achs[x];
        let mut m1 = m;
        if v > m.max {
            m1 = Aminmax { min: m.min, max: v, minfirst: true };
        }
        let c = achs[0].min;
        let mut m2 = m1;
        if v < c {
            m2 = Aminmax { min: v, max: m1.max, minfirst: false };
        }
        achs.set(x, m2);
        x = x + 1;
    }
    proof {
        lemma_ach_update_len(start, p.achanels@, ACHANELS as nat);
    }
}

proof fn lemma_ach_update_len(acs: Seq<Aminmax>, a: Seq<i16>, k: nat)
    requires
        k <= acs.len(),
    ensures
        ach_update(acs, a, k).len() == acs.len(),
    decreases k,
{
    if k > 0 {
        lemma_ach_update_len(acs, a, (k - 1) as nat);
    }
}


/// Compresses the samples `all[lo..hi]` with `spp` samples (or microseconds)
/// per stretch; returns the emitted points and the index, within the run, at
/// which the last stretch closed.
pub fn compress_range(all: &[RtPoint], lo: usize, hi: usize, spp: usize) -> (r: (Vec<RtPoint>, usize))
    requires
        lo < hi <= all@.len(),
        run_ok(points_view(all@).subrange(lo as int, hi as int)),
    ensures
        (points_view(r.0@), r.1 as int) == compress_run(
            points_view(all@).subrange(lo as int, hi as int),
            spp,
        ),
{
    let ghost sv = points_view(all@).subrange(lo as int, hi as int);
    let n: usize = hi - lo;
    let p0 = &all[lo];
    assert(sv[0] == p0@);
    assert(sv[0].achanels.len() >= ACHANELS);
    let mut achs = Aminmax::new_vec();
    reset_extremes(&mut achs, p0);
    let mut t: usize = 0;
    let mut dig: u64 = p0.digital;
    let mut digs: u64 = 0;
    let mut digf: u64 = dig;
    let mut timef: i64 = p0.timestamp;
    let mut out: Vec<RtPoint> = Vec::new();
    let mut reti: usize = 0;
    let ghost mut tf: int = 0;
    assert(points_view(out@) =~= Seq::<PointView>::empty());
    let mut i: usize = 0;
    while i < n
        invariant
            n == hi - lo,
            lo < hi <= all@.len(),
            sv == points_view(all@).subrange(lo as int, hi as int),
            sv.len() == n,
            run_ok(sv),
            i <= n,
            achs@.len() == ACHANELS,
            t <= i,
            reti < n,
            0 <= tf < n,
            timef == sv[tf].timestamp,
            (ChunkState {
                t: t as int,
                achs: achs@,
                dig,
                digs,
                digf,
                timef,
                out: points_view(out@),
                reti: reti as int,
            }) == chunk_run(sv, i as nat, spp),
        decreases n - i,
    {
        let p = &all[lo + i];
        assert(sv[i as int] == p@);
        assert(p.achanels@.len() >= ACHANELS) by {
            assert(sv[i as int].achanels.len() >= ACHANELS);
        }
        let ghost pre = chunk_run(sv, i as nat, spp);
        fold_extremes(&mut achs, p);
        let x = dig ^ p.digital;
        if x != 0 {
            digs = digs | x;
            dig = p.digital;
        }
        assert(i64::MIN <= sv[i as int].timestamp - sv[tf].timestamp <= i64::MAX);
        let d: i64 = p.timestamp - timef;
        let big: bool = (#[verifier::truncate] (d as usize)) >= spp;
        assert(big == time_elapsed(p.timestamp, pre.timef, spp));
        if t >= spp || big {
            if spp == 1 || t == 0 || big {
                let c1 = copy_sample(p);
                proof { lemma_points_view_push(out@, c1); }
                out.push(c1);
                if big {
                    let c2 = copy_sample(p);
                    proof { lemma_points_view_push(out@, c2); }
                    out.push(c2);
                }
            } else {
                let e1 = extreme_sample(timef, &achs, true, digf ^ digs);
                proof { lemma_points_view_push(out@, e1); }
                out.push(e1);
                let timee: i64 = if d >= 0 {
                    d / 2
                } else {
                    let e: i64 = -(d + 1);
                    -(e / 2 + e % 2)
                };
                assert(timee == trunc_half(d as int));
                let e2 = extreme_sample(timef + timee, &achs, false, p.digital);
                proof { lemma_points_view_push(out@, e2); }
                out.push(e2);
            }
            reset_extremes(&mut achs, p);
            timef = p.timestamp;
            proof { tf = i as int; }
            digs = 0;
            dig = p.digital;
            digf = dig;
            t = 0;
            reti = i;
        } else {
            t = t + 1;
            if spp > 1 && i == n - 1 {
                if t >= spp || big {
                    reti = i;
                }
                let e1 = extreme_sample(timef, &achs, true, digf ^ digs);
                proof { lemma_points_view_push(out@, e1); }
                out.push(e1);
                let c1 = copy_sample(p);
                proof { lemma_points_view_push(out@, c1); }
                out.push(c1);
            }
        }
        i = i + 1;
    }
    (out, reti)
}


/// Number of parts a run of `n` samples is cut into for parallel work.
pub open spec fn ndiv_of(n: int) -> int {
    if n > 10000 {
        100
    } else {
        1
    }
}

/// First index of part `k`.
pub open spec fn part_lo(n: int, k: int) -> int {
    k * (n / ndiv_of(n))
}

/// End (exclusive) of part `k`; the last part takes the remainder.
pub open spec fn part_hi(n: int, k: int) -> int {
    if k < ndiv_of(n) - 1 {
        (k + 1) * (n / ndiv_of(n))
    } else {
        n
    }
}

/// Part `k` of the samples `s`.
pub open spec fn part_of(s: Seq<PointView>, k: int) -> Seq<PointView> {
    s.subrange(part_lo(s.len() as int, k), part_hi(s.len() as int, k))
}

/// The points emitted for the first `k` parts, one after the other.
pub open spec fn parts_out(s: Seq<PointView>, spp: usize, k: nat) -> Seq<PointView>
    decreases k,
{
    if k == 0 {
        Seq::empty()
    } else {
        parts_out(s, spp, (k - 1) as nat) + compress_run(part_of(s, k - 1), spp).0
    }
}

/// What `swap_compressor` computes: the points of all parts, and the index in
/// `s` at which the last stretch of the last part closed.
pub open spec fn compressed(s: Seq<PointView>, spp: usize) -> (Seq<PointView>, int) {
    let nd = ndiv_of(s.len() as int);
    (
        parts_out(s, spp, nd as nat),
        compress_run(part_of(s, nd - 1), spp).1 + (nd - 1) * ((s.len() as int) / nd),
    )
}

/// Every part satisfies `run_ok`.
pub open spec fn compress_input_ok(s: Seq<PointView>) -> bool {
    forall|k: int| 0 <= k < ndiv_of(s.len() as int) ==> #[trigger] run_ok(part_of(s, k))
}

/// Compresses the runs `all[b.0..b.1]` for each `b` of `bounds` in parallel
/// with rayon, each by `compress_range`.
///
/// Trusted: rayon's `par_iter().map(..).collect_into_vec(..)` calls the
/// closure once per element and stores the results in the order of `bounds`.
#[verifier::external_body]
fn compress_parts_parallel(all: &[RtPoint], bounds: &Vec<(usize, usize)>, spp: usize) -> (r: Vec<(Vec<RtPoint>, usize)>)
    requires
        forall|i: int|
            0 <= i < bounds@.len() ==> #[trigger] bounds@[i].0 < bounds@[i].1 <= all@.len()
                && run_ok(points_view(all@).subrange(bounds@[i].0 as int, bounds@[i].1 as int)),
    ensures
        r@.len() == bounds@.len(),
        forall|i: int|
            0 <= i < bounds@.len() ==> (points_view(#[trigger] r@[i].0@), r@[i].1 as int)
                == compress_run(
                points_view(all@).subrange(bounds@[i].0 as int, bounds@[i].1 as int),
                spp,
            ),
{
    let mut out: Vec<(Vec<RtPoint>, usize)> = Vec::new();
    bounds.par_iter().map(|b| compress_range(all, b.0, b.1, spp)).collect_into_vec(&mut out);
    out
}

proof fn lemma_part_bounds(n: int, k: int)
    requires
        n > 0,
        0 <= k < ndiv_of(n),
    ensures
        0 <= part_lo(n, k) < part_hi(n, k) <= n,
        k < ndiv_of(n) - 1 ==> part_hi(n, k) == part_lo(n, k + 1),
{
    if n > 10000 {
        let sl = n / 100;
        assert(sl * 100 <= n && sl >= 100);
        assert(0 <= k * sl <= 99 * sl) by (nonlinear_arith)
            requires
                0 <= k <= 99,
                sl >= 0,
        ;
        if k < 99 {
            assert(k * sl < (k + 1) * sl <= 99 * sl) by (nonlinear_arith)
                requires
                    0 <= k < 99,
                    sl >= 1,
            ;
        }
    } else {
        assert(k == 0);
        assert(part_lo(n, k) == 0);
    }
}

/// Compresses the samples for plotting with `spp` samples (or microseconds)
/// per stretch. Long runs are cut into parts that are compressed in
/// parallel. Returns the emitted points and the index of the sample at
/// which the last stretch closed; an empty input or `spp == 0` is an error.
pub fn swap_compressor(inrtmap: &[RtPoint], spp: usize) -> (r: Result<(Vec<RtPoint>, usize), &'static str>)
    requires
        inrtmap@.len() > 0 && spp > 0 ==> compress_input_ok(points_view(inrtmap@)),
    ensures
        r is Err <==> (inrtmap@.len() == 0 || spp == 0),
        r matches Err(e) ==> e == "compressor index error",
        r matches Ok(v) ==> (points_view(v.0@), v.1 as int) == compressed(points_view(inrtmap@), spp),
        r matches Ok(v) ==> v.1 < inrtmap@.len(),
{
    if inrtmap.len() == 0 || spp == 0 {
        return Err("compressor index error");
    }
    let ghost sv = points_view(inrtmap@);
    let n: usize = inrtmap.len();
    let ndiv: usize = if n > 10000 { 100 } else { 1 };
    let sldiv: usize = n / ndiv;
    let mut bounds: Vec<(usize, usize)> = Vec::new();
    let mut i: usize = 0;
    while i < ndiv
        invariant
            n == inrtmap@.len(),
            n > 0,
            sv == points_view(inrtmap@),
            ndiv == ndiv_of(n as int),
            sldiv == n / ndiv,
            compress_input_ok(sv),
            i <= ndiv,
            bounds@.len() == i,
            forall|k: int|
                0 <= k < i ==> #[trigger] bounds@[k].0 as int == part_lo(n as int, k)
                    && bounds@[k].1 as int == part_hi(n as int, k) && bounds@[k].0 < bounds@[k].1 <= n && run_ok(
                    points_view(inrtmap@).subrange(bounds@[k].0 as int, bounds@[k].1 as int),
                ),
        decreases ndiv - i,
    {
        proof {
            lemma_part_bounds(n as int, i as int);
            assert(run_ok(part_of(sv, i as int)));
        }
        let lo: usize = i * sldiv;
        let hi: usize = if i < ndiv - 1 { (i + 1) * sldiv } else { n };
        bounds.push((lo, hi));
        i = i + 1;
    }
    let mut parts = compress_parts_parallel(inrtmap, &bounds, spp);
    let ghost all_parts = parts@;
    assert forall|j: int| 0 <= j < ndiv implies points_view(inrtmap@).subrange(
        bounds@[j].0 as int,
        bounds@[j].1 as int,
    ) == part_of(sv, j) by {
        lemma_part_bounds(n as int, j);
    }
    let reti_last: usize = parts[ndiv - 1].1;
    let mut rtswap: Vec<RtPoint> = Vec::new();
    let mut k: usize = 0;
    while k < ndiv
        invariant
            n == inrtmap@.len(),
            n > 0,
            sv == points_view(inrtmap@),
            ndiv == ndiv_of(n as int),
            bounds@.len() == ndiv,
            all_parts.len() == ndiv,
            k <= ndiv,
            parts@ == all_parts.subrange(k as int, ndiv as int),
            forall|j: int|
                0 <= j < ndiv ==> (points_view(#[trigger] all_parts[j].0@), all_parts[j].1 as int)
                    == compress_run(part_of(sv, j), spp),
            points_view(rtswap@) == parts_out(sv, spp, k as nat),
        decreases ndiv - k,
    {
        let (mut pts, _r) = parts.remove(0);
        assert(pts == all_parts[k as int].0);
        let ghost before = rtswap@;
        rtswap.append(&mut pts);
        assert(points_view(rtswap@) =~= points_view(before) + points_view(all_parts[k as int].0@));
        k = k + 1;
        assert(parts@ =~= all_parts.subrange(k as int, ndiv as int));
    }
    proof {
        lemma_part_bounds(n as int, ndiv - 1);
        assert(compress_run(part_of(sv, ndiv - 1), spp).1 < part_hi(n as int, ndiv - 1) - part_lo(n as int, ndiv - 1)) by {
            lemma_run_reti_bound(part_of(sv, ndiv - 1), spp);
        }
    }
    assert(reti_last == all_parts[ndiv - 1].1);
    assert((points_view(all_parts[ndiv - 1].0@), all_parts[ndiv - 1].1 as int) == compress_run(
        part_of(sv, ndiv - 1),
        spp,
    ));
    assert((ndiv - 1) * sldiv == part_lo(n as int, ndiv - 1));
    let reti: usize = reti_last + (ndiv - 1) * sldiv;
    Ok((rtswap, reti))
}

fn run_fits(all: &[RtPoint], lo: usize, hi: usize) -> (r: bool)
    requires
        lo < hi <= all@.len(),
    ensures
        r == run_ok(points_view(all@).subrange(lo as int, hi as int)),
{
    let ghost s = points_view(all@).subrange(lo as int, hi as int);
    let mut mn: i64 = all[lo].timestamp;
    let mut mx: i64 = mn;
    let ghost mut imn: int = 0;
    let ghost mut imx: int = 0;
    assert(s[0].timestamp == mn);
    let mut i: usize = lo;
    while i < hi
        invariant
            lo < hi <= all@.len(),
            s == points_view(all@).subrange(lo as int, hi as int),
            lo <= i <= hi,
            0 <= imn < hi - lo,
            0 <= imx < hi - lo,
            s[imn].timestamp == mn,
            s[imx].timestamp == mx,
            forall|j: int| 0 <= j < i - lo ==> mn <= #[trigger] s[j].timestamp <= mx,
            forall|j: int| 0 <= j < i - lo ==> #[trigger] s[j].achanels.len() >= ACHANELS,
        decreases hi - i,
    {
        assert(s[i - lo] == all@[i as int]@);
        if all[i].achanels.len() < ACHANELS {
            assert(s[i - lo].achanels.len() < ACHANELS);
            return false;
        }
        let t = all[i].timestamp;
        if t < mn {
            mn = t;
            proof { imn = i - lo; }
        }
        if t > mx {
            mx = t;
            proof { imx = i - lo; }
        }
        i = i + 1;
    }
    let fits: bool = (mx as i128) - (mn as i128) <= i64::MAX as i128;
    proof {
        if !fits {
            assert(!(s[imx].timestamp - s[imn].timestamp <= i64::MAX));
        } else {
            assert forall|a: int, b: int| 0 <= a < s.len() && 0 <= b < s.len() implies i64::MIN
                <= #[trigger] s[a].timestamp - #[trigger] s[b].timestamp <= i64::MAX by {
                assert(mn <= s[a].timestamp <= mx);
                assert(mn <= s[b].timestamp <= mx);
            }
        }
    }
    fits
}

/// Tells whether `swap_compressor` may be called on the samples: every part
/// they are cut into has all analog channels and a span of time that fits an `i64`.
pub fn compress_input_fits(inrtmap: &[RtPoint]) -> (r: bool)
    ensures
        r == (inrtmap@.len() > 0 ==> compress_input_ok(points_view(inrtmap@))),
{
    let n = inrtmap.len();
    if n == 0 {
        return true;
    }
    let ghost sv = points_view(inrtmap@);
    let ndiv: usize = if n > 10000 { 100 } else { 1 };
    let sldiv: usize = n / ndiv;
    let mut i: usize = 0;
    while i < ndiv
        invariant
            n == inrtmap@.len(),
            n > 0,
            sv == points_view(inrtmap@),
            ndiv == ndiv_of(n as int),
            sldiv == n / ndiv,
            i <= ndiv,
            forall|k: int| 0 <= k < i ==> #[trigger] run_ok(part_of(sv, k)),
        decreases ndiv - i,
    {
        proof {
            lemma_part_bounds(n as int, i as int);
        }
        let lo: usize = i * sldiv;
        let hi: usize = if i < ndiv - 1 { (i + 1) * sldiv } else { n };
        if !run_fits(inrtmap, lo, hi) {
            assert(!run_ok(part_of(sv, i as int)));
            return false;
        }
        i = i + 1;
    }
    true
}

/// The value `v` occurs in channel `x` among the first `k` samples of `s`.
pub open spec fn seen(s: Seq<PointView>, k: int, x: int, v: i16) -> bool {
    exists|j: int| 0 <= j < k && #[trigger] s[j].achanels[x] == v
}

proof fn lemma_seen_grow(s: Seq<PointView>, k: int, k2: int, x: int, v: i16)
    requires
        seen(s, k, x, v),
        k <= k2,
    ensures
        seen(s, k2, x, v),
{
    let j = choose|j: int| 0 <= j < k && #[trigger] s[j].achanels[x] == v;
    assert(s[j].achanels[x] == v);
}

/// Folding channel values changes the extremes of channel `x` only to the
/// value of channel `x` itself.
proof fn lemma_ach_update_values(acs: Seq<Aminmax>, a: Seq<i16>, kk: nat, x: int)
    requires
        kk <= acs.len(),
        0 <= x < acs.len(),
    ensures
        ach_update(acs, a, kk).len() == acs.len(),
        ach_update(acs, a, kk)[x].min == acs[x].min || ach_update(acs, a, kk)[x].min == a[x],
        ach_update(acs, a, kk)[x].max == acs[x].max || ach_update(acs, a, kk)[x].max == a[x],
    decreases kk,
{
    lemma_ach_update_len(acs, a, kk);
    if kk > 0 {
        lemma_ach_update_values(acs, a, (kk - 1) as nat, x);
        lemma_ach_update_len(acs, a, (kk - 1) as nat);
    }
}

/// The points emitted by one step carry only values seen so far.
proof fn lemma_step_values(s: Seq<PointView>, k: int, st: ChunkState, spp: usize)
    requires
        1 <= k <= s.len(),
        s[k - 1].achanels.len() >= ACHANELS,
        ach_update(st.achs, s[k - 1].achanels, ACHANELS as nat).len() == ACHANELS,
        forall|o: int, x: int|
            0 <= o < st.out.len() && 0 <= x < ACHANELS ==> seen(s, k - 1, x, #[trigger] st.out[o].achanels[x]),
        forall|x: int|
            0 <= x < ACHANELS ==> seen(s, k, x, #[trigger] ach_update(st.achs, s[k - 1].achanels, ACHANELS as nat)[x].min)
                && seen(s, k, x, ach_update(st.achs, s[k - 1].achanels, ACHANELS as nat)[x].max),
    ensures
        forall|o: int, x: int|
            0 <= o < chunk_step(st, s[k - 1], k - 1, s.len() as int, spp).out.len() && 0 <= x < ACHANELS ==> seen(
                s,
                k,
                x,
                #[trigger] chunk_step(st, s[k - 1], k - 1, s.len() as int, spp).out[o].achanels[x],
            ),
{
    let i = k - 1;
    let p = s[i];
    let achs1 = ach_update(st.achs, p.achanels, ACHANELS as nat);
    let nst = chunk_step(st, p, i, s.len() as int, spp);
    assert forall|o: int, x: int| 0 <= o < nst.out.len() && 0 <= x < ACHANELS implies seen(s, k, x, #[trigger] nst.out[o].achanels[x]) by {
        if o < st.out.len() {
            assert(nst.out[o] == st.out[o]);
            lemma_seen_grow(s, i, k, x, st.out[o].achanels[x]);
        } else {
            assert(s[i].achanels[x] == p.achanels[x]);
            let big = time_elapsed(p.timestamp, st.timef, spp);
            let lo = env_vals(achs1, true);
            let hi = env_vals(achs1, false);
            assert(lo[x] == achs1[x].min || lo[x] == achs1[x].max);
            assert(hi[x] == achs1[x].min || hi[x] == achs1[x].max);
            assert(copy_point(p).achanels[x] == p.achanels[x]);
            if st.t >= spp || big {
                if spp == 1 || st.t == 0 || big {
                    assert(nst.out[o] == copy_point(p));
                } else {
                    assert(nst.out[o].achanels == lo || nst.out[o].achanels == hi);
                }
            } else {
                assert(nst.out[o].achanels == lo || nst.out[o] == copy_point(p));
            }
        }
    }
}

/// What holds of the state after `k` samples of a well-formed run.
pub open spec fn state_inv(s: Seq<PointView>, k: int, st: ChunkState) -> bool {
    let k1 = if k == 0 { 1 } else { k };
    &&& st.achs.len() == ACHANELS
    &&& forall|x: int|
        0 <= x < ACHANELS ==> seen(s, k1, x, #[trigger] st.achs[x].min) && seen(s, k1, x, st.achs[x].max)
    &&& forall|o: int|
        0 <= o < st.out.len() ==> (#[trigger] st.out[o]).achanels.len() == ACHANELS
    &&& forall|o: int, x: int|
        0 <= o < st.out.len() && 0 <= x < ACHANELS ==> seen(s, k, x, #[trigger] st.out[o].achanels[x])
    &&& exists|j: int| 0 <= j < k1 && #[trigger] s[j].timestamp == st.timef
    &&& crate::rtmap::sorted_by_time(s) ==> forall|o: int|
        0 <= o < st.out.len() ==> s[0].timestamp <= #[trigger] st.out[o].timestamp <= s[k - 1].timestamp
}

#[verifier::spinoff_prover]
proof fn lemma_chunk_inv(s: Seq<PointView>, k: nat, spp: usize)
    requires
        s.len() > 0,
        k <= s.len(),
        run_ok(s),
    ensures
        state_inv(s, k as int, chunk_run(s, k, spp)),
    decreases k,
{
    assert(s[0].achanels.len() >= ACHANELS);
    if k == 0 {
        let st = chunk_run(s, 0, spp);
        assert forall|x: int| 0 <= x < ACHANELS implies seen(s, 1, x, #[trigger] st.achs[x].min) && seen(s, 1, x, st.achs[x].max) by {
            assert(s[0].achanels[x] == st.achs[x].min);
        }
        assert(s[0].timestamp == st.timef);
    } else {
        let i = k - 1;
        lemma_chunk_inv(s, (k - 1) as nat, spp);
        let st = chunk_run(s, (k - 1) as nat, spp);
        let p = s[i];
        let k0 = if i == 0 { 1 } else { i };
        assert(p.achanels.len() >= ACHANELS);
        let achs1 = ach_update(st.achs, p.achanels, ACHANELS as nat);
        lemma_ach_update_len(st.achs, p.achanels, ACHANELS as nat);
        assert forall|x: int| 0 <= x < ACHANELS implies seen(s, k as int, x, #[trigger] achs1[x].min) && seen(s, k as int, x, achs1[x].max) by {
            lemma_ach_update_values(st.achs, p.achanels, ACHANELS as nat, x);
            assert(s[i].achanels[x] == p.achanels[x]);
            if achs1[x].min == st.achs[x].min {
                lemma_seen_grow(s, k0, k as int, x, achs1[x].min);
            }
            if achs1[x].max == st.achs[x].max {
                lemma_seen_grow(s, k0, k as int, x, achs1[x].max);
            }
        }
        let tj = choose|j: int| 0 <= j < k0 && #[trigger] s[j].timestamp == st.timef;
        let nst = chunk_run(s, k, spp);
        assert(nst == chunk_step(st, p, i, s.len() as int, spp));
        // channel values of every emitted point
        lemma_step_values(s, k as int, st, spp);
        assert forall|o: int| 0 <= o < nst.out.len() implies (#[trigger] nst.out[o]).achanels.len() == ACHANELS by {
            if o < st.out.len() {
                assert(nst.out[o] == st.out[o]);
            }
        }
        // the start of the stretch is a sample
        assert(exists|j: int| 0 <= j < k && #[trigger] s[j].timestamp == nst.timef) by {
            if nst.timef == p.timestamp {
                assert(s[i].timestamp == nst.timef);
            } else {
                assert(s[tj].timestamp == nst.timef);
            }
        }
        if crate::rtmap::sorted_by_time(s) {
            assert(s[0].timestamp <= st.timef <= p.timestamp);
            assert forall|o: int| 0 <= o < nst.out.len() implies s[0].timestamp <= #[trigger] nst.out[o].timestamp <= s[k - 1].timestamp by {
                if o < st.out.len() {
                    assert(nst.out[o] == st.out[o]);
                    assert(s[i - 1].timestamp <= s[k - 1].timestamp);
                } else {
                    let d = p.timestamp - st.timef;
                    assert(0 <= trunc_half(d) <= d);
                }
            }
        }
        assert(state_inv(s, k as int, nst));
    }
}

/// Compressing a run emits only values that its samples took: each channel
/// value of an emitted point is the value of that channel in some sample of the run.
pub proof fn lemma_compress_run_values(s: Seq<PointView>, spp: usize)
    requires
        s.len() > 0,
        run_ok(s),
    ensures
        forall|o: int, x: int|
            0 <= o < compress_run(s, spp).0.len() && 0 <= x < ACHANELS ==> seen(
                s,
                s.len() as int,
                x,
                #[trigger] compress_run(s, spp).0[o].achanels[x],
            ),
        forall|o: int|
            0 <= o < compress_run(s, spp).0.len() ==> (#[trigger] compress_run(s, spp).0[o]).achanels.len()
                == ACHANELS,
{
    lemma_chunk_inv(s, s.len(), spp);
}

/// Compressing a run ordered by time never leaves its time range: every
/// emitted point lies between the first and the last sample.
pub proof fn lemma_compress_run_times(s: Seq<PointView>, spp: usize)
    requires
        s.len() > 0,
        run_ok(s),
        crate::rtmap::sorted_by_time(s),
    ensures
        forall|o: int|
            0 <= o < compress_run(s, spp).0.len() ==> s[0].timestamp <= #[trigger] compress_run(
                s,
                spp,
            ).0[o].timestamp <= s[s.len() - 1].timestamp,
{
    lemma_chunk_inv(s, s.len(), spp);
}

proof fn lemma_parts_out(s: Seq<PointView>, spp: usize, k: nat)
    requires
        s.len() > 0,
        k <= ndiv_of(s.len() as int),
        compress_input_ok(s),
    ensures
        forall|o: int, x: int|
            0 <= o < parts_out(s, spp, k).len() && 0 <= x < ACHANELS ==> seen(
                s,
                s.len() as int,
                x,
                #[trigger] parts_out(s, spp, k)[o].achanels[x],
            ),
        crate::rtmap::sorted_by_time(s) ==> forall|o: int|
            0 <= o < parts_out(s, spp, k).len() ==> s[0].timestamp <= #[trigger] parts_out(
                s,
                spp,
                k,
            )[o].timestamp <= s[s.len() - 1].timestamp,
    decreases k,
{
    if k > 0 {
        let n = s.len() as int;
        let kk = k - 1;
        lemma_parts_out(s, spp, kk as nat);
        lemma_part_bounds(n, kk);
        let part = part_of(s, kk);
        let lo = part_lo(n, kk);
        let hi = part_hi(n, kk);
        assert(run_ok(part));
        lemma_compress_run_values(part, spp);
        let prev = parts_out(s, spp, kk as nat);
        let cur = compress_run(part, spp).0;
        let all = parts_out(s, spp, k);
        assert(all == prev + cur);
        assert forall|o: int, x: int| 0 <= o < all.len() && 0 <= x < ACHANELS implies seen(
            s,
            n,
            x,
            #[trigger] all[o].achanels[x],
        ) by {
            if o < prev.len() {
                assert(all[o] == prev[o]);
            } else {
                assert(all[o] == cur[o - prev.len()]);
                assert(seen(part, part.len() as int, x, cur[o - prev.len()].achanels[x]));
                let j = choose|j: int| 0 <= j < part.len() && #[trigger] part[j].achanels[x] == cur[o - prev.len()].achanels[x];
                assert(s[lo + j].achanels[x] == part[j].achanels[x]);
            }
        }
        if crate::rtmap::sorted_by_time(s) {
            assert(crate::rtmap::sorted_by_time(part));
            lemma_compress_run_times(part, spp);
            assert forall|o: int| 0 <= o < all.len() implies s[0].timestamp <= #[trigger] all[o].timestamp
                <= s[n - 1].timestamp by {
                if o < prev.len() {
                    assert(all[o] == prev[o]);
                } else {
                    assert(all[o] == cur[o - prev.len()]);
                    assert(part[0] == s[lo]);
                    assert(part[part.len() - 1] == s[hi - 1]);
                }
            }
        }
    }
}

/// `swap_compressor` emits only values its input took: each channel value
/// of an emitted point is the value of that channel in some input sample.
pub proof fn lemma_compressed_values(s: Seq<PointView>, spp: usize)
    requires
        s.len() > 0,
        compress_input_ok(s),
    ensures
        forall|o: int, x: int|
            0 <= o < compressed(s, spp).0.len() && 0 <= x < ACHANELS ==> seen(
                s,
                s.len() as int,
                x,
                #[trigger] compressed(s, spp).0[o].achanels[x],
            ),
{
    lemma_parts_out(s, spp, ndiv_of(s.len() as int) as nat);
}

/// On input ordered by time, `swap_compressor` emits points within the time
/// range of its input.
pub proof fn lemma_compressed_times(s: Seq<PointView>, spp: usize)
    requires
        s.len() > 0,
        compress_input_ok(s),
        crate::rtmap::sorted_by_time(s),
    ensures
        forall|o: int|
            0 <= o < compressed(s, spp).0.len() ==> s[0].timestamp <= #[trigger] compressed(
                s,
                spp,
            ).0[o].timestamp <= s[s.len() - 1].timestamp,
{
    lemma_parts_out(s, spp, ndiv_of(s.len() as int) as nat);
}

/// The index at which the last stretch closed lies in the run.
proof fn lemma_run_reti_bound(s: Seq<PointView>, spp: usize)
    requires
        s.len() > 0,
    ensures
        0 <= compress_run(s, spp).1 < s.len(),
{
    lemma_chunk_reti(s, s.len(), spp);
}

proof fn lemma_chunk_reti(s: Seq<PointView>, k: nat, spp: usize)
    requires
        s.len() > 0,
        k <= s.len(),
    ensures
        0 <= chunk_run(s, k, spp).reti < s.len(),
        0 <= chunk_run(s, k, spp).reti <= if k == 0 { 0 } else { k - 1 },
    decreases k,
{
    if k > 0 {
        lemma_chunk_reti(s, (k - 1) as nat, spp);
    }
}


/// On samples in time order, the points emitted so far are in time order
/// and, while samples remain, none is later than the start of the open stretch.
proof fn lemma_chunk_sorted(s: Seq<PointView>, k: nat, spp: usize)
    requires
        s.len() > 0,
        k <= s.len(),
        run_ok(s),
        crate::rtmap::sorted_by_time(s),
    ensures
        crate::rtmap::sorted_by_time(chunk_run(s, k, spp).out),
        k < s.len() ==> forall|o: int|
            0 <= o < chunk_run(s, k, spp).out.len() ==> #[trigger] chunk_run(s, k, spp).out[o].timestamp
                <= chunk_run(s, k, spp).timef,
    decreases k,
{
    if k > 0 {
        let i = k - 1;
        lemma_chunk_sorted(s, i as nat, spp);
        lemma_chunk_inv(s, i as nat, spp);
        let st = chunk_run(s, i as nat, spp);
        let p = s[i];
        let k0 = if i == 0 { 1 } else { i };
        let tj = choose|j: int| 0 <= j < k0 && #[trigger] s[j].timestamp == st.timef;
        assert(s[tj].timestamp <= s[i].timestamp);
        assert(st.timef <= p.timestamp);
        let nst = chunk_run(s, k, spp);
        assert(nst == chunk_step(st, p, i, s.len() as int, spp));
        let big = time_elapsed(p.timestamp, st.timef, spp);
        let n0 = st.out.len();
        // every new point lies between the start of the stretch and `p`
        assert forall|o: int| n0 <= o < nst.out.len() implies st.timef <= #[trigger] nst.out[o].timestamp
            <= p.timestamp by {
            if st.t >= spp || big {
                if !(spp == 1 || st.t == 0 || big) {
                    let d = p.timestamp - st.timef;
                    assert(0 <= trunc_half(d) <= d);
                }
            }
        }
        // new points come in time order
        assert forall|a: int, b: int| n0 <= a <= b < nst.out.len() implies nst.out[a].timestamp
            <= nst.out[b].timestamp by {
            if st.t >= spp || big {
                if !(spp == 1 || st.t == 0 || big) {
                    let d = p.timestamp - st.timef;
                    assert(0 <= trunc_half(d) <= d);
                }
            }
        }
        assert forall|a: int, b: int| 0 <= a <= b < nst.out.len() implies nst.out[a].timestamp
            <= nst.out[b].timestamp by {
            if b < n0 {
                assert(nst.out[a] == st.out[a] && nst.out[b] == st.out[b]);
            } else if a < n0 {
                assert(nst.out[a] == st.out[a]);
                assert(st.out[a].timestamp <= st.timef);
                assert(st.timef <= nst.out[b].timestamp);
            }
        }
        if k < s.len() {
            assert(i != s.len() - 1);
            assert forall|o: int| 0 <= o < nst.out.len() implies #[trigger] nst.out[o].timestamp
                <= nst.timef by {
                if o < n0 {
                    assert(nst.out[o] == st.out[o]);
                    assert(st.out[o].timestamp <= st.timef);
                }
            }
        }
    }
}

/// On samples in time order, the points emitted for a run are in time order.
pub proof fn lemma_compress_run_sorted(s: Seq<PointView>, spp: usize)
    requires
        s.len() > 0,
        run_ok(s),
        crate::rtmap::sorted_by_time(s),
    ensures
        crate::rtmap::sorted_by_time(compress_run(s, spp).0),
{
    lemma_chunk_sorted(s, s.len(), spp);
}

proof fn lemma_parts_sorted(s: Seq<PointView>, spp: usize, k: nat)
    requires
        s.len() > 0,
        k <= ndiv_of(s.len() as int),
        compress_input_ok(s),
        crate::rtmap::sorted_by_time(s),
    ensures
        crate::rtmap::sorted_by_time(parts_out(s, spp, k)),
        k > 0 ==> forall|o: int|
            0 <= o < parts_out(s, spp, k).len() ==> #[trigger] parts_out(s, spp, k)[o].timestamp
                <= s[part_hi(s.len() as int, k - 1) - 1].timestamp,
    decreases k,
{
    if k > 0 {
        let n = s.len() as int;
        let kk = k - 1;
        lemma_parts_sorted(s, spp, kk as nat);
        lemma_part_bounds(n, kk);
        if kk > 0 {
            lemma_part_bounds(n, kk - 1);
        }
        let part = part_of(s, kk);
        let lo = part_lo(n, kk);
        let hi = part_hi(n, kk);
        assert(run_ok(part));
        assert(crate::rtmap::sorted_by_time(part));
        lemma_compress_run_times(part, spp);
        lemma_compress_run_sorted(part, spp);
        let prev = parts_out(s, spp, kk as nat);
        let cur = compress_run(part, spp).0;
        let all = parts_out(s, spp, k);
        assert(all == prev + cur);
        assert(part[0] == s[lo]);
        assert(part[part.len() - 1] == s[hi - 1]);
        assert forall|o: int| 0 <= o < all.len() implies #[trigger] all[o].timestamp <= s[hi - 1].timestamp by {
            if o < prev.len() {
                assert(all[o] == prev[o]);
                assert(s[part_hi(n, kk - 1) - 1].timestamp <= s[hi - 1].timestamp);
            } else {
                assert(all[o] == cur[o - prev.len()]);
            }
        }
        assert forall|a: int, b: int| 0 <= a <= b < all.len() implies all[a].timestamp
            <= all[b].timestamp by {
            if b < prev.len() {
                assert(all[a] == prev[a] && all[b] == prev[b]);
            } else if a >= prev.len() {
                assert(all[a] == cur[a - prev.len()] && all[b] == cur[b - prev.len()]);
            } else {
                assert(all[a] == prev[a]);
                assert(all[b] == cur[b - prev.len()]);
                assert(prev[a].timestamp <= s[part_hi(n, kk - 1) - 1].timestamp);
                assert(s[part_hi(n, kk - 1) - 1].timestamp <= s[lo].timestamp);
            }
        }
    }
}

/// On input ordered by time, `swap_compressor` emits its points in time order.
pub proof fn lemma_compressed_sorted(s: Seq<PointView>, spp: usize)
    requires
        s.len() > 0,
        compress_input_ok(s),
        crate::rtmap::sorted_by_time(s),
    ensures
        crate::rtmap::sorted_by_time(compressed(s, spp).0),
{
    lemma_parts_sorted(s, spp, ndiv_of(s.len() as int) as nat);
}


/// `v` is the largest value channel `x` takes in the samples `lo..hi`.
pub open spec fn is_max_of(s: Seq<PointView>, x: int, lo: int, hi: int, v: i16) -> bool {
    &&& exists|j: int| lo <= j < hi && #[trigger] s[j].achanels[x] == v
    &&& forall|j: int| lo <= j < hi ==> #[trigger] s[j].achanels[x] <= v
}

/// How many samples are folded into the state after `k` steps (the first
/// sample opens the first stretch).
pub open spec fn folded_upto(k: nat) -> int {
    if k == 0 {
        1
    } else {
        k as int
    }
}

/// For every analog channel, the maximum kept in `achs` is the largest
/// value the channel takes in the samples `lo..hi`.
pub open spec fn maxima_of(s: Seq<PointView>, achs: Seq<Aminmax>, lo: int, hi: int) -> bool {
    forall|x: int| 0 <= x < ACHANELS ==> is_max_of(s, x, lo, hi, #[trigger] achs[x].max)
}

/// For every analog channel, one of the two points `out[n0]`, `out[n0 + 1]`
/// carries the largest value the channel takes in the samples `lo..hi`.
pub open spec fn pair_carries_maxima(s: Seq<PointView>, out: Seq<PointView>, n0: int, lo: int, hi: int) -> bool {
    forall|x: int|
        0 <= x < ACHANELS ==> is_max_of(s, x, lo, hi, #[trigger] out[n0].achanels[x]) || is_max_of(
            s,
            x,
            lo,
            hi,
            out[n0 + 1].achanels[x],
        )
}

proof fn lemma_ach_update_max(acs: Seq<Aminmax>, a: Seq<i16>, kk: nat)
    requires
        acs.len() == ACHANELS,
        kk <= ACHANELS,
    ensures
        ach_update(acs, a, kk).len() == ACHANELS,
        forall|x: int|
            0 <= x < ACHANELS ==> #[trigger] ach_update(acs, a, kk)[x].max == (if x < kk && a[x] > acs[x].max {
                a[x]
            } else {
                acs[x].max
            }),
        kk >= 1 ==> ach_update(acs, a, kk)[0].min == (if a[0] < acs[0].min { a[0] } else { acs[0].min }),
    decreases kk,
{
    lemma_ach_update_len(acs, a, kk);
    if kk > 0 {
        lemma_ach_update_max(acs, a, (kk - 1) as nat);
        let prev = ach_update(acs, a, (kk - 1) as nat);
        let cur = ach_update(acs, a, kk);
        assert(cur == upd_one(prev, a, kk - 1));
        assert forall|x: int| 0 <= x < ACHANELS implies #[trigger] cur[x].max == (if x < kk && a[x] > acs[x].max {
            a[x]
        } else {
            acs[x].max
        }) by {
            if x != kk - 1 {
                assert(cur[x] == prev[x]);
            }
        }
        if kk > 1 {
            assert(cur[0] == prev[0]);
        }
    }
}

/// Folding a sample into the extremes keeps, for every analog channel, the
/// larger of the old maximum and the sample's value; channel 0 keeps the
/// smaller of its old minimum and the sample's value.
pub proof fn lemma_fold_max(acs: Seq<Aminmax>, a: Seq<i16>)
    requires
        acs.len() == ACHANELS,
    ensures
        ach_update(acs, a, ACHANELS as nat).len() == ACHANELS,
        forall|x: int|
            0 <= x < ACHANELS ==> #[trigger] ach_update(acs, a, ACHANELS as nat)[x].max == (if a[x] > acs[x].max {
                a[x]
            } else {
                acs[x].max
            }),
        ach_update(acs, a, ACHANELS as nat)[0].min == (if a[0] < acs[0].min { a[0] } else { acs[0].min }),
{
    lemma_ach_update_max(acs, a, ACHANELS as nat);
}

/// While a run is compressed, the maximum kept for each analog channel is
/// the largest value that channel takes in the open stretch: the samples
/// from some `r` up to the last one folded.
pub proof fn lemma_chunk_max(s: Seq<PointView>, k: nat, spp: usize)
    requires
        s.len() > 0,
        k <= s.len(),
        run_ok(s),
    ensures
        chunk_run(s, k, spp).achs.len() == ACHANELS,
        exists|r: int| 0 <= r < folded_upto(k) && #[trigger] maxima_of(s, chunk_run(s, k, spp).achs, r, folded_upto(k)),
    decreases k,
{
    lemma_chunk_inv(s, k, spp);
    assert(s[0].achanels.len() >= ACHANELS);
    if k == 0 {
        let st = chunk_run(s, 0, spp);
        assert forall|x: int| 0 <= x < ACHANELS implies is_max_of(s, x, 0, 1, #[trigger] st.achs[x].max) by {
            assert(s[0].achanels[x] == st.achs[x].max);
        }
        assert(maxima_of(s, st.achs, 0, 1));
        assert(folded_upto(0) == 1);
    } else {
        let i = k - 1;
        lemma_chunk_max(s, i as nat, spp);
        lemma_chunk_inv(s, i as nat, spp);
        let st = chunk_run(s, i as nat, spp);
        let k0 = folded_upto(i as nat);
        let r = choose|r: int| 0 <= r < k0 && #[trigger] maxima_of(s, st.achs, r, k0);
        let p = s[i];
        assert(p.achanels.len() >= ACHANELS);
        let nst = chunk_run(s, k, spp);
        assert(nst == chunk_step(st, p, i, s.len() as int, spp));
        let big = time_elapsed(p.timestamp, st.timef, spp);
        if st.t >= spp || big {
            assert forall|x: int| 0 <= x < ACHANELS implies is_max_of(s, x, i, k as int, #[trigger] nst.achs[x].max) by {
                assert(nst.achs[x].max == p.achanels[x]);
                assert(s[i].achanels[x] == nst.achs[x].max);
            }
            assert(maxima_of(s, nst.achs, i as int, k as int));
            assert(folded_upto(k) == k as int);
        } else {
            lemma_fold_max(st.achs, p.achanels);
            assert forall|x: int| 0 <= x < ACHANELS implies is_max_of(s, x, r, k as int, #[trigger] nst.achs[x].max) by {
                assert(is_max_of(s, x, r, k0, st.achs[x].max));
                let v = nst.achs[x].max;
                assert(s[i].achanels[x] == p.achanels[x]);
                if p.achanels[x] > st.achs[x].max {
                    assert(v == p.achanels[x]);
                    assert(s[i].achanels[x] == v);
                } else {
                    let j = choose|j: int| r <= j < k0 && #[trigger] s[j].achanels[x] == st.achs[x].max;
                    assert(s[j].achanels[x] == v);
                }
            }
            assert(maxima_of(s, nst.achs, r, k as int));
            assert(folded_upto(k) == k as int);
        }
    }
}

/// Either point of an envelope pair carries, for every channel, the
/// maximum or the minimum kept for it, and one of the two carries the maximum.
pub proof fn lemma_envelope_has_max(achs: Seq<Aminmax>)
    requires
        achs.len() == ACHANELS,
    ensures
        forall|x: int|
            0 <= x < ACHANELS ==> #[trigger] env_vals(achs, true)[x] == achs[x].max || env_vals(achs, false)[x]
                == achs[x].max,
{
}

/// When a stretch closes with an envelope pair, one of the two points
/// emitted carries, for every analog channel, the largest value that
/// channel takes in the stretch (the samples from some `r` up to the
/// closing one).
pub proof fn lemma_envelope_max(s: Seq<PointView>, k: nat, spp: usize)
    requires
        s.len() > 0,
        1 <= k <= s.len(),
        run_ok(s),
        ({
            let st = chunk_run(s, (k - 1) as nat, spp);
            let big = time_elapsed(s[k - 1].timestamp, st.timef, spp);
            (st.t >= spp || big) && !(spp == 1 || st.t == 0 || big)
        }),
    ensures
        ({
            let n0 = chunk_run(s, (k - 1) as nat, spp).out.len() as int;
            let out = chunk_run(s, k, spp).out;
            exists|r: int| 0 <= r < k && #[trigger] pair_carries_maxima(s, out, n0, r, k as int)
        }),
{
    let i = k - 1;
    lemma_chunk_max(s, i as nat, spp);
    lemma_chunk_inv(s, i as nat, spp);
    let st = chunk_run(s, i as nat, spp);
    let p = s[i];
    assert(p.achanels.len() >= ACHANELS);
    let k0 = folded_upto(i as nat);
    let r = choose|r: int| 0 <= r < k0 && #[trigger] maxima_of(s, st.achs, r, k0);
    let achs1 = ach_update(st.achs, p.achanels, ACHANELS as nat);
    lemma_fold_max(st.achs, p.achanels);
    lemma_envelope_has_max(achs1);
    let nst = chunk_run(s, k, spp);
    assert(nst == chunk_step(st, p, i, s.len() as int, spp));
    let n0 = st.out.len() as int;
    assert(nst.out[n0].achanels == env_vals(achs1, true));
    assert(nst.out[n0 + 1].achanels == env_vals(achs1, false));
    assert forall|x: int| 0 <= x < ACHANELS implies is_max_of(s, x, r, k as int, #[trigger] nst.out[n0].achanels[x])
        || is_max_of(s, x, r, k as int, nst.out[n0 + 1].achanels[x]) by {
        assert(is_max_of(s, x, r, k0, st.achs[x].max));
        let v = achs1[x].max;
        assert(s[i].achanels[x] == p.achanels[x]);
        assert(is_max_of(s, x, r, k as int, v)) by {
            if p.achanels[x] > st.achs[x].max {
                assert(s[i].achanels[x] == v);
            } else {
                let j = choose|j: int| r <= j < k0 && #[trigger] s[j].achanels[x] == st.achs[x].max;
                assert(s[j].achanels[x] == v);
            }
        }
    }
    assert(pair_carries_maxima(s, nst.out, n0, r, k as int));
}

} // verus!
