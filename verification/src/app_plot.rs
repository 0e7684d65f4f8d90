//! The integer work behind the charts: which samples a view of the time
//! axis covers, the values under the cursor and the bits of the digital word.

use vstd::prelude::*;
use crate::rtmap::{DCHANELS, RtPoint, PointView, points_view, dbit, rtmap_get_dchanal};
use crate::compressor::{swap_compressor, compress_input_fits, compressed, compress_input_ok};

verus! {

/// Number of points the compressed view aims to keep on a chart.
pub const PLOT_POINTS: usize = 1500;

/// How the compressed view is brought up to date: extended at its ends, or rebuilt.
#[derive(PartialEq, Eq, Structural, Clone, Copy, Debug)]
pub enum SwapMod {
    Add,
    Full,
}

/// Index of the last sample (in order of the map) whose timestamp is at or
/// before `timestamp`; `None` when every sample is later.
pub fn insta_index(rtmap: &[RtPoint], timestamp: i64) -> (r: Option<usize>)
    ensures
        r is None <==> forall|i: int| 0 <= i < rtmap@.len() ==> rtmap@[i].timestamp > timestamp,
        r matches Some(i) ==> i < rtmap@.len() && rtmap@[i as int].timestamp <= timestamp
            && forall|j: int| i < j < rtmap@.len() ==> rtmap@[j].timestamp > timestamp,
{
    let mut k: usize = rtmap.len();
    while k > 0
        invariant
            k <= rtmap@.len(),
            forall|j: int| k <= j < rtmap@.len() ==> rtmap@[j].timestamp > timestamp,
        decreases k,
    {
        if rtmap[k - 1].timestamp <= timestamp {
            return Some(k - 1);
        }
        k = k - 1;
    }
    None
}

/// The states (0 or 1) of all digital channels of the word.
pub fn digital_bits(digital: u64) -> (r: Vec<u8>)
    ensures
        r@.len() == DCHANELS,
        forall|x: int| 0 <= x < DCHANELS ==> #[trigger] r@[x] as u64 == dbit(digital, x as nat),
{
    let mut r: Vec<u8> = Vec::new();
    let mut x: usize = 0;
    while x < DCHANELS
        invariant
            x <= DCHANELS,
            r@.len() == x,
            forall|k: int| 0 <= k < x ==> #[trigger] r@[k] as u64 == dbit(digital, k as nat),
        decreases DCHANELS - x,
    {
        let b = rtmap_get_dchanal(digital, x);
        r.push(b as u8);
        x = x + 1;
    }
    r
}

/// Division rounding toward zero, as `i64` division does.
pub open spec fn trunc_div(a: int, d: int) -> int {
    if a >= 0 {
        a / d
    } else {
        -((-a) / d)
    }
}

/// The coarse pass over the samples: stepping by `step` from `x`, the step
/// before the first sample reaching `th` (`tmppre` holding the previous
/// step), or 0 when no step reaches it.
pub open spec fn coarse_scan(ts: Seq<i64>, th: i64, step: int, x: int, tmppre: int) -> int
    decreases ts.len() + step - x,
{
    if step <= 0 || x >= ts.len() - 1 {
        0
    } else if ts[x] >= th {
        tmppre
    } else {
        coarse_scan(ts, th, step, x + step, x)
    }
}

/// Where the fine search starts: the coarse pass on runs over 1000 samples,
/// else the start.
pub open spec fn coarse_start(ts: Seq<i64>, th: i64) -> int {
    if ts.len() > 1000 {
        coarse_scan(ts, th, (ts.len() / 100) as int, 0, 0)
    } else {
        0
    }
}

/// The first index from `j` on whose timestamp reaches `th`.
pub open spec fn fine_scan(ts: Seq<i64>, th: i64, j: int) -> Option<int>
    decreases ts.len() - j,
{
    if j < 0 || j >= ts.len() {
        None
    } else if ts[j] >= th {
        Some(j)
    } else {
        fine_scan(ts, th, j + 1)
    }
}

/// The last sample drawn: the first reaching the right bound, else the last one.
pub open spec fn window_last(ts: Seq<i64>, right: i64) -> int {
    match fine_scan(ts, right, coarse_start(ts, right)) {
        Some(j) => j,
        None => ts.len() - 1,
    }
}

/// The left bound widened by a fiftieth of its value.
pub open spec fn left_threshold(left: i64) -> i64 {
    (left - trunc_div(left as int, 50)) as i64
}

/// The first sample drawn: the coarse pass locates the left bound itself,
/// then the first sample from there on that reaches the left bound widened
/// by a fiftieth; the first sample when none does.
pub open spec fn window_first(ts: Seq<i64>, left: i64) -> int {
    match fine_scan(ts, left_threshold(left), coarse_start(ts, left)) {
        Some(j) => j,
        None => 0,
    }
}

/// Scanning indices `i` from `i` to `end`: the last at which the samples a
/// quarter of the window further on are more than `lim` later, else `cur`.
pub open spec fn gap_scan(ts: Seq<i64>, i: int, end: int, jump: int, lim: int, cur: int) -> int
    decreases end - i,
{
    if i >= end {
        cur
    } else {
        gap_scan(ts, i + 1, end, jump, lim, if ts[i + jump] - ts[i] > lim { i } else { cur })
    }
}

/// While recording, the first sample is moved past a gap in the data: the
/// last index in the first twentieth of the window that is followed, a
/// quarter window later, by a jump in time of over a quarter of the shown span.
pub open spec fn gap_shift(ts: Seq<i64>, first: int, last: int, left: i64, right: i64) -> int {
    gap_scan(
        ts,
        first,
        first + (last - first) / 20,
        (last - first) / 4,
        trunc_div(right - left, 4),
        first,
    )
}

/// The samples a view of the time axis from `xtbound[0]` to `xtbound[1]`
/// covers: indices of the first and last one, the first moved past a gap while recording.
pub open spec fn window_spec(ts: Seq<i64>, xtbound: [i64; 2], run: bool) -> (int, int) {
    let first = window_first(ts, xtbound[0]);
    let last = window_last(ts, xtbound[1]);
    if run {
        (gap_shift(ts, first, last, xtbound[0], xtbound[1]), last)
    } else {
        (first, last)
    }
}

/// The gap search stays within `i64`: the first sample comes no later than
/// the last, the span of the view and the compared differences fit.
pub open spec fn window_run_ok(ts: Seq<i64>, xtbound: [i64; 2]) -> bool {
    let first = window_first(ts, xtbound[0]);
    let last = window_last(ts, xtbound[1]);
    &&& first <= last
    &&& i64::MIN <= xtbound[1] - xtbound[0] <= i64::MAX
    &&& forall|i: int|
        first <= i < first + (last - first) / 20 ==> i64::MIN <= #[trigger] ts[i + (last - first) / 4]
            - ts[i] <= i64::MAX
}

/// The timestamps of the samples.
pub open spec fn times(s: Seq<PointView>) -> Seq<i64> {
    s.map_values(|p: PointView| p.timestamp)
}

/// Timestamps never decrease.
pub open spec fn ascending(ts: Seq<i64>) -> bool {
    forall|i: int, j: int| 0 <= i <= j < ts.len() ==> ts[i] <= ts[j]
}

/// The timestamps of samples in time order are ascending.
pub proof fn lemma_times_ascending(s: Seq<PointView>)
    requires
        crate::rtmap::sorted_by_time(s),
    ensures
        ascending(times(s)),
{
}

/// The coarse pass ends at the start or at a step whose sample is still
/// before `th`.
proof fn lemma_coarse_scan_before(ts: Seq<i64>, th: i64, step: int, x: int, tmppre: int)
    requires
        0 <= x,
        tmppre == 0 || (0 <= tmppre < ts.len() && ts[tmppre] < th),
    ensures
        ({
            let r = coarse_scan(ts, th, step, x, tmppre);
            r == 0 || (0 <= r < ts.len() && ts[r] < th)
        }),
    decreases ts.len() + step - x,
{
    if !(step <= 0 || x >= ts.len() - 1) && ts[x] < th {
        lemma_coarse_scan_before(ts, th, step, x + step, x);
    }
}

proof fn lemma_fine_skip(ts: Seq<i64>, th: i64, i: int, r: int)
    requires
        0 <= i <= r,
        forall|k: int| i <= k < r ==> ts[k] < th,
    ensures
        fine_scan(ts, th, i) == fine_scan(ts, th, r),
    decreases r - i,
{
    if i < r {
        lemma_fine_skip(ts, th, i + 1, r);
    }
}

proof fn lemma_fine_scan_least(ts: Seq<i64>, th: i64, j: int)
    requires
        0 <= j,
    ensures
        fine_scan(ts, th, j) matches Some(k) ==> j <= k < ts.len() && ts[k] >= th && forall|i: int|
            j <= i < k ==> ts[i] < th,
        fine_scan(ts, th, j) is None ==> forall|i: int| j <= i < ts.len() ==> ts[i] < th,
    decreases ts.len() - j,
{
    if j < ts.len() && ts[j] < th {
        lemma_fine_scan_least(ts, th, j + 1);
    }
}

/// On samples in time order, the two-pass search finds the first sample at
/// or after `th`, as a search from the start would.
proof fn lemma_search_first(ts: Seq<i64>, th: i64)
    requires
        ascending(ts),
    ensures
        fine_scan(ts, th, coarse_start(ts, th)) == fine_scan(ts, th, 0),
{
    if ts.len() > 1000 {
        lemma_coarse_scan_before(ts, th, (ts.len() / 100) as int, 0, 0);
    }
    let r = coarse_start(ts, th);
    if r != 0 {
        assert forall|k: int| 0 <= k < r implies ts[k] < th by {
            assert(ts[k] <= ts[r]);
        }
        lemma_fine_skip(ts, th, 0, r);
    }
}

/// On samples in time order, the window of a view of the time axis: the
/// last sample is the least index whose timestamp reaches the right bound
/// (the last sample when none does). For the first sample, the coarse pass
/// stops at a start `r` (0 on maps of up to 1000 samples) before which every
/// sample is earlier than the left bound; the first sample is the least
/// index from `r` on that reaches the left bound widened by a fiftieth (the
/// first sample when none does).
pub proof fn lemma_window_sorted(ts: Seq<i64>, xtbound: [i64; 2])
    requires
        ascending(ts),
        ts.len() > 0,
    ensures
        ({
            let (first, last) = window_spec(ts, xtbound, false);
            let right = xtbound[1];
            let left = xtbound[0];
            let th = left_threshold(left);
            let r = coarse_start(ts, left);
            &&& 0 <= first < ts.len() && 0 <= last < ts.len()
            &&& (exists|k: int| 0 <= k < ts.len() && ts[k] >= right) ==> ts[last] >= right && forall|i: int|
                0 <= i < last ==> ts[i] < right
            &&& (forall|k: int| 0 <= k < ts.len() ==> ts[k] < right) ==> last == ts.len() - 1
            &&& 0 <= r < ts.len()
            &&& ts.len() <= 1000 ==> r == 0
            &&& r > 0 ==> forall|i: int| 0 <= i <= r ==> ts[i] < left
            &&& (exists|k: int| r <= k < ts.len() && ts[k] >= th) ==> r <= first && ts[first] >= th && forall|i: int|
                r <= i < first ==> ts[i] < th
            &&& (forall|k: int| r <= k < ts.len() ==> ts[k] < th) ==> first == 0
        }),
{
    let right = xtbound[1];
    let left = xtbound[0];
    let th = left_threshold(left);
    lemma_search_first(ts, right);
    lemma_fine_scan_least(ts, right, 0);
    if ts.len() > 1000 {
        lemma_coarse_scan_before(ts, left, (ts.len() / 100) as int, 0, 0);
    }
    let r = coarse_start(ts, left);
    if r > 0 {
        assert forall|i: int| 0 <= i <= r implies ts[i] < left by {
            assert(ts[i] <= ts[r]);
        }
    }
    lemma_fine_scan_least(ts, th, r);
    if exists|k: int| 0 <= k < ts.len() && ts[k] >= right {
        let k = choose|k: int| 0 <= k < ts.len() && ts[k] >= right;
        assert(ts[k] >= right);
    }
    if exists|k: int| r <= k < ts.len() && ts[k] >= th {
        let k = choose|k: int| r <= k < ts.len() && ts[k] >= th;
        assert(ts[k] >= th);
    }
}


/// `a / d` rounded toward zero.
fn trunc_div_i64(a: i64, d: i64) -> (r: i64)
    requires
        d > 1,
    ensures
        r == trunc_div(a as int, d as int),
{
    if a >= 0 {
        a / d
    } else {
        let b: i64 = -(a + 1);
        let q: i64 = b / d;
        assert(2 * q <= b) by (nonlinear_arith)
            requires
                b >= 0,
                d > 1,
                q == b / d,
        ;
        proof {
            assert((b + 1) / (d as int) == if b % d == d - 1 { q + 1 } else { q as int }) by (nonlinear_arith)
                requires
                    b >= 0,
                    d > 1,
                    q == b / d,
            {
                assert(b == d * q + b % d);
                assert(0 <= b % d < d);
                if b % d == d - 1 {
                    assert(b + 1 == d * (q + 1));
                } else {
                    assert(b + 1 == d * q + (b % d + 1));
                }
            }
        }
        if b % d == d - 1 {
            -(q + 1)
        } else {
            -q
        }
    }
}

fn coarse_exec(rtmap: &[RtPoint], th: i64) -> (r: usize)
    ensures
        r as int == coarse_start(times(points_view(rtmap@)), th),
        r < rtmap@.len() || r == 0,
{
    let ghost ts = times(points_view(rtmap@));
    let n = rtmap.len();
    if n <= 1000 {
        return 0;
    }
    let step: usize = n / 100;
    let mut x: usize = 0;
    let mut tmppre: usize = 0;
    while x < n - 1
        invariant
            ts == times(points_view(rtmap@)),
            ts.len() == n,
            n > 1000,
            step == n / 100,
            tmppre < n,
            coarse_scan(ts, th, step as int, x as int, tmppre as int) == coarse_scan(
                ts,
                th,
                step as int,
                0,
                0,
            ),
        decreases n - x,
    {
        assert(ts[x as int] == rtmap@[x as int].timestamp);
        if rtmap[x].timestamp >= th {
            return tmppre;
        }
        tmppre = x;
        if step >= n - x {
            assert(coarse_scan(ts, th, step as int, x + step, x as int) == 0);
            return 0;
        }
        x = x + step;
    }
    0
}

fn fine_exec(rtmap: &[RtPoint], th: i64, from: usize) -> (r: Option<usize>)
    ensures
        r == match fine_scan(times(points_view(rtmap@)), th, from as int) {
            Some(j) => Some(j as usize),
            None => None::<usize>,
        },
        r matches Some(j) ==> j < rtmap@.len(),
{
    let ghost ts = times(points_view(rtmap@));
    let mut j: usize = from;
    while j < rtmap.len()
        invariant
            ts == times(points_view(rtmap@)),
            ts.len() == rtmap@.len(),
            from <= j,
            fine_scan(ts, th, from as int) == fine_scan(ts, th, j as int),
        decreases rtmap@.len() - j,
    {
        assert(ts[j as int] == rtmap@[j as int].timestamp);
        if rtmap[j].timestamp >= th {
            return Some(j);
        }
        j = j + 1;
    }
    None
}

proof fn lemma_fine_scan_range(ts: Seq<i64>, th: i64, j: int)
    ensures
        fine_scan(ts, th, j) matches Some(k) ==> 0 <= j <= k < ts.len(),
    decreases ts.len() - j,
{
    if 0 <= j < ts.len() && ts[j] < th {
        lemma_fine_scan_range(ts, th, j + 1);
    }
}

/// Indices of the first and last sample that a view of the time axis from
/// `xtbound[0]` to `xtbound[1]` covers. While recording (`run`), the first is
/// moved past a gap in the data near the start of the view.
pub fn swap_window(rtmap: &[RtPoint], xtbound: [i64; 2], run: bool) -> (r: (usize, usize))
    requires
        rtmap@.len() > 0,
        run ==> window_run_ok(times(points_view(rtmap@)), xtbound),
    ensures
        (r.0 as int, r.1 as int) == window_spec(times(points_view(rtmap@)), xtbound, run),
        r.0 < rtmap@.len() && r.1 < rtmap@.len(),
{
    let ghost ts = times(points_view(rtmap@));
    let n = rtmap.len();
    let right = xtbound[1];
    let prelast = coarse_exec(rtmap, right);
    let last: usize = match fine_exec(rtmap, right, prelast) {
        Some(j) => j,
        None => n - 1,
    };
    let left = xtbound[0];
    let th0: i64 = left - trunc_div_i64(left, 50);
    assert(th0 == left_threshold(left));
    let prefirst = coarse_exec(rtmap, left);
    let mut first: usize = match fine_exec(rtmap, th0, prefirst) {
        Some(j) => j,
        None => 0,
    };
    proof {
        lemma_fine_scan_range(ts, right, prelast as int);
        lemma_fine_scan_range(ts, th0, prefirst as int);
    }
    if run {
        let window_jump: usize = (last - first) / 4;
        let end: usize = first + (last - first) / 20;
        let span: i64 = right - left;
        let lim: i64 = trunc_div_i64(span, 4);
        let mut shifted_first: usize = first;
        let mut i: usize = first;
        while i < end
            invariant
                ts == times(points_view(rtmap@)),
                ts.len() == n,
                window_run_ok(ts, xtbound),
                first == window_first(ts, xtbound[0]),
                last == window_last(ts, xtbound[1]),
                first <= last < n,
                window_jump == (last - first) / 4,
                end == first + (last - first) / 20,
                lim == trunc_div(xtbound[1] - xtbound[0], 4),
                first <= i <= end,
                shifted_first < n,
                gap_scan(ts, i as int, end as int, window_jump as int, lim as int, shifted_first as int)
                    == gap_shift(ts, first as int, last as int, xtbound[0], xtbound[1]),
            decreases end - i,
        {
            assert(ts[i + window_jump] == rtmap@[i + window_jump].timestamp);
            assert(ts[i as int] == rtmap@[i as int].timestamp);
            assert(i64::MIN <= ts[i + window_jump] - ts[i as int] <= i64::MAX);
            if rtmap[i + window_jump].timestamp - rtmap[i].timestamp > lim {
                shifted_first = i;
            }
            i = i + 1;
        }
        first = shifted_first;
    }
    (first, last)
}


/// Tells whether `swap_window` may be called with `run` set for this view.
pub fn swap_window_in_range(rtmap: &[RtPoint], xtbound: [i64; 2]) -> (r: bool)
    requires
        rtmap@.len() > 0,
    ensures
        r == window_run_ok(times(points_view(rtmap@)), xtbound),
{
    let ghost ts = times(points_view(rtmap@));
    let (first, last) = swap_window(rtmap, xtbound, false);
    if first > last {
        return false;
    }
    let span: i128 = xtbound[1] as i128 - xtbound[0] as i128;
    if span < i64::MIN as i128 || span > i64::MAX as i128 {
        return false;
    }
    let jump: usize = (last - first) / 4;
    let end: usize = first + (last - first) / 20;
    let mut i: usize = first;
    while i < end
        invariant
            ts == times(points_view(rtmap@)),
            ts.len() == rtmap@.len(),
            first == window_first(ts, xtbound[0]),
            last == window_last(ts, xtbound[1]),
            first <= last < rtmap@.len(),
            jump == (last - first) / 4,
            end == first + (last - first) / 20,
            first <= i <= end,
            forall|k: int|
                first <= k < i ==> i64::MIN <= #[trigger] ts[k + (last - first) / 4] - ts[k] <= i64::MAX,
        decreases end - i,
    {
        assert(ts[i + jump] == rtmap@[i + jump].timestamp);
        assert(ts[i as int] == rtmap@[i as int].timestamp);
        let d: i128 = rtmap[i + jump].timestamp as i128 - rtmap[i].timestamp as i128;
        if d < i64::MIN as i128 || d > i64::MAX as i128 {
            return false;
        }
        i = i + 1;
    }
    true
}


/// Indices of the samples drawn for analog channel `ch` from the run
/// `lo..lo + k`: the first sample, then every sample whose value differs
/// from the last one drawn or that comes more than `spp` after it.
pub open spec fn apick_run(s: Seq<PointView>, ch: int, spp: int, lo: int, k: int) -> Seq<int>
    decreases k,
{
    if k <= 0 {
        seq![lo]
    } else {
        let prev = apick_run(s, ch, spp, lo, k - 1);
        let c = lo + k - 1;
        let last = s[prev.last()];
        if last.achanels[ch] != s[c].achanels[ch] || last.timestamp + spp < s[c].timestamp {
            prev.push(c)
        } else {
            prev
        }
    }
}

/// The samples drawn for analog channel `ch` between `lo` and `hi`: the
/// changes, closed by the last sample.
pub open spec fn apicks(s: Seq<PointView>, ch: int, spp: int, lo: int, hi: int) -> Seq<int> {
    apick_run(s, ch, spp, lo, hi - lo).push(hi - 1)
}

/// The run `lo..hi` is not empty and adding `spp` to its timestamps fits an `i64`.
pub open spec fn steps_ok(s: Seq<PointView>, spp: int, lo: int, hi: int) -> bool {
    &&& 0 <= lo < hi <= s.len()
    &&& forall|i: int| lo <= i < hi ==> i64::MIN <= (#[trigger] s[i]).timestamp + spp <= i64::MAX
}

/// The run `lo..hi` holds channel `ch` and satisfies `steps_ok`.
pub open spec fn picks_ok(s: Seq<PointView>, ch: int, spp: int, lo: int, hi: int) -> bool {
    &&& steps_ok(s, spp, lo, hi)
    &&& forall|i: int| lo <= i < hi ==> ch < (#[trigger] s[i]).achanels.len()
}

/// Tells whether `dchanel_steps` may be called on `rtswap[indstart..indend]`.
pub fn steps_in_range(rtswap: &[RtPoint], spp: i64, indstart: usize, indend: usize) -> (r: bool)
    ensures
        r == steps_ok(points_view(rtswap@), spp as int, indstart as int, indend as int),
{
    let ghost s = points_view(rtswap@);
    if !(indstart < indend && indend <= rtswap.len()) {
        return false;
    }
    let mut i: usize = indstart;
    while i < indend
        invariant
            s == points_view(rtswap@),
            indstart < indend <= rtswap@.len(),
            indstart <= i <= indend,
            forall|k: int| indstart <= k < i ==> i64::MIN <= (#[trigger] s[k]).timestamp + spp <= i64::MAX,
        decreases indend - i,
    {
        assert(s[i as int] == rtswap@[i as int]@);
        let t: i128 = rtswap[i].timestamp as i128 + spp as i128;
        if t < i64::MIN as i128 || t > i64::MAX as i128 {
            assert(!(i64::MIN <= s[i as int].timestamp + spp <= i64::MAX));
            return false;
        }
        i = i + 1;
    }
    true
}

/// Tells whether `achanel_picks` may be called for channel `chanel` on `rtswap[indstart..indend]`.
pub fn picks_in_range(rtswap: &[RtPoint], chanel: usize, spp: i64, indstart: usize, indend: usize) -> (r: bool)
    ensures
        r == picks_ok(points_view(rtswap@), chanel as int, spp as int, indstart as int, indend as int),
{
    let ghost s = points_view(rtswap@);
    if !steps_in_range(rtswap, spp, indstart, indend) {
        return false;
    }
    let mut i: usize = indstart;
    while i < indend
        invariant
            s == points_view(rtswap@),
            indstart < indend <= rtswap@.len(),
            indstart <= i <= indend,
            forall|k: int| indstart <= k < i ==> chanel < (#[trigger] s[k]).achanels.len(),
        decreases indend - i,
    {
        assert(s[i as int] == rtswap@[i as int]@);
        if chanel >= rtswap[i].achanels.len() {
            assert(!(chanel < s[i as int].achanels.len()));
            return false;
        }
        i = i + 1;
    }
    true
}

proof fn lemma_apick_range(s: Seq<PointView>, ch: int, spp: int, lo: int, k: int)
    requires
        0 <= k,
    ensures
        apick_run(s, ch, spp, lo, k).len() >= 1,
        forall|j: int|
            0 <= j < apick_run(s, ch, spp, lo, k).len() ==> lo <= #[trigger] apick_run(s, ch, spp, lo, k)[j]
                <= lo + (if k == 0 { 0 } else { k - 1 }),
    decreases k,
{
    if k > 0 {
        lemma_apick_range(s, ch, spp, lo, k - 1);
    }
}

proof fn lemma_apick_changes(s: Seq<PointView>, ch: int, spp: int, lo: int, k: int)
    requires
        1 <= k,
    ensures
        s[apick_run(s, ch, spp, lo, k).last()].achanels[ch] == s[lo + k - 1].achanels[ch],
        forall|c: int|
            lo < c < lo + k && #[trigger] s[c].achanels[ch] != s[c - 1].achanels[ch] ==> apick_run(
                s,
                ch,
                spp,
                lo,
                k,
            ).contains(c),
    decreases k,
{
    if k > 1 {
        lemma_apick_changes(s, ch, spp, lo, k - 1);
        let prev = apick_run(s, ch, spp, lo, k - 1);
        let cur = apick_run(s, ch, spp, lo, k);
        assert forall|c: int|
            lo < c < lo + k && #[trigger] s[c].achanels[ch] != s[c - 1].achanels[ch] implies cur.contains(c) by {
            if c < lo + k - 1 {
                let j = choose|j: int| 0 <= j < prev.len() && prev[j] == c;
                assert(cur[j] == c);
            } else {
                assert(cur.last() == c);
                assert(cur[cur.len() - 1] == c);
            }
        }
    }
}

/// Every change of channel `ch` between `lo` and `hi` is drawn: each sample
/// whose value on the channel differs from the sample before it is picked.
pub proof fn lemma_apicks_changes(s: Seq<PointView>, ch: int, spp: int, lo: int, hi: int)
    requires
        lo < hi,
    ensures
        forall|c: int|
            lo < c < hi && #[trigger] s[c].achanels[ch] != s[c - 1].achanels[ch] ==> apicks(s, ch, spp, lo, hi).contains(c),
{
    lemma_apick_changes(s, ch, spp, lo, hi - lo);
    let run = apick_run(s, ch, spp, lo, hi - lo);
    let all = apicks(s, ch, spp, lo, hi);
    assert forall|c: int| lo < c < hi && #[trigger] s[c].achanels[ch] != s[c - 1].achanels[ch] implies all.contains(c) by {
        let j = choose|j: int| 0 <= j < run.len() && run[j] == c;
        assert(all[j] == c);
    }
}

proof fn lemma_apick_local(s: Seq<PointView>, s2: Seq<PointView>, ch: int, spp: int, lo: int, k: int)
    requires
        0 <= k,
        forall|j: int|
            lo <= j < lo + k ==> #[trigger] s[j].timestamp == s2[j].timestamp && s[j].achanels[ch]
                == s2[j].achanels[ch],
    ensures
        apick_run(s, ch, spp, lo, k) == apick_run(s2, ch, spp, lo, k),
    decreases k,
{
    if k > 0 {
        lemma_apick_local(s, s2, ch, spp, lo, k - 1);
        lemma_apick_range(s, ch, spp, lo, k - 1);
        let prev = apick_run(s, ch, spp, lo, k - 1);
        assert(prev[prev.len() - 1] == prev.last());
        let l = prev.last();
        assert(s[l].timestamp == s2[l].timestamp);
        assert(s[lo + k - 1].timestamp == s2[lo + k - 1].timestamp);
    }
}

/// The samples drawn for channel `ch` depend only on the timestamps and the
/// values of that channel: two runs that agree on these between `lo` and
/// `hi` are drawn at the same samples.
pub proof fn lemma_apicks_local(s: Seq<PointView>, s2: Seq<PointView>, ch: int, spp: int, lo: int, hi: int)
    requires
        lo < hi,
        forall|j: int|
            lo <= j < hi ==> #[trigger] s[j].timestamp == s2[j].timestamp && s[j].achanels[ch]
                == s2[j].achanels[ch],
    ensures
        apicks(s, ch, spp, lo, hi) == apicks(s2, ch, spp, lo, hi),
{
    lemma_apick_local(s, s2, ch, spp, lo, hi - lo);
    assert(s[hi - 1].timestamp == s2[hi - 1].timestamp);
}

/// Picks the samples of `rtswap[indstart..indend]` that the chart of analog
/// channel `chanel` draws; returns their indices in `rtswap`.
pub fn achanel_picks(rtswap: &[RtPoint], chanel: usize, spp: i64, indstart: usize, indend: usize) -> (r: Vec<usize>)
    requires
        picks_ok(points_view(rtswap@), chanel as int, spp as int, indstart as int, indend as int),
    ensures
        r@.len() == apicks(points_view(rtswap@), chanel as int, spp as int, indstart as int, indend as int).len(),
        forall|j: int|
            0 <= j < r@.len() ==> #[trigger] r@[j] as int == apicks(
                points_view(rtswap@),
                chanel as int,
                spp as int,
                indstart as int,
                indend as int,
            )[j],
        forall|c: int|
            indstart < c < indend && #[trigger] rtswap@[c].achanels@[chanel as int] != rtswap@[c
                - 1].achanels@[chanel as int] ==> r@.contains(c as usize),
{
    let ghost s = points_view(rtswap@);
    proof {
        lemma_apicks_changes(s, chanel as int, spp as int, indstart as int, indend as int);
    }
    let mut r: Vec<usize> = Vec::new();
    r.push(indstart);
    let mut last: usize = indstart;
    let mut k: usize = 0;
    while k < indend - indstart
        invariant
            s == points_view(rtswap@),
            picks_ok(s, chanel as int, spp as int, indstart as int, indend as int),
            k <= indend - indstart,
            r@.len() == apick_run(s, chanel as int, spp as int, indstart as int, k as int).len(),
            forall|j: int|
                0 <= j < r@.len() ==> #[trigger] r@[j] as int == apick_run(
                    s,
                    chanel as int,
                    spp as int,
                    indstart as int,
                    k as int,
                )[j],
            last as int == apick_run(s, chanel as int, spp as int, indstart as int, k as int).last(),
            indstart <= last < indend,
        decreases indend - indstart - k,
    {
        proof {
            lemma_apick_range(s, chanel as int, spp as int, indstart as int, k as int);
        }
        let c: usize = indstart + k;
        assert(s[last as int] == rtswap@[last as int]@);
        assert(s[c as int] == rtswap@[c as int]@);
        assert(chanel < s[last as int].achanels.len() && chanel < s[c as int].achanels.len());
        assert(i64::MIN <= s[last as int].timestamp + spp <= i64::MAX);
        let lp = &rtswap[last];
        let cp = &rtswap[c];
        if lp.achanels[chanel] != cp.achanels[chanel] || lp.timestamp + spp < cp.timestamp {
            r.push(c);
            last = c;
        }
        k = k + 1;
    }
    r.push(indend - 1);
    proof {
        let all = apicks(s, chanel as int, spp as int, indstart as int, indend as int);
        assert forall|c: int|
            indstart < c < indend && #[trigger] rtswap@[c].achanels@[chanel as int] != rtswap@[c
                - 1].achanels@[chanel as int] implies r@.contains(c as usize) by {
            assert(s[c] == rtswap@[c]@ && s[c - 1] == rtswap@[c - 1]@);
            assert(s[c].achanels[chanel as int] != s[c - 1].achanels[chanel as int]);
            let j = choose|j: int| 0 <= j < all.len() && all[j] == c;
            assert(r@[j] as int == all[j]);
        }
    }
    r
}

/// The steps drawn for digital channel `ch` from the run `lo..lo + k`, as
/// pairs of time and digital word: the first sample, then at each sample
/// whose bit differs from the last one drawn, or that comes more than `spp`
/// after it, the old word at the new time followed by the new sample.
pub open spec fn dstep_run(s: Seq<PointView>, ch: nat, spp: int, lo: int, k: int) -> Seq<(i64, u64)>
    decreases k,
{
    if k <= 0 {
        seq![(s[lo].timestamp, s[lo].digital)]
    } else {
        let prev = dstep_run(s, ch, spp, lo, k - 1);
        let c = lo + k - 1;
        let last = prev.last();
        if dbit(last.1, ch) != dbit(s[c].digital, ch) || last.0 + spp < s[c].timestamp {
            prev.push((s[c].timestamp, last.1)).push((s[c].timestamp, s[c].digital))
        } else {
            prev
        }
    }
}

/// The steps drawn for digital channel `ch` between `lo` and `hi`, closed by the last sample.
pub open spec fn dsteps(s: Seq<PointView>, ch: nat, spp: int, lo: int, hi: int) -> Seq<(i64, u64)> {
    dstep_run(s, ch, spp, lo, hi - lo).push((s[hi - 1].timestamp, s[hi - 1].digital))
}

/// At the sample `c`, `steps` draws an edge of bit `ch`: the time of `c`
/// with a word holding the bit of the sample before, then `c` itself.
pub open spec fn edge_at(steps: Seq<(i64, u64)>, s: Seq<PointView>, ch: nat, c: int) -> bool {
    exists|j: int|
        0 <= j && j + 1 < steps.len() && #[trigger] steps[j].0 == s[c].timestamp && dbit(steps[j].1, ch)
            == dbit(s[c - 1].digital, ch) && steps[j + 1] == (s[c].timestamp, s[c].digital)
}

proof fn lemma_dstep_edges(s: Seq<PointView>, ch: nat, spp: int, lo: int, k: int)
    requires
        1 <= k,
    ensures
        dbit(dstep_run(s, ch, spp, lo, k).last().1, ch) == dbit(s[lo + k - 1].digital, ch),
        forall|c: int|
            lo < c < lo + k && dbit(#[trigger] s[c].digital, ch) != dbit(s[c - 1].digital, ch) ==> edge_at(
                dstep_run(s, ch, spp, lo, k),
                s,
                ch,
                c,
            ),
    decreases k,
{
    if k > 1 {
        lemma_dstep_edges(s, ch, spp, lo, k - 1);
        let prev = dstep_run(s, ch, spp, lo, k - 1);
        let cur = dstep_run(s, ch, spp, lo, k);
        let c0 = lo + k - 1;
        assert forall|c: int|
            lo < c < lo + k && dbit(#[trigger] s[c].digital, ch) != dbit(s[c - 1].digital, ch) implies edge_at(
            cur,
            s,
            ch,
            c,
        ) by {
            if c < c0 {
                let j = choose|j: int|
                    0 <= j && j + 1 < prev.len() && #[trigger] prev[j].0 == s[c].timestamp && dbit(prev[j].1, ch)
                        == dbit(s[c - 1].digital, ch) && prev[j + 1] == (s[c].timestamp, s[c].digital);
                assert(cur[j] == prev[j] && cur[j + 1] == prev[j + 1]);
            } else {
                let j = prev.len() as int;
                let last = prev.last();
                assert(dbit(last.1, ch) == dbit(s[c0 - 1].digital, ch));
                assert(dbit(last.1, ch) != dbit(s[c0].digital, ch));
                assert(cur == prev.push((s[c0].timestamp, last.1)).push((s[c0].timestamp, s[c0].digital)));
                assert(cur[j] == (s[c].timestamp, last.1));
                assert(cur[j + 1] == (s[c].timestamp, s[c].digital));
                assert(cur[j].0 == s[c].timestamp && dbit(cur[j].1, ch) == dbit(s[c - 1].digital, ch) && cur[j + 1] == (
                    s[c].timestamp,
                    s[c].digital,
                ));
            }
        }
    }
}

/// Every edge of digital channel `ch` between `lo` and `hi` is drawn: at
/// each sample whose bit differs from the sample before it, the steps hold
/// the sample's time with a word carrying the old bit, followed by the
/// sample's time and word.
pub proof fn lemma_dsteps_edges(s: Seq<PointView>, ch: nat, spp: int, lo: int, hi: int)
    requires
        lo < hi,
    ensures
        forall|c: int|
            lo < c < hi && dbit(#[trigger] s[c].digital, ch) != dbit(s[c - 1].digital, ch) ==> edge_at(
                dsteps(s, ch, spp, lo, hi),
                s,
                ch,
                c,
            ),
{
    lemma_dstep_edges(s, ch, spp, lo, hi - lo);
    let run = dstep_run(s, ch, spp, lo, hi - lo);
    let all = dsteps(s, ch, spp, lo, hi);
    assert forall|c: int| lo < c < hi && dbit(#[trigger] s[c].digital, ch) != dbit(s[c - 1].digital, ch) implies edge_at(
        all,
        s,
        ch,
        c,
    ) by {
        let j = choose|j: int|
            0 <= j && j + 1 < run.len() && #[trigger] run[j].0 == s[c].timestamp && dbit(run[j].1, ch) == dbit(
                s[c - 1].digital,
                ch,
            ) && run[j + 1] == (s[c].timestamp, s[c].digital);
        assert(all[j] == run[j] && all[j + 1] == run[j + 1]);
    }
}

/// The steps that the chart of digital channel `chanel` draws for
/// `rtswap[indstart..indend]`, as pairs of time and digital word.
pub fn dchanel_steps(rtswap: &[RtPoint], chanel: usize, spp: i64, indstart: usize, indend: usize) -> (r: Vec<(i64, u64)>)
    requires
        chanel <= 31,
        steps_ok(points_view(rtswap@), spp as int, indstart as int, indend as int),
    ensures
        r@ == dsteps(points_view(rtswap@), chanel as nat, spp as int, indstart as int, indend as int),
        forall|c: int|
            indstart < c < indend && dbit(#[trigger] rtswap@[c].digital, chanel as nat) != dbit(
                rtswap@[c - 1].digital,
                chanel as nat,
            ) ==> edge_at(r@, points_view(rtswap@), chanel as nat, c),
{
    let ghost s = points_view(rtswap@);
    proof {
        lemma_dsteps_edges(s, chanel as nat, spp as int, indstart as int, indend as int);
        assert forall|c: int| indstart < c < indend implies #[trigger] rtswap@[c].digital == s[c].digital && rtswap@[c
            - 1].digital == s[c - 1].digital by {
            assert(s[c] == rtswap@[c]@ && s[c - 1] == rtswap@[c - 1]@);
        }
    }
    assert forall|i: int| indstart <= i < indend implies i64::MIN <= (#[trigger] rtswap@[i]).timestamp + spp <= i64::MAX by {
        assert(s[i] == rtswap@[i]@);
    }
    let mut r: Vec<(i64, u64)> = Vec::new();
    r.push((rtswap[indstart].timestamp, rtswap[indstart].digital));
    let mut last: (i64, u64) = (rtswap[indstart].timestamp, rtswap[indstart].digital);
    let mut k: usize = 0;
    assert(r@ =~= dstep_run(s, chanel as nat, spp as int, indstart as int, 0));
    while k < indend - indstart
        invariant
            s == points_view(rtswap@),
            chanel <= 31,
            0 <= indstart < indend <= rtswap@.len(),
            forall|i: int|
                indstart <= i < indend ==> i64::MIN <= #[trigger] rtswap@[i].timestamp + spp <= i64::MAX,
            k <= indend - indstart,
            r@ == dstep_run(s, chanel as nat, spp as int, indstart as int, k as int),
            last == r@.last(),
            r@.len() >= 1,
            exists|i: int| indstart <= i < indend && #[trigger] rtswap@[i].timestamp == last.0,
        decreases indend - indstart - k,
    {
        let c: usize = indstart + k;
        assert(s[c as int] == rtswap@[c as int]@);
        let cp = &rtswap[c];
        let lb = rtmap_get_dchanal(last.1, chanel);
        let cb = rtmap_get_dchanal(cp.digital, chanel);
        let ghost li = choose|i: int| indstart <= i < indend && #[trigger] rtswap@[i].timestamp == last.0;
        assert(i64::MIN <= rtswap@[li].timestamp + spp <= i64::MAX);
        if lb != cb || last.0 + spp < cp.timestamp {
            r.push((cp.timestamp, last.1));
            r.push((cp.timestamp, cp.digital));
            last = (cp.timestamp, cp.digital);
            assert(rtswap@[c as int].timestamp == last.0);
        }
        k = k + 1;
    }
    let lastp = &rtswap[indend - 1];
    r.push((lastp.timestamp, lastp.digital));
    r
}

/// Cuts off the end of the compressed samples that lies after
/// `right_timestamp`: scanning from the end, the first sample at or before
/// it is kept with all before it. Returns how many samples were cut; when no
/// sample among all but the first qualifies, nothing is cut.
pub open spec fn trim_right_count(s: Seq<PointView>, right: i64, i: int) -> int
    decreases s.len() - i,
{
    if i >= s.len() - 1 {
        0
    } else if s[s.len() - 1 - i].timestamp <= right {
        i
    } else {
        trim_right_count(s, right, i + 1)
    }
}

/// Drops the compressed samples after `right_timestamp` from the end, as the
/// view's right edge moved left; returns how many were dropped.
pub fn trim_swap_right(rtswap: &mut Vec<RtPoint>, right_timestamp: i64) -> (r: usize)
    requires
        old(rtswap)@.len() > 0,
    ensures
        r as int == trim_right_count(points_view(old(rtswap)@), right_timestamp, 0),
        final(rtswap)@ == old(rtswap)@.subrange(0, old(rtswap)@.len() - r),
{
    let ghost s = points_view(rtswap@);
    let n = rtswap.len();
    let mut i: usize = 0;
    while i < n - 1
        invariant
            n == rtswap@.len(),
            n > 0,
            s == points_view(rtswap@),
            rtswap@ == old(rtswap)@,
            i <= n - 1,
            trim_right_count(s, right_timestamp, i as int) == trim_right_count(s, right_timestamp, 0),
        decreases n - i,
    {
        assert(s[n - 1 - i] == rtswap@[n - 1 - i]@);
        if rtswap[n - 1 - i].timestamp <= right_timestamp {
            let right_delete = i;
            let _tail = rtswap.split_off(n - right_delete);
            return right_delete;
        }
        i = i + 1;
    }
    assert(rtswap@ =~= old(rtswap)@.subrange(0, n as int));
    0
}

/// Scanning from the start, the index of the first sample at or after
/// `left`; 0 when no sample among all but the last qualifies.
pub open spec fn trim_left_count(s: Seq<PointView>, left: i64, i: int) -> int
    decreases s.len() - i,
{
    if i >= s.len() - 1 {
        0
    } else if s[i].timestamp >= left {
        i
    } else {
        trim_left_count(s, left, i + 1)
    }
}

/// Drops the compressed samples before `left_timestamp` from the start, as
/// the view's left edge moved right; returns how many were dropped.
pub fn trim_swap_left(rtswap: &mut Vec<RtPoint>, left_timestamp: i64) -> (r: usize)
    requires
        old(rtswap)@.len() > 0,
    ensures
        r as int == trim_left_count(points_view(old(rtswap)@), left_timestamp, 0),
        final(rtswap)@ == old(rtswap)@.subrange(r as int, old(rtswap)@.len() as int),
{
    let ghost s = points_view(rtswap@);
    let n = rtswap.len();
    let mut i: usize = 0;
    while i < n - 1
        invariant
            n == rtswap@.len(),
            n > 0,
            s == points_view(rtswap@),
            rtswap@ == old(rtswap)@,
            i <= n - 1,
            trim_left_count(s, left_timestamp, i as int) == trim_left_count(s, left_timestamp, 0),
        decreases n - i,
    {
        assert(s[i as int] == rtswap@[i as int]@);
        if rtswap[i].timestamp >= left_timestamp {
            let left_delete = i;
            let tail = rtswap.split_off(left_delete);
            *rtswap = tail;
            return left_delete;
        }
        i = i + 1;
    }
    assert(rtswap@ =~= old(rtswap)@.subrange(0, n as int));
    0
}


proof fn lemma_trim_right_bound(s: Seq<PointView>, right: i64, i: int)
    requires
        s.len() > 0,
        0 <= i,
    ensures
        0 <= trim_right_count(s, right, i) < s.len(),
    decreases s.len() - i,
{
    if i < s.len() - 1 && s[s.len() - 1 - i].timestamp > right {
        lemma_trim_right_bound(s, right, i + 1);
    }
}

proof fn lemma_trim_left_bound(s: Seq<PointView>, left: i64, i: int)
    requires
        s.len() > 0,
        0 <= i,
    ensures
        0 <= trim_left_count(s, left, i) < s.len(),
    decreases s.len() - i,
{
    if i < s.len() - 1 && s[i].timestamp < left {
        lemma_trim_left_bound(s, left, i + 1);
    }
}

proof fn lemma_points_view_subrange(s: Seq<RtPoint>, a: int, b: int)
    requires
        0 <= a <= b <= s.len(),
    ensures
        points_view(s.subrange(a, b)) == points_view(s).subrange(a, b),
{
    assert(points_view(s.subrange(a, b)) =~= points_view(s).subrange(a, b));
}

proof fn lemma_points_view_add(s: Seq<RtPoint>, t: Seq<RtPoint>)
    ensures
        points_view(s + t) == points_view(s) + points_view(t),
{
    assert(points_view(s + t) =~= points_view(s) + points_view(t));
}

/// The compressed view as values: its samples, the indices in the map of
/// the first and last sample it was made from, the sample at which its
/// last stretch closed, and the bounds of the time axis it was made for.
pub struct SwapModel {
    pub rtswap: Seq<PointView>,
    pub first: int,
    pub begin: int,
    pub end: int,
    pub xptbound: [i64; 2],
}

/// The compressed samples behind the charts, kept between updates.
pub struct SwapView {
    pub rtswap: Vec<RtPoint>,
    pub first: usize,
    pub begin: usize,
    pub end: usize,
    pub xptbound: [i64; 2],
}

impl View for SwapView {
    type V = SwapModel;

    open spec fn view(&self) -> SwapModel {
        SwapModel {
            rtswap: points_view(self.rtswap@),
            first: self.first as int,
            begin: self.begin as int,
            end: self.end as int,
            xptbound: self.xptbound,
        }
    }
}

impl SwapView {
    /// An empty view, made for no part of the map.
    pub fn new() -> (r: Self)
        ensures
            r@ == (SwapModel { rtswap: Seq::empty(), first: 0, begin: 0, end: 0, xptbound: [0i64, 0i64] }),
    {
        let r = SwapView { rtswap: Vec::new(), first: 0, begin: 0, end: 0, xptbound: [0, 0] };
        assert(r@.rtswap =~= Seq::<PointView>::empty());
        r
    }
}

/// What an update of the compressed view did at its growing stage: the
/// samples of the map that the view of the time axis covers (`first` to
/// `last`), how many compressed samples it put before and after the old
/// ones, and whether it took over the bounds of the time axis.
#[derive(PartialEq, Eq, Structural, Clone, Copy, Debug)]
pub struct SwapExtent {
    pub first: usize,
    pub last: usize,
    pub left_append: usize,
    pub right_append: usize,
    pub bounds_taken: bool,
}

/// `a` or `b`, the larger.
pub open spec fn max_int(a: int, b: int) -> int {
    if a > b {
        a
    } else {
        b
    }
}

/// The growing stage of an update for the view of the time axis `xtbound`,
/// with `spp` samples per stretch. `Full` compresses the covered samples
/// anew. `Add` compresses the samples after the old end and before the old
/// first sample, and keeps each such part only when it gives more than two
/// compressed samples. `None` is an error: `Add` with a closing sample past
/// the map, `Full` over no sample, or `spp` zero where something is to be
/// compressed. The result is the new view and (`first`, `last`,
/// `left_append`, `right_append`, `bounds_taken`).
pub open spec fn extend_step(
    m: SwapModel,
    v: Seq<PointView>,
    xtbound: [i64; 2],
    spp: usize,
    mode: SwapMod,
    run: bool,
) -> (SwapModel, Option<(int, int, int, int, bool)>) {
    if mode == SwapMod::Add && m.begin >= v.len() {
        (m, None)
    } else {
        let (first, last) = window_spec(times(v), xtbound, run);
        if mode == SwapMod::Full {
            let m0 = SwapModel { begin: 0, ..m };
            if first == last || spp == 0 {
                (m0, None)
            } else {
                let (c, reti) = compressed(v.subrange(first, last), spp);
                (
                    SwapModel { rtswap: c, first: first, begin: first + reti, end: last, xptbound: xtbound },
                    Some((first, last, 0, 0, true)),
                )
            }
        } else {
            let rlast = max_int(last, m.end);
            if spp == 0 && (m.end < rlast || first < m.first) {
                (m, None)
            } else {
                let cr = compressed(v.subrange(m.end, rlast), spp).0;
                let right = m.end < rlast && cr.len() > 2;
                let m1 = if right {
                    SwapModel { rtswap: m.rtswap + cr, end: rlast, xptbound: xtbound, ..m }
                } else {
                    m
                };
                let cl = compressed(v.subrange(first, m1.first), spp).0;
                let left = first < m1.first && cl.len() > 2;
                let m2 = if left {
                    SwapModel { rtswap: cl + m1.rtswap, first: first, ..m1 }
                } else {
                    m1
                };
                (
                    m2,
                    Some(
                        (
                            first,
                            last,
                            if left { cl.len() as int } else { 0 },
                            if right { cr.len() as int } else { 0 },
                            right,
                        ),
                    ),
                )
            }
        }
    }
}

/// Where the growing stage does not fail on a slice or an overflow: the map
/// is not empty, the window is well placed, and each part it compresses
/// satisfies the compressor's condition.
pub open spec fn extend_ok(
    m: SwapModel,
    v: Seq<PointView>,
    xtbound: [i64; 2],
    spp: usize,
    mode: SwapMod,
    run: bool,
) -> bool {
    (mode == SwapMod::Add && m.begin >= v.len()) || {
        &&& v.len() > 0
        &&& run ==> window_run_ok(times(v), xtbound)
        &&& ({
            let (first, last) = window_spec(times(v), xtbound, run);
            if mode == SwapMod::Full {
                first <= last && (first < last && spp > 0 ==> compress_input_ok(v.subrange(first, last)))
            } else {
                let rlast = max_int(last, m.end);
                let right_fails = m.end < rlast && spp == 0;
                &&& (m.end < rlast && spp > 0 ==> compress_input_ok(v.subrange(m.end, rlast)))
                &&& (first < m.first && !right_fails ==> m.first <= v.len())
                &&& (first < m.first && spp > 0 ==> compress_input_ok(v.subrange(first, m.first)))
            }
        })
    }
}

/// Brings the compressed view up to date for the view of the time axis
/// `xtbound` by compressing, with `spp` samples per stretch, the samples it
/// covers (`Full`) or those it newly covers at either end (`Add`); the
/// samples it no longer covers are dropped by `swap_shrink`.
pub fn swap_extend(
    view: &mut SwapView,
    rtmap: &Vec<RtPoint>,
    xtbound: [i64; 2],
    spp: usize,
    mode: SwapMod,
    run: bool,
) -> (r: Result<SwapExtent, &'static str>)
    requires
        extend_ok(old(view)@, points_view(rtmap@), xtbound, spp, mode, run),
    ensures
        ({
            let (m, x) = extend_step(old(view)@, points_view(rtmap@), xtbound, spp, mode, run);
            &&& final(view)@ == m
            &&& (r is Ok <==> x is Some)
            &&& r matches Err(e) ==> e == (if mode == SwapMod::Add && old(view)@.begin >= rtmap@.len() {
                "Rtswap begin range"
            } else {
                "compressor index error"
            })
            &&& r matches Ok(e) ==> x == Some(
                (
                    e.first as int,
                    e.last as int,
                    e.left_append as int,
                    e.right_append as int,
                    e.bounds_taken,
                ),
            )
        }),
{
    let ghost v = points_view(rtmap@);
    let ghost m = view@;
    if mode == SwapMod::Add {
        if view.begin >= rtmap.len() {
            return Err("Rtswap begin range");
        }
    } else {
        view.begin = 0;
    }
    let sl = rtmap.as_slice();
    let (first, last) = swap_window(sl, xtbound, run);
    if mode == SwapMod::Full {
        let part = vstd::slice::slice_subrange(sl, first, last);
        proof {
            lemma_points_view_subrange(rtmap@, first as int, last as int);
        }
        match swap_compressor(part, spp) {
            Err(e) => {
                return Err(e);
            },
            Ok((c, reti)) => {
                view.rtswap = c;
                view.first = first;
                view.begin = first + reti;
                view.end = last;
                view.xptbound = xtbound;
                return Ok(
                    SwapExtent { first, last, left_append: 0, right_append: 0, bounds_taken: true },
                );
            },
        }
    }
    let rlast: usize = if last > view.end { last } else { view.end };
    if spp == 0 && (view.end < rlast || first < view.first) {
        return Err("compressor index error");
    }
    let mut right_append: usize = 0;
    let mut bounds_taken: bool = false;
    let ghost cr = compressed(v.subrange(m.end, rlast as int), spp).0;
    if view.end < rlast {
        let part = vstd::slice::slice_subrange(sl, view.end, rlast);
        proof {
            lemma_points_view_subrange(rtmap@, m.end, rlast as int);
        }
        match swap_compressor(part, spp) {
            Err(e) => {
                return Err(e);
            },
            Ok((mut c, _)) => {
                if c.len() > 2 {
                    right_append = c.len();
                    proof {
                        lemma_points_view_add(view.rtswap@, c@);
                    }
                    view.rtswap.append(&mut c);
                    view.xptbound = xtbound;
                    view.end = rlast;
                    bounds_taken = true;
                }
            },
        }
    }
    let ghost m1 = view@;
    let mut left_append: usize = 0;
    if first < view.first {
        let part = vstd::slice::slice_subrange(sl, first, view.first);
        proof {
            lemma_points_view_subrange(rtmap@, first as int, m1.first);
        }
        match swap_compressor(part, spp) {
            Err(e) => {
                return Err(e);
            },
            Ok((mut c, _)) => {
                if c.len() > 2 {
                    left_append = c.len();
                    proof {
                        lemma_points_view_add(c@, view.rtswap@);
                    }
                    c.append(&mut view.rtswap);
                    view.rtswap = c;
                    view.first = first;
                }
            },
        }
    }
    Ok(SwapExtent { first, last, left_append, right_append, bounds_taken })
}

/// Tells whether `swap_extend` may be called with these arguments.
pub fn swap_extend_in_range(
    view: &SwapView,
    rtmap: &Vec<RtPoint>,
    xtbound: [i64; 2],
    spp: usize,
    mode: SwapMod,
    run: bool,
) -> (r: bool)
    ensures
        r == extend_ok(view@, points_view(rtmap@), xtbound, spp, mode, run),
{
    let ghost v = points_view(rtmap@);
    if mode == SwapMod::Add && view.begin >= rtmap.len() {
        return true;
    }
    if rtmap.len() == 0 {
        return false;
    }
    if run && !swap_window_in_range(rtmap.as_slice(), xtbound) {
        return false;
    }
    let sl = rtmap.as_slice();
    let (first, last) = swap_window(sl, xtbound, run);
    if mode == SwapMod::Full {
        if first > last {
            return false;
        }
        if first < last && spp > 0 {
            proof {
                lemma_points_view_subrange(rtmap@, first as int, last as int);
            }
            return compress_input_fits(vstd::slice::slice_subrange(sl, first, last));
        }
        return true;
    }
    let rlast: usize = if last > view.end { last } else { view.end };
    if view.end < rlast && spp > 0 {
        proof {
            lemma_points_view_subrange(rtmap@, view.end as int, rlast as int);
        }
        if !compress_input_fits(vstd::slice::slice_subrange(sl, view.end, rlast)) {
            return false;
        }
    }
    let right_fails = view.end < rlast && spp == 0;
    if first < view.first && !right_fails && view.first > rtmap.len() {
        return false;
    }
    if first < view.first && spp > 0 {
        if view.first > rtmap.len() {
            return false;
        }
        proof {
            lemma_points_view_subrange(rtmap@, first as int, view.first as int);
        }
        return compress_input_fits(vstd::slice::slice_subrange(sl, first, view.first));
    }
    true
}

/// The shrinking stage of an update: when the view of the time axis ends
/// before the old last sample, the compressed samples after `xtbound[1]` are
/// dropped; when it starts after the old first sample, those before
/// `xtbound[0]`. The result is the new view and the numbers dropped at the
/// start and at the end.
pub open spec fn shrink_step(m: SwapModel, first: int, last: int, xtbound: [i64; 2]) -> (SwapModel, int, int) {
    let rd = if last < m.end { trim_right_count(m.rtswap, xtbound[1], 0) } else { 0 };
    let m1 = if last < m.end {
        SwapModel { end: last, rtswap: m.rtswap.subrange(0, m.rtswap.len() - rd), ..m }
    } else {
        m
    };
    let ld = if first > m1.first { trim_left_count(m1.rtswap, xtbound[0], 0) } else { 0 };
    let m2 = if first > m1.first {
        SwapModel { first: first, rtswap: m1.rtswap.subrange(ld, m1.rtswap.len() as int), ..m1 }
    } else {
        m1
    };
    (m2, ld, rd)
}

/// Drops from the compressed view what the view of the time axis, covering
/// the samples `first` to `last` of the map, no longer covers; returns how
/// many compressed samples went at the start and at the end.
pub fn swap_shrink(view: &mut SwapView, first: usize, last: usize, xtbound: [i64; 2]) -> (r: (usize, usize))
    requires
        last < old(view).end || first > old(view).first ==> old(view).rtswap@.len() > 0,
    ensures
        (final(view)@, r.0 as int, r.1 as int) == shrink_step(old(view)@, first as int, last as int, xtbound),
{
    let ghost m = view@;
    let mut right_delete: usize = 0;
    if last < view.end {
        view.end = last;
        proof {
            lemma_trim_right_bound(points_view(view.rtswap@), xtbound[1], 0);
        }
        let ghost before = view.rtswap@;
        right_delete = trim_swap_right(&mut view.rtswap, xtbound[1]);
        proof {
            lemma_points_view_subrange(before, 0, before.len() - right_delete);
        }
    }
    let ghost m1 = view@;
    let mut left_delete: usize = 0;
    if first > view.first {
        view.first = first;
        proof {
            lemma_trim_left_bound(points_view(view.rtswap@), xtbound[0], 0);
        }
        let ghost before = view.rtswap@;
        left_delete = trim_swap_left(&mut view.rtswap, xtbound[0]);
        proof {
            lemma_points_view_subrange(before, left_delete as int, before.len() as int);
        }
    }
    (left_delete, right_delete)
}


/// The zoom-fit counter at the end of a redraw: from 2 it counts up to 5,
/// then rests at 0; 0 (idle) and 1 (fit requested) stay as they are.
pub open spec fn zoom_next(abounds: int) -> int {
    if abounds > 1 {
        if abounds < 5 {
            abounds + 1
        } else {
            0
        }
    } else {
        abounds
    }
}

/// Steps the zoom-fit counter at the end of a redraw.
pub fn zoom_step(abounds: u8) -> (r: u8)
    ensures
        r == zoom_next(abounds as int),
{
    if abounds > 1 {
        if abounds < 5 {
            abounds + 1
        } else {
            0
        }
    } else {
        abounds
    }
}

/// How a redraw brings the compressed view up to date: for the time span
/// `xtbound`, in mode `mode`; `fit` when it fits the whole map on request.
#[derive(Clone, Copy, Debug)]
pub struct RedrawPlan {
    pub xtbound: [i64; 2],
    pub mode: SwapMod,
    pub fit: bool,
}

/// The update a redraw asks for. While recording it follows the live span
/// `live`; on a fit request (`abounds` 1) it rebuilds the view over the
/// whole map, from its first to its last timestamp; otherwise it follows
/// the span `shown` on the chart.
pub fn redraw_plan(
    rt: bool,
    abounds: u8,
    live: [i64; 2],
    rtmap: &[RtPoint],
    shown: [i64; 2],
    mode: SwapMod,
) -> (r: RedrawPlan)
    requires
        !rt && abounds == 1 ==> rtmap@.len() > 0,
    ensures
        r == (if rt {
            RedrawPlan { xtbound: live, mode: mode, fit: false }
        } else if abounds == 1 {
            RedrawPlan {
                xtbound: [rtmap@[0].timestamp, rtmap@[rtmap@.len() - 1].timestamp],
                mode: SwapMod::Full,
                fit: true,
            }
        } else {
            RedrawPlan { xtbound: shown, mode: mode, fit: false }
        }),
{
    if rt {
        RedrawPlan { xtbound: live, mode, fit: false }
    } else if abounds == 1 {
        let whole = [rtmap[0].timestamp, rtmap[rtmap.len() - 1].timestamp];
        RedrawPlan { xtbound: whole, mode: SwapMod::Full, fit: true }
    } else {
        RedrawPlan { xtbound: shown, mode, fit: false }
    }
}


/// Joining newly drawn points after those already drawn: how many leading
/// new points (by timestamp `new_ts`) are not later than the last point
/// drawn, `old_last`; they are dropped.
pub fn covered_front(old_last: i64, new_ts: &[i64]) -> (r: usize)
    requires
        new_ts@.len() > 0,
    ensures
        r <= new_ts@.len(),
        forall|i: int| 0 <= i < r ==> new_ts@[i] <= old_last,
        r < new_ts@.len() ==> new_ts@[r as int] > old_last,
{
    let mut k: usize = 0;
    while k < new_ts.len() && new_ts[k] <= old_last
        invariant
            k <= new_ts@.len(),
            forall|i: int| 0 <= i < k ==> new_ts@[i] <= old_last,
        decreases new_ts@.len() - k,
    {
        k = k + 1;
    }
    k
}

/// Joining newly drawn points before those already drawn: the new points
/// are all dropped when the last of them is not earlier than the first
/// point drawn, `old_first`, and all kept otherwise; returns how many go.
pub fn covered_back(old_first: i64, new_ts: &[i64]) -> (r: usize)
    requires
        new_ts@.len() > 0,
    ensures
        r == (if old_first <= new_ts@[new_ts@.len() - 1] { new_ts@.len() as int } else { 0int }),
{
    if old_first <= new_ts[new_ts.len() - 1] {
        new_ts.len()
    } else {
        0
    }
}

/// Dropping drawn points after `right` from the end: the number dropped.
/// It is the count after the last point, among all but the first, that is
/// not later than `right`; none go when there is no such point.
pub fn points_after(ts: &[i64], right: i64) -> (r: usize)
    requires
        ts@.len() > 0,
    ensures
        r < ts@.len(),
        (exists|k: int| 1 <= k < ts@.len() && ts@[k] <= right) ==> 1 <= ts@.len() - 1 - r && ts@[ts@.len() - 1
            - r] <= right && forall|j: int| ts@.len() - 1 - r < j < ts@.len() ==> ts@[j] > right,
        (forall|k: int| 1 <= k < ts@.len() ==> ts@[k] > right) ==> r == 0,
{
    let n = ts.len();
    let mut ii: usize = 0;
    while ii < n - 1
        invariant
            n == ts@.len(),
            n > 0,
            ii <= n - 1,
            forall|j: int| n - 1 - ii < j < n ==> ts@[j] > right,
        decreases n - 1 - ii,
    {
        if ts[n - 1 - ii] <= right {
            return ii;
        }
        ii = ii + 1;
    }
    0
}

/// Dropping drawn points before `left` from the start: the number dropped.
/// It is the index of the first point, among all but the last, that is not
/// earlier than `left`; none go when there is no such point.
pub fn points_before(ts: &[i64], left: i64) -> (r: usize)
    requires
        ts@.len() > 0,
    ensures
        r < ts@.len(),
        (exists|k: int| 0 <= k < ts@.len() - 1 && ts@[k] >= left) ==> ts@[r as int] >= left && forall|j: int|
            0 <= j < r ==> ts@[j] < left,
        (forall|k: int| 0 <= k < ts@.len() - 1 ==> ts@[k] < left) ==> r == 0,
{
    let n = ts.len();
    let mut ii: usize = 0;
    while ii < n - 1
        invariant
            n == ts@.len(),
            n > 0,
            ii <= n - 1,
            forall|j: int| 0 <= j < ii ==> ts@[j] < left,
        decreases n - 1 - ii,
    {
        if ts[ii] >= left {
            return ii;
        }
        ii = ii + 1;
    }
    0
}

/// Where the drawn points stand after an extending update: `indendp` is the
/// index in the compressed view of the last point drawn. When more points
/// were dropped at the start than the old ones and the new ones before them
/// cover, the points are drawn anew (`None`); otherwise the index at which
/// the old points now end and the index of the last point after the update.
pub fn plot_indices(
    indendp: usize,
    left_append: usize,
    left_delete: usize,
    right_append: usize,
    right_delete: usize,
) -> (r: Option<(usize, usize)>)
    requires
        indendp + left_append <= usize::MAX,
        indendp + left_append >= left_delete ==> indendp + left_append - left_delete + right_append <= usize::MAX
            && indendp + left_append - left_delete + right_append >= right_delete,
    ensures
        r == (if indendp + left_append < left_delete {
            None
        } else {
            Some(
                (
                    (indendp + left_append - left_delete) as usize,
                    (indendp + left_append - left_delete + right_append - right_delete) as usize,
                ),
            )
        }),
{
    if indendp + left_append < left_delete {
        None
    } else {
        let shift = indendp + left_append - left_delete;
        Some((shift, shift + right_append - right_delete))
    }
}


/// The update mode and zoom-fit counter after the update a redraw asked
/// for: once it succeeds the next one extends the view (`Add`), and a
/// successful fit moves the counter on to 2; a failed one changes nothing.
pub fn after_redraw(plan: &RedrawPlan, ok: bool, abounds: u8, mode: SwapMod) -> (r: (SwapMod, u8))
    ensures
        r == (if ok {
            (SwapMod::Add, if plan.fit { 2u8 } else { abounds })
        } else {
            (mode, abounds)
        }),
{
    if ok {
        (SwapMod::Add, if plan.fit { 2u8 } else { abounds })
    } else {
        (mode, abounds)
    }
}

/// The zoom-fit counter over a whole redraw from `a0`: `zoom_step`, then the
/// plan of `redraw_plan` (a fit when not recording and the counter is 1),
/// then `after_redraw` with the outcome `ok` of the update.
pub open spec fn redraw_counter(a0: int, rt: bool, ok: bool) -> int {
    let a1 = zoom_next(a0);
    let fit = !rt && a1 == 1;
    if ok && fit {
        2
    } else {
        a1
    }
}

/// Over a whole redraw the zoom-fit counter stays within 0..=5: from 2 to
/// 4 it counts up, from 5 it falls to 0, 0 stays 0, and 1 becomes 2 after a
/// successful fit while not recording and stays 1 otherwise.
pub proof fn lemma_redraw_counter(a0: int, rt: bool, ok: bool)
    requires
        0 <= a0 <= 5,
    ensures
        0 <= redraw_counter(a0, rt, ok) <= 5,
        2 <= a0 <= 4 ==> redraw_counter(a0, rt, ok) == a0 + 1,
        a0 == 5 ==> redraw_counter(a0, rt, ok) == 0,
        a0 == 0 ==> redraw_counter(a0, rt, ok) == 0,
        a0 == 1 ==> redraw_counter(a0, rt, ok) == (if !rt && ok { 2int } else { 1int }),
{
}

} // verus!
