//! Samples of the analog and digital channels and the map that holds them.

use vstd::prelude::*;

verus! {

/// Number of analog channels in every sample.
pub const ACHANELS: usize = 16;

/// Number of digital channels packed into the `digital` word of a sample.
pub const DCHANELS: usize = 32;

/// The mathematical content of a sample.
pub struct PointView {
    pub nan: bool,
    pub timestamp: i64,
    pub achanels: Seq<i16>,
    pub digital: u64,
}

/// One sample: a timestamp in microseconds, the analog channel values and
/// the digital channels as a bit word.
pub struct RtPoint {
    pub nan: bool,
    pub timestamp: i64,
    pub achanels: Vec<i16>,
    pub digital: u64,
}

impl View for RtPoint {
    type V = PointView;

    open spec fn view(&self) -> PointView {
        PointView {
            nan: self.nan,
            timestamp: self.timestamp,
            achanels: self.achanels@,
            digital: self.digital,
        }
    }
}

impl Clone for RtPoint {
    fn clone(&self) -> (r: Self)
        ensures
            r@ == self@,
    {
        let achanels = self.achanels.clone();
        assert(achanels@ =~= self.achanels@);
        RtPoint { nan: self.nan, timestamp: self.timestamp, achanels, digital: self.digital }
    }
}

/// The views of a sequence of samples.
pub open spec fn points_view(s: Seq<RtPoint>) -> Seq<PointView> {
    s.map_values(|p: RtPoint| p@)
}

/// The views of a sequence grow by one view when a sample is pushed.
pub proof fn lemma_points_view_push(s: Seq<RtPoint>, p: RtPoint)
    ensures
        points_view(s.push(p)) == points_view(s).push(p@),
{
    assert(points_view(s.push(p)) =~= points_view(s).push(p@));
}

/// Bit `chanel` of the digital word, as 0 or 1.
pub open spec fn dbit(vin: u64, chanel: nat) -> u64 {
    (vin >> (chanel as u64)) & 1u64
}

/// Returns the state (0 or 1) of digital channel `chanel` in the word `vin`.
pub fn rtmap_get_dchanal(vin: u64, chanel: usize) -> (r: u64)
    requires
        chanel <= 31,
    ensures
        r == dbit(vin, chanel as nat),
        r <= 1,
{
    let c: u64 = chanel as u64;
    let r = (vin & (1u64 << c)) >> c;
    assert(((vin & (1u64 << c)) >> c) == ((vin >> c) & 1u64) && ((vin >> c) & 1u64) <= 1) by (bit_vector)
        requires
            c <= 31,
    ;
    r
}


/// A sample of all-zero channels at the given time.
pub open spec fn zero_point(timestamp: int) -> PointView {
    PointView {
        nan: false,
        timestamp: timestamp as i64,
        achanels: Seq::new(ACHANELS as nat, |j: int| 0i16),
        digital: 0,
    }
}

/// Timestamps never decrease along the sequence.
pub open spec fn sorted_by_time(s: Seq<PointView>) -> bool {
    forall|i: int, j: int| 0 <= i <= j < s.len() ==> s[i].timestamp <= s[j].timestamp
}

/// What `rtmap_push` makes of the samples `s` when handed `p`: the sample
/// is appended unless it is earlier than the last one held.
pub open spec fn pushed(s: Seq<PointView>, p: PointView) -> Seq<PointView> {
    if s.last().timestamp > p.timestamp {
        s
    } else {
        s.push(p)
    }
}

/// The samples measured by the oscilloscope, oldest first.
pub struct Rtmap {
    pub rtmap: Vec<RtPoint>,
}

impl Rtmap {
    /// The samples held, as views.
    pub open spec fn samples(&self) -> Seq<PointView> {
        points_view(self.rtmap@)
    }

    /// Creates `samples` zero samples spaced by `deltatime`, the newest at
    /// `timestamp`: sample `x` is at `timestamp - (samples - 1 - x) * deltatime`.
    pub fn new(samples: usize, timestamp: i64, deltatime: i64) -> (r: Self)
        requires
            samples > 0,
            samples <= i64::MAX,
            i64::MIN <= (samples - 1) * deltatime <= i64::MAX,
            i64::MIN <= timestamp - (samples - 1) * deltatime <= i64::MAX,
        ensures
            r.rtmap@.len() == samples,
            forall|x: int|
                0 <= x < samples ==> #[trigger] r.rtmap@[x]@ == zero_point(
                    timestamp - (samples - 1) * deltatime + x * deltatime,
                ),
            r.rtmap@[samples - 1].timestamp == timestamp,
            r.rtmap@[0].timestamp == timestamp - (samples - 1) * deltatime,
            deltatime >= 0 ==> sorted_by_time(r.samples()),
    {
        let n: i64 = samples as i64;
        let span: i64 = (n - 1) * deltatime;
        let starttime: i64 = timestamp - span;
        let ghost m: int = samples - 1;
        let mut rtmap: Vec<RtPoint> = Vec::new();
        let mut x: usize = 0;
        while x < samples
            invariant
                x <= samples,
                n == samples,
                m == samples - 1,
                span == m * deltatime,
                starttime == timestamp - m * deltatime,
                i64::MIN <= m * deltatime <= i64::MAX,
                i64::MIN <= timestamp - m * deltatime <= i64::MAX,
                rtmap@.len() == x,
                forall|k: int|
                    0 <= k < x ==> #[trigger] rtmap@[k]@ == zero_point(
                        timestamp - m * deltatime + k * deltatime,
                    ),
            decreases samples - x,
        {
            let xi: i64 = x as i64;
            proof {
                lemma_step_in_range(x as int, m, deltatime as int);
            }
            let offset: i64 = xi * deltatime;
            let mut achanels: Vec<i16> = Vec::new();
            let mut j: usize = 0;
            while j < ACHANELS
                invariant
                    j <= ACHANELS,
                    achanels@.len() == j,
                    forall|k: int| 0 <= k < j ==> achanels@[k] == 0i16,
                decreases ACHANELS - j,
            {
                achanels.push(0);
                j = j + 1;
            }
            assert(achanels@ =~= Seq::new(ACHANELS as nat, |j: int| 0i16));
            rtmap.push(RtPoint { nan: false, timestamp: starttime + offset, achanels, digital: 0 });
            x = x + 1;
        }
        let r = Rtmap { rtmap };
        proof {
            assert(r.rtmap@[m]@ == zero_point(timestamp - m * deltatime + m * deltatime));
            assert(r.rtmap@[0]@ == zero_point(timestamp - m * deltatime + 0 * deltatime));
            if deltatime >= 0 {
                assert forall|i: int, j: int|
                    0 <= i <= j < r.samples().len() implies r.samples()[i].timestamp
                    <= r.samples()[j].timestamp by {
                    assert(r.rtmap@[i]@ == zero_point(timestamp - m * deltatime + i * deltatime));
                    assert(r.rtmap@[j]@ == zero_point(timestamp - m * deltatime + j * deltatime));
                    lemma_step_in_range(i, m, deltatime as int);
                    lemma_step_in_range(j, m, deltatime as int);
                    assert(i * deltatime <= j * deltatime) by (nonlinear_arith)
                        requires
                            0 <= i <= j,
                            deltatime >= 0,
                    ;
                }
            }
        }
        r
    }

    /// Appends a sample, unless it is earlier than the newest sample held,
    /// in which case the map is left as it is.
    pub fn rtmap_push(&mut self, rtpoint: RtPoint)
        requires
            old(self).rtmap@.len() > 0,
        ensures
            final(self).samples() == pushed(old(self).samples(), rtpoint@),
            sorted_by_time(old(self).samples()) ==> sorted_by_time(final(self).samples()),
    {
        let lasttime = self.rtmap[self.rtmap.len() - 1].timestamp;
        if lasttime > rtpoint.timestamp {
            return;
        }
        let ghost before = self.samples();
        self.rtmap.push(rtpoint.clone());
        assert(self.samples() =~= before.push(rtpoint@));
        proof {
            if sorted_by_time(before) {
                lemma_push_keeps_sorted(before, rtpoint@);
            }
        }
    }
}

/// A step `x * deltatime` of the series lies between 0 and the whole span.
proof fn lemma_step_in_range(x: int, samples: int, deltatime: int)
    requires
        0 <= x <= samples,
    ensures
        deltatime >= 0 ==> 0 <= x * deltatime <= samples * deltatime,
        deltatime < 0 ==> samples * deltatime <= x * deltatime <= 0,
{
    if deltatime >= 0 {
        assert(0 <= x * deltatime <= samples * deltatime) by (nonlinear_arith)
            requires
                0 <= x <= samples,
                deltatime >= 0,
        ;
    } else {
        assert(samples * deltatime <= x * deltatime <= 0) by (nonlinear_arith)
            requires
                0 <= x <= samples,
                deltatime < 0,
        ;
    }
}

/// Pushing a sample onto a non-empty map ordered by time keeps it ordered
/// by time: a sample earlier than the newest one is turned away.
pub proof fn lemma_push_keeps_sorted(s: Seq<PointView>, p: PointView)
    requires
        s.len() > 0,
        sorted_by_time(s),
    ensures
        sorted_by_time(pushed(s, p)),
{
    if s.last().timestamp <= p.timestamp {
        let t = s.push(p);
        assert forall|i: int, j: int| 0 <= i <= j < t.len() implies t[i].timestamp
            <= t[j].timestamp by {
            if j == s.len() && i < s.len() {
                assert(s[i].timestamp <= s[s.len() - 1].timestamp);
            }
        }
    }
}

} // verus!
