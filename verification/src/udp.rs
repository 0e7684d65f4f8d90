//! The UDP packet format of the measuring device and the decisions of the
//! receiving loop: parsing datagrams, aligning device time to wall-clock
//! time and handing batches of samples to the display.

use vstd::prelude::*;
use crate::rtmap::{ACHANELS, RtPoint, PointView, points_view, lemma_points_view_push};

verus! {

/// UDP port listened on by default.
pub const DEF_UDP_PORT: usize = 55512;

/// Length in bytes of one sample in a datagram.
pub const UDP_PACK_SIZE: usize = 44;

/// Big-endian unsigned value of the four bytes at `off`.
pub open spec fn be_u32(b: Seq<u8>, off: int) -> int {
    b[off] * 16777216 + b[off + 1] * 65536 + b[off + 2] * 256 + b[off + 3]
}

/// Big-endian two's-complement value of the bytes `hi`, `lo`.
pub open spec fn be_i16(hi: u8, lo: u8) -> i16 {
    let v = hi * 256 + lo;
    (if v < 32768 {
        v
    } else {
        v - 65536
    }) as i16
}

/// A packet is accepted unless both of its header bytes are wrong.
pub open spec fn header_ok(b: Seq<u8>, off: int) -> bool {
    b[off] == 0x55u8 || b[off + 1] == 0x33u8
}

/// The sample that the packet at `off` encodes: header (2 bytes), timestamp
/// (4), the analog channels (2 each), the digital word (4), then 2 spare bytes.
pub open spec fn packet_point(b: Seq<u8>, off: int) -> PointView {
    PointView {
        nan: false,
        timestamp: be_u32(b, off + 2) as i64,
        achanels: Seq::new(
            ACHANELS as nat,
            |j: int| be_i16(b[off + 6 + 2 * j], b[off + 7 + 2 * j]),
        ),
        digital: be_u32(b, off + 38) as u64,
    }
}

/// The headers of the first `k` packets are accepted.
pub open spec fn packets_ok(b: Seq<u8>, k: int) -> bool {
    forall|j: int| 0 <= j < k ==> #[trigger] header_ok(b, 44 * j)
}

/// The first `blen` bytes form a whole, non-zero number of packets, all accepted.
pub open spec fn parse_ok(b: Seq<u8>, blen: int) -> bool {
    blen != 0 && blen % 44 == 0 && packets_ok(b, blen / 44)
}

/// The samples of the first `blen` bytes.
pub open spec fn parsed(b: Seq<u8>, blen: int) -> Seq<PointView> {
    Seq::new((blen / 44) as nat, |k: int| packet_point(b, 44 * k))
}

/// Parsing stays inside the buffer: where the packets run past the buffer,
/// a rejected header inside it stops the parse first.
pub open spec fn parse_safe(b: Seq<u8>, blen: int) -> bool {
    (blen % 44 == 0 && blen > b.len()) ==> exists|k: int|
        0 <= k < blen / 44 && (k + 1) * 44 <= b.len() && !#[trigger] header_ok(b, 44 * k)
}

/// Parses the first `blen` bytes of a datagram into samples. Succeeds when
/// they form a whole, non-zero number of packets whose headers are all
/// accepted; an empty datagram is an error.
pub fn parcer(buf: &[u8], blen: usize) -> (r: Result<Vec<RtPoint>, ()>)
    requires
        parse_safe(buf@, blen as int),
    ensures
        r is Ok <==> parse_ok(buf@, blen as int),
        r matches Ok(v) ==> points_view(v@) == parsed(buf@, blen as int),
{
    let mut points: Vec<RtPoint> = Vec::new();
    if blen % UDP_PACK_SIZE == 0 {
        let mut ind: usize = 0;
        let mut bad: bool = false;
        while !bad && ind < blen
            invariant
                parse_safe(buf@, blen as int),
                blen % 44 == 0,
                ind % 44 == 0,
                ind <= blen,
                packets_ok(buf@, ind as int / 44),
                bad ==> ind < blen && !header_ok(buf@, ind as int),
                points_view(points@) == parsed(buf@, ind as int),
            decreases blen - ind + (if bad { 0int } else { 1int }),
        {
            assert(ind + 44 <= blen);
            assert(ind + 44 <= buf@.len()) by {
                if blen > buf@.len() {
                    let k = choose|k: int|
                        0 <= k < blen / 44 && (k + 1) * 44 <= buf@.len() && !#[trigger] header_ok(
                            buf@,
                            44 * k,
                        );
                    if k < ind / 44 {
                        assert(header_ok(buf@, 44 * k));
                    }
                }
            }
            if buf[ind] != 0x55 && buf[ind + 1] != 0x33 {
                bad = true;
            } else {
                let p = decode_packet(buf, ind);
                let ghost before = points@;
                points.push(p);
                proof {
                    lemma_points_view_push(before, p);
                    assert((ind + 44) / 44 == ind / 44 + 1);
                    assert(44 * (ind as int / 44) == ind);
                    assert(points_view(points@) =~= parsed(buf@, ind + 44));
                    assert forall|j: int| 0 <= j < (ind + 44) / 44 implies #[trigger] header_ok(buf@, 44 * j) by {
                        if j < ind / 44 {
                        } else {
                            assert(j == ind / 44);
                        }
                    }
                }
                ind = ind + UDP_PACK_SIZE;
            }
        }
        if !bad && ind == blen && ind != 0 {
            return Ok(points);
        }
        proof {
            if bad {
                assert(!header_ok(buf@, 44 * (ind as int / 44)));
            }
        }
    }
    Err(())
}

fn decode_packet(buf: &[u8], off: usize) -> (r: RtPoint)
    requires
        off + 44 <= buf.len(),
    ensures
        r@ == packet_point(buf@, off as int),
{
    let timestamp: i64 = (buf[off + 2] as i64) * 16777216 + (buf[off + 3] as i64) * 65536
        + (buf[off + 4] as i64) * 256 + (buf[off + 5] as i64);
    let mut achanels: Vec<i16> = Vec::new();
    let mut j: usize = 0;
    while j < ACHANELS
        invariant
            off + 44 <= buf.len(),
            j <= ACHANELS,
            achanels@.len() == j,
            forall|k: int|
                0 <= k < j ==> #[trigger] achanels@[k] == be_i16(
                    buf@[off + 6 + 2 * k],
                    buf@[off + 7 + 2 * k],
                ),
        decreases ACHANELS - j,
    {
        let hi = buf[off + 6 + 2 * j];
        let lo = buf[off + 7 + 2 * j];
        let v: i32 = (hi as i32) * 256 + (lo as i32);
        let x: i16 = if v < 32768 { v as i16 } else { (v - 65536) as i16 };
        achanels.push(x);
        j = j + 1;
    }
    let digital: u64 = (buf[off + 38] as u64) * 16777216 + (buf[off + 39] as u64) * 65536
        + (buf[off + 40] as u64) * 256 + (buf[off + 41] as u64);
    let r = RtPoint { nan: false, timestamp, achanels, digital };
    assert(r@.achanels =~= packet_point(buf@, off as int).achanels);
    r
}


/// The four bytes at `off` hold `v` big-endian.
pub open spec fn u32_bytes_at(b: Seq<u8>, off: int, v: int) -> bool {
    &&& b[off] == v / 16777216 % 256
    &&& b[off + 1] == v / 65536 % 256
    &&& b[off + 2] == v / 256 % 256
    &&& b[off + 3] == v % 256
}

/// The two bytes at `off` hold `v` big-endian, two's complement.
pub open spec fn i16_bytes_at(b: Seq<u8>, off: int, v: i16) -> bool {
    let w = if v < 0 {
        v + 65536
    } else {
        v as int
    };
    b[off] == w / 256 && b[off + 1] == w % 256
}

/// The packet at `off` is the device's encoding of the sample `p`.
pub open spec fn encodes(b: Seq<u8>, off: int, p: PointView) -> bool {
    &&& b[off] == 0x55u8
    &&& b[off + 1] == 0x33u8
    &&& u32_bytes_at(b, off + 2, p.timestamp as int)
    &&& forall|j: int| 0 <= j < ACHANELS ==> #[trigger] i16_bytes_at(b, off + 6 + 2 * j, p.achanels[j])
    &&& u32_bytes_at(b, off + 38, p.digital as int)
}

/// A sample the device can send: a 32-bit timestamp and digital word and
/// all analog channels.
pub open spec fn sample_encodable(p: PointView) -> bool {
    &&& !p.nan
    &&& 0 <= p.timestamp < 0x1_0000_0000
    &&& p.digital < 0x1_0000_0000
    &&& p.achanels.len() == ACHANELS
}

proof fn lemma_be_u32(b: Seq<u8>, off: int, v: int)
    requires
        0 <= v < 0x1_0000_0000,
        0 <= off,
        off + 3 < b.len(),
        u32_bytes_at(b, off, v),
    ensures
        be_u32(b, off) == v,
{
    let b0 = v / 16777216 % 256;
    let b1 = v / 65536 % 256;
    let b2 = v / 256 % 256;
    let b3 = v % 256;
    assert(b0 * 16777216 + b1 * 65536 + b2 * 256 + b3 == v) by (nonlinear_arith)
        requires
            0 <= v < 0x1_0000_0000,
            b0 == v / 16777216 % 256,
            b1 == v / 65536 % 256,
            b2 == v / 256 % 256,
            b3 == v % 256,
    {
        assert(v / 16777216 < 256);
        assert(b0 == v / 16777216);
        assert(v == 256 * (v / 256) + b3);
        assert(v / 256 == 256 * (v / 65536) + b2);
        assert(v / 65536 == 256 * (v / 16777216) + b1);
    }
}

proof fn lemma_be_i16(b: Seq<u8>, off: int, v: i16)
    requires
        0 <= off,
        off + 1 < b.len(),
        i16_bytes_at(b, off, v),
    ensures
        be_i16(b[off], b[off + 1]) == v,
{
    let w = if v < 0 {
        v + 65536
    } else {
        v as int
    };
    assert(b[off] * 256 + b[off + 1] == w) by (nonlinear_arith)
        requires
            0 <= w < 65536,
            b[off] == w / 256,
            b[off + 1] == w % 256,
    ;
}

/// A datagram made of the device's encodings of samples is accepted, and
/// parsing gives back exactly those samples.
pub proof fn lemma_parse_encoded(b: Seq<u8>, ps: Seq<PointView>)
    requires
        ps.len() > 0,
        44 * ps.len() <= b.len(),
        forall|k: int| 0 <= k < ps.len() ==> #[trigger] sample_encodable(ps[k]),
        forall|k: int| 0 <= k < ps.len() ==> #[trigger] encodes(b, 44 * k, ps[k]),
    ensures
        parse_safe(b, 44 * (ps.len() as int)),
        parse_ok(b, 44 * (ps.len() as int)),
        parsed(b, 44 * (ps.len() as int)) == ps,
{
    let blen: int = 44 * (ps.len() as int);
    assert(blen / 44 == ps.len());
    assert forall|k: int| 0 <= k < blen / 44 implies #[trigger] header_ok(b, 44 * k) by {
        assert(encodes(b, 44 * k, ps[k]));
    }
    assert forall|k: int| 0 <= k < ps.len() implies #[trigger] packet_point(b, 44 * k) == ps[k] by {
        let p = ps[k];
        assert(sample_encodable(p));
        assert(encodes(b, 44 * k, p));
        assert(44 * k + 44 <= b.len()) by (nonlinear_arith)
            requires
                0 <= k < ps.len(),
                44 * ps.len() <= b.len(),
        ;
        lemma_be_u32(b, 44 * k + 2, p.timestamp as int);
        lemma_be_u32(b, 44 * k + 38, p.digital as int);
        assert forall|j: int| 0 <= j < ACHANELS implies #[trigger] be_i16(
            b[44 * k + 6 + 2 * j],
            b[44 * k + 7 + 2 * j],
        ) == p.achanels[j] by {
            assert(i16_bytes_at(b, 44 * k + 6 + 2 * j, p.achanels[j]));
            lemma_be_i16(b, 44 * k + 6 + 2 * j, p.achanels[j]);
        }
        assert(packet_point(b, 44 * k).achanels =~= p.achanels);
    }
    assert(parsed(b, blen) =~= ps);
}

fn parse_safe_check(buf: &[u8], blen: usize) -> (r: bool)
    ensures
        r == parse_safe(buf@, blen as int),
{
    if blen % UDP_PACK_SIZE != 0 || blen <= buf.len() {
        return true;
    }
    let m: usize = buf.len() / UDP_PACK_SIZE;
    let mut k: usize = 0;
    while k < m
        invariant
            m == buf@.len() / 44,
            blen > buf@.len(),
            blen % 44 == 0,
            k <= m,
            forall|j: int| 0 <= j < k ==> #[trigger] header_ok(buf@, 44 * j),
        decreases m - k,
    {
        assert(44 * k + 44 <= buf@.len());
        if buf[44 * k] != 0x55 && buf[44 * k + 1] != 0x33 {
            assert(k < blen / 44);
            assert(!header_ok(buf@, 44 * (k as int)));
            return true;
        }
        k = k + 1;
    }
    assert forall|k2: int| 0 <= k2 < blen / 44 && (k2 + 1) * 44 <= buf@.len() implies #[trigger] header_ok(buf@, 44 * k2) by {
        assert(k2 < m);
    }
    false
}

fn resync_fits_check(points: &Vec<RtPoint>, s0: i64, u0: i64, now: i64) -> (r: bool)
    requires
        points@.len() > 0,
    ensures
        r == resync_fits(timestamps(points_view(points@)), s0 as int, u0 as int, now as int),
{
    let ghost ts = timestamps(points_view(points@));
    let first: i128 = points[0].timestamp as i128;
    assert(ts[0] == first);
    let mut ps: i128 = s0 as i128;
    let mut pu: i128 = u0 as i128;
    let mut i: usize = 0;
    while i < points.len()
        invariant
            ts == timestamps(points_view(points@)),
            ts.len() == points@.len(),
            first == ts[0],
            i <= points@.len(),
            (ps as int, pu as int) == resync_prev(ts, s0 as int, u0 as int, now as int, first as int, i as int),
            i64::MIN <= ps <= i64::MAX,
            i64::MIN <= pu <= i64::MAX,
            forall|j: int| 0 <= j < i ==> #[trigger] resync_step_fits(ts, s0 as int, u0 as int, now as int, ts[0] as int, j),
        decreases points@.len() - i,
    {
        let t: i128 = points[i].timestamp as i128;
        assert(t == ts[i as int]);
        let d: i128 = t - pu;
        if d < i64::MIN as i128 || d > i64::MAX as i128 {
            assert(!resync_step_fits(ts, s0 as int, u0 as int, now as int, ts[0] as int, i as int));
            return false;
        }
        let nt: i128 = if d > 900 {
            let e: i128 = t - first;
            if e < i64::MIN as i128 || e > i64::MAX as i128 {
                assert(!resync_step_fits(ts, s0 as int, u0 as int, now as int, ts[0] as int, i as int));
                return false;
            }
            now as i128 + e
        } else {
            ps + d
        };
        if nt < i64::MIN as i128 || nt > i64::MAX as i128 {
            assert(!resync_step_fits(ts, s0 as int, u0 as int, now as int, ts[0] as int, i as int));
            return false;
        }
        assert(resync_step_fits(ts, s0 as int, u0 as int, now as int, ts[0] as int, i as int));
        assert(resynced(ts, s0 as int, u0 as int, now as int, first as int, i as int) == nt);
        ps = nt;
        pu = t;
        i = i + 1;
    }
    true
}

/// Alignment of device time to wall-clock time.
pub struct Hsync {
    pub synh: bool,
    /// wall-clock time given to the latest sample
    pub synh_tp: i64,
    /// device time of the latest sample
    pub udp_synh_tp: i64,
}

impl Hsync {
    /// Not aligned yet.
    pub fn new() -> (r: Self)
        ensures
            r == (Hsync { synh: false, synh_tp: 0, udp_synh_tp: 0 }),
    {
        Hsync { synh: false, synh_tp: 0, udp_synh_tp: 0 }
    }
}

/// Wall-clock time and device time before sample `i` is aligned.
pub open spec fn resync_prev(ts: Seq<i64>, s0: int, u0: int, now: int, first: int, i: int) -> (int, int)
    decreases i, 0int,
{
    if i <= 0 {
        (s0, u0)
    } else {
        (resynced(ts, s0, u0, now, first, i - 1), ts[i - 1] as int)
    }
}

/// Wall-clock time given to sample `i`: a sample more than 900 µs after the
/// previous one restarts from `now`, counted from the first sample of the
/// datagram; any other keeps the spacing it had on the device.
pub open spec fn resynced(ts: Seq<i64>, s0: int, u0: int, now: int, first: int, i: int) -> int
    decreases i, 1int,
{
    let (ps, pu) = resync_prev(ts, s0, u0, now, first, i);
    if ts[i] - pu > 900 {
        now + (ts[i] - first)
    } else {
        ps + (ts[i] - pu)
    }
}

/// Every value computed in aligning sample `i` fits an `i64`.
pub open spec fn resync_step_fits(ts: Seq<i64>, s0: int, u0: int, now: int, first: int, i: int) -> bool {
    let (ps, pu) = resync_prev(ts, s0, u0, now, first, i);
    &&& i64::MIN <= ts[i] - pu <= i64::MAX
    &&& ts[i] - pu > 900 ==> i64::MIN <= ts[i] - first <= i64::MAX && i64::MIN <= now + (ts[i]
        - first) <= i64::MAX
    &&& ts[i] - pu <= 900 ==> i64::MIN <= ps + (ts[i] - pu) <= i64::MAX
}

/// Alignment keeps the device's spacing of samples at most 900 µs apart,
/// and starts over from the wall-clock time of reception after a longer pause.
pub proof fn lemma_resync_spacing(ts: Seq<i64>, s0: int, u0: int, now: int, first: int, i: int)
    requires
        1 <= i < ts.len(),
    ensures
        ts[i] - ts[i - 1] <= 900 ==> resynced(ts, s0, u0, now, first, i) - resynced(
            ts,
            s0,
            u0,
            now,
            first,
            i - 1,
        ) == ts[i] - ts[i - 1],
        ts[i] - ts[i - 1] > 900 ==> resynced(ts, s0, u0, now, first, i) == now + (ts[i] - first),
{
    assert(resync_prev(ts, s0, u0, now, first, i) == (
        resynced(ts, s0, u0, now, first, i - 1),
        ts[i - 1] as int,
    ));
}

/// Aligning all samples of `ts` stays within `i64`.
pub open spec fn resync_fits(ts: Seq<i64>, s0: int, u0: int, now: int) -> bool {
    forall|i: int| 0 <= i < ts.len() ==> #[trigger] resync_step_fits(ts, s0, u0, now, ts[0] as int, i)
}

/// The timestamps of the samples.
pub open spec fn timestamps(s: Seq<PointView>) -> Seq<i64> {
    s.map_values(|p: PointView| p.timestamp)
}

/// The samples `s` with timestamp `i` replaced by the aligned one.
pub open spec fn resync_points(s: Seq<PointView>, s0: int, u0: int, now: int) -> Seq<PointView> {
    Seq::new(
        s.len(),
        |i: int|
            PointView {
                timestamp: resynced(timestamps(s), s0, u0, now, s[0].timestamp as int, i) as i64,
                ..s[i]
            },
    )
}

/// Replaces the device timestamps of the samples of one datagram by
/// wall-clock ones, `now` being the wall-clock time at reception.
pub fn resync_timestamps(points: &mut Vec<RtPoint>, synh: &mut Hsync, now: i64)
    requires
        old(points)@.len() > 0,
        resync_fits(
            timestamps(points_view(old(points)@)),
            old(synh).synh_tp as int,
            old(synh).udp_synh_tp as int,
            now as int,
        ),
    ensures
        points_view(final(points)@) == resync_points(
            points_view(old(points)@),
            old(synh).synh_tp as int,
            old(synh).udp_synh_tp as int,
            now as int,
        ),
        final(synh).synh == old(synh).synh,
        final(synh).synh_tp == resynced(
            timestamps(points_view(old(points)@)),
            old(synh).synh_tp as int,
            old(synh).udp_synh_tp as int,
            now as int,
            old(points)@[0].timestamp as int,
            old(points)@.len() - 1,
        ),
        final(synh).udp_synh_tp == old(points)@[old(points)@.len() - 1].timestamp,
{
    let ghost sv = points_view(points@);
    let ghost ts = timestamps(sv);
    let ghost s0 = synh.synh_tp as int;
    let ghost u0 = synh.udp_synh_tp as int;
    let udp_first: i64 = points[0].timestamp;
    assert(ts[0] == udp_first);
    let n = points.len();
    let mut i: usize = 0;
    while i < n
        invariant
            n == points@.len(),
            n == sv.len(),
            ts == timestamps(sv),
            ts.len() == n,
            udp_first == ts[0],
            resync_fits(ts, s0, u0, now as int),
            i <= n,
            synh.synh == old(synh).synh,
            (synh.synh_tp as int, synh.udp_synh_tp as int) == resync_prev(ts, s0, u0, now as int, udp_first as int, i as int),
            forall|k: int|
                0 <= k < n ==> #[trigger] points@[k]@ == if k < i {
                    resync_points(sv, s0, u0, now as int)[k]
                } else {
                    sv[k]
                },
        decreases n - i,
    {
        assert(resync_step_fits(ts, s0, u0, now as int, ts[0] as int, i as int));
        assert(points@[i as int]@ == sv[i as int]);
        assert(ts[i as int] == sv[i as int].timestamp);
        let mut p = points[i].clone();
        let t = p.timestamp;
        if t - synh.udp_synh_tp > 900 {
            synh.udp_synh_tp = t;
            p.timestamp = now + (t - udp_first);
            synh.synh_tp = p.timestamp;
        } else {
            let begin = t;
            p.timestamp = synh.synh_tp + (t - synh.udp_synh_tp);
            synh.udp_synh_tp = begin;
            synh.synh_tp = p.timestamp;
        }
        points.set(i, p);
        i = i + 1;
    }
}


/// The alignment after the samples `s` of a datagram were aligned.
pub open spec fn after_resync(h: Hsync, s: Seq<PointView>, now: int) -> Hsync {
    Hsync {
        synh: h.synh,
        synh_tp: resynced(
            timestamps(s),
            h.synh_tp as int,
            h.udp_synh_tp as int,
            now,
            s[0].timestamp as int,
            s.len() - 1,
        ) as i64,
        udp_synh_tp: s[s.len() - 1].timestamp,
    }
}

/// A batch of samples is due for the display: more than one and a half
/// refresh periods (`dur` ms) passed since the last one.
pub open spec fn flush_due(now_millis: i64, prtime: i64, dur: usize) -> bool {
    now_millis - prtime > ((dur + dur / 2) as i64)
}

/// What the receiving loop does next.
pub enum UdpAction {
    /// recording is off: the loop ends
    Stop,
    /// hand these samples to the display
    Send(Vec<RtPoint>),
    /// no datagram came: hand generated demonstration samples to the display
    Demo,
    /// nothing to hand over
    Continue,
}

/// State of the receiving loop between two events.
pub struct UdpReceiver {
    pub synh: Hsync,
    /// samples received and not yet handed over
    pub tempbuf: Vec<RtPoint>,
    /// wall-clock time (ms) of the last hand-over
    pub prtime: i64,
}

impl UdpReceiver {
    /// A loop that has received nothing yet; `prtime` is the start time in ms.
    pub fn new(prtime: i64) -> (r: Self)
        ensures
            r.synh == (Hsync { synh: false, synh_tp: 0, udp_synh_tp: 0 }),
            r.tempbuf@.len() == 0,
            r.prtime == prtime,
    {
        UdpReceiver { synh: Hsync::new(), tempbuf: Vec::new(), prtime }
    }

    /// The arithmetic of handling this datagram stays within `i64`/`usize`
    /// and parsing stays within the buffer.
    pub open spec fn packet_requires(
        &self,
        buf: Seq<u8>,
        blen: usize,
        rt: bool,
        now_micros: i64,
        now_millis: i64,
        dur: usize,
    ) -> bool {
        rt ==> {
            &&& parse_safe(buf, blen as int)
            &&& parse_ok(buf, blen as int) ==> resync_fits(
                timestamps(parsed(buf, blen as int)),
                self.synh.synh_tp as int,
                self.synh.udp_synh_tp as int,
                now_micros as int,
            )
            &&& i64::MIN <= now_millis - self.prtime <= i64::MAX
            &&& dur + dur / 2 <= usize::MAX
        }
    }

    /// Tells whether `on_packet` may be called with these arguments: the
    /// caller tests this first, as the receiving loop cannot proceed otherwise.
    pub fn packet_in_range(
        &self,
        buf: &[u8],
        blen: usize,
        rt: bool,
        now_micros: i64,
        now_millis: i64,
        dur: usize,
    ) -> (r: bool)
        ensures
            r == self.packet_requires(buf@, blen, rt, now_micros, now_millis, dur),
    {
        if !rt {
            return true;
        }
        if !parse_safe_check(buf, blen) {
            return false;
        }
        let fits = match parcer(buf, blen) {
            Ok(points) => {
                assert(timestamps(points_view(points@)) =~= timestamps(parsed(buf@, blen as int)));
                assert(blen / 44 > 0);
                resync_fits_check(&points, self.synh.synh_tp, self.synh.udp_synh_tp, now_micros)
            },
            Err(()) => true,
        };
        let dt: i128 = now_millis as i128 - self.prtime as i128;
        fits && i64::MIN as i128 <= dt && dt <= i64::MAX as i128 && dur <= usize::MAX - dur / 2
    }

    /// A datagram of `blen` bytes arrived in `buf`. `rt` tells whether
    /// recording is on, `now_micros` and `now_millis` give the wall-clock
    /// time, `dur` the display refresh period in ms.
    pub fn on_packet(
        &mut self,
        buf: &[u8],
        blen: usize,
        rt: bool,
        now_micros: i64,
        now_millis: i64,
        dur: usize,
    ) -> (a: UdpAction)
        requires
            old(self).packet_requires(buf@, blen, rt, now_micros, now_millis, dur),
        ensures
            !rt ==> a is Stop && final(self).synh == old(self).synh && final(self).tempbuf@
                == old(self).tempbuf@ && final(self).prtime == old(self).prtime,
            rt ==> {
                let ok = parse_ok(buf@, blen as int);
                let got = parsed(buf@, blen as int);
                let all = points_view(old(self).tempbuf@) + if ok {
                    resync_points(
                        got,
                        old(self).synh.synh_tp as int,
                        old(self).synh.udp_synh_tp as int,
                        now_micros as int,
                    )
                } else {
                    Seq::empty()
                };
                &&& final(self).synh == if ok {
                    after_resync(old(self).synh, got, now_micros as int)
                } else {
                    old(self).synh
                }
                &&& flush_due(now_millis, old(self).prtime, dur) ==> (a matches UdpAction::Send(v)
                    && points_view(v@) == all) && final(self).tempbuf@.len() == 0
                    && final(self).prtime == now_millis
                &&& !flush_due(now_millis, old(self).prtime, dur) ==> a is Continue
                    && points_view(final(self).tempbuf@) == all && final(self).prtime == old(
                    self,
                ).prtime
            },
    {
        if !rt {
            return UdpAction::Stop;
        }
        let ghost start = points_view(self.tempbuf@);
        let res = parcer(buf, blen);
        match res {
            Ok(mut points) => {
                proof {
                    assert(timestamps(points_view(points@)) =~= timestamps(parsed(buf@, blen as int)));
                    assert(blen / 44 > 0);
                }
                let ghost got = points_view(points@);
                let ghost h0 = self.synh;
                resync_timestamps(&mut points, &mut self.synh, now_micros);
                assert(self.synh == after_resync(h0, got, now_micros as int));
                let ghost h1 = self.synh;
                let mut i: usize = 0;
                while i < points.len()
                    invariant
                        i <= points@.len(),
                        self.synh == h1,
                        self.prtime == old(self).prtime,
                        points_view(self.tempbuf@) == start + points_view(points@).subrange(0, i as int),
                    decreases points@.len() - i,
                {
                    let ghost before = self.tempbuf@;
                    let c = points[i].clone();
                    self.tempbuf.push(c);
                    proof {
                        lemma_points_view_push(before, c);
                        assert(points_view(points@).subrange(0, i + 1) =~= points_view(points@).subrange(0, i as int).push(points@[i as int]@));
                    }
                    i = i + 1;
                }
                assert(points_view(points@).subrange(0, points@.len() as int) =~= points_view(points@));
            },
            Err(()) => {
                assert(start + Seq::<PointView>::empty() =~= start);
            },
        }
        let limit: usize = dur + dur / 2;
        if now_millis - self.prtime > (#[verifier::truncate] (limit as i64)) {
            self.prtime = now_millis;
            let mut out: Vec<RtPoint> = Vec::new();
            std::mem::swap(&mut out, &mut self.tempbuf);
            return UdpAction::Send(out);
        }
        UdpAction::Continue
    }

    /// No datagram came within the timeout. With recording off the loop ends;
    /// otherwise the alignment is dropped and, in demonstration mode,
    /// generated samples are to be handed over.
    pub fn on_timeout(&mut self, rt: bool, rtdemo: bool) -> (a: UdpAction)
        ensures
            !rt ==> a is Stop && final(self).synh == old(self).synh,
            rt ==> final(self).synh == (Hsync { synh: false, ..old(self).synh }),
            rt && rtdemo ==> a is Demo,
            rt && !rtdemo ==> a is Continue,
            final(self).tempbuf@ == old(self).tempbuf@,
            final(self).prtime == old(self).prtime,
    {
        if !rt {
            return UdpAction::Stop;
        }
        self.synh.synh = false;
        if rtdemo {
            UdpAction::Demo
        } else {
            UdpAction::Continue
        }
    }
}

} // verus!
