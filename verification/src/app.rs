//! Settings and shared state of the oscilloscope's user interface that do
//! not depend on the drawing toolkit.

use vstd::prelude::*;
use crate::rtmap::{ACHANELS, DCHANELS, RtPoint, PointView, points_view, Rtmap, pushed, sorted_by_time};
use crate::settings_write::{decimal, push_decimal};

verus! {

/// Screen refresh period in ms while recording.
pub const APPDURATION_MS: usize = 50;

/// Screen refresh period in ms while not recording.
pub const NORTDURATION_MS: usize = 2000;

/// Most samples kept before recording stops by itself.
pub const MAX_POINTS: usize = 5000000;

/// The samples `s` after handing each of `ps` to `rtmap_push` in turn.
pub open spec fn pushed_all(s: Seq<PointView>, ps: Seq<PointView>) -> Seq<PointView>
    decreases ps.len(),
{
    if ps.len() == 0 {
        s
    } else {
        pushed(pushed_all(s, ps.drop_last()), ps.last())
    }
}

/// Takes a batch of received samples: while recording (`rt`) each is pushed
/// onto the map in turn. Returns whether the map now holds more than
/// `MAX_POINTS` samples, at which recording stops.
pub fn receive_points(rtmap: &mut Rtmap, points: &Vec<RtPoint>, rt: bool) -> (over: bool)
    requires
        rt && points@.len() > 0 ==> old(rtmap).rtmap@.len() > 0,
    ensures
        final(rtmap).samples() == (if rt {
            pushed_all(old(rtmap).samples(), points_view(points@))
        } else {
            old(rtmap).samples()
        }),
        over == (final(rtmap).rtmap@.len() > MAX_POINTS),
        sorted_by_time(old(rtmap).samples()) ==> sorted_by_time(final(rtmap).samples()),
{
    if rt {
        let ghost s0 = rtmap.samples();
        let ghost ps = points_view(points@);
        let mut i: usize = 0;
        assert(ps.take(0) =~= Seq::<PointView>::empty());
        while i < points.len()
            invariant
                i <= points@.len(),
                ps == points_view(points@),
                rtmap.samples() == pushed_all(s0, ps.take(i as int)),
                points@.len() > 0 ==> rtmap.rtmap@.len() > 0,
                sorted_by_time(s0) ==> sorted_by_time(rtmap.samples()),
            decreases points@.len() - i,
        {
            let p = points[i].clone();
            let ghost before = rtmap.samples();
            assert(before.len() == rtmap.rtmap@.len());
            rtmap.rtmap_push(p);
            assert(rtmap.samples().len() == rtmap.rtmap@.len());
            assert(rtmap.samples().len() >= before.len());
            assert(ps.take(i + 1).drop_last() =~= ps.take(i as int));
            i = i + 1;
        }
        assert(ps.take(i as int) =~= ps);
    }
    rtmap.rtmap.len() > MAX_POINTS
}

/// How many charts are shown, and of which kind.
#[derive(Debug, PartialEq, Eq, Structural)]
pub enum ViewApp {
    OneAChart,
    DualAChart,
    MixChart,
    DualMixChart,
}

/// Time span of the X axis while recording.
#[derive(Debug, PartialEq, Eq, Structural)]
pub enum XAxisTime {
    Seconds10,
    Seconds30,
    Minute,
    Minutes5,
    Minutes10,
    Minutes20,
}

/// Time span of the X axis used by default.
pub const APPXAXISTIME: XAxisTime = XAxisTime::Minutes5;

/// Length in microseconds of the span.
pub open spec fn span_micros(x: XAxisTime) -> int {
    match x {
        XAxisTime::Seconds10 => 10000000int,
        XAxisTime::Seconds30 => 30000000int,
        XAxisTime::Minute => 60000000int,
        XAxisTime::Minutes5 => 300000000int,
        XAxisTime::Minutes10 => 600000000int,
        XAxisTime::Minutes20 => 1200000000int,
    }
}

impl XAxisTime {
    /// Length of the span in microseconds.
    pub fn get_time_micros(&self) -> (r: i64)
        ensures
            r == span_micros(*self),
    {
        let sc: i64 = 1000000;
        match self {
            XAxisTime::Seconds10 => 10 * sc,
            XAxisTime::Seconds30 => 30 * sc,
            XAxisTime::Minute => 60 * sc,
            XAxisTime::Minutes5 => 5 * 60 * sc,
            XAxisTime::Minutes10 => 10 * 60 * sc,
            XAxisTime::Minutes20 => 20 * 60 * sc,
        }
    }

    /// The earliest time shown when the newest one is `lasttime`.
    pub fn get_early_timestamp(&self, lasttime: i64) -> (r: i64)
        requires
            lasttime - span_micros(*self) >= i64::MIN,
        ensures
            r == lasttime - span_micros(*self),
    {
        let earlytime: i64;
        match self {
            XAxisTime::Seconds10 => {
                earlytime = lasttime - 10 * 1000000;
            },
            XAxisTime::Seconds30 => {
                earlytime = lasttime - 30 * 1000000;
            },
            XAxisTime::Minute => {
                earlytime = lasttime - 60 * 1000000;
            },
            XAxisTime::Minutes5 => {
                earlytime = lasttime - 5 * 60 * 1000000;
            },
            XAxisTime::Minutes10 => {
                earlytime = lasttime - 10 * 60 * 1000000;
            },
            XAxisTime::Minutes20 => {
                earlytime = lasttime - 20 * 60 * 1000000;
            },
        }
        earlytime
    }
}

/// State shared by the user interface, the refresh timer and the receiving
/// loop: the refresh period and whether recording and demonstration mode are on.
pub struct AppState {
    duration: usize,
    rtrender: bool,
    rtdemo: bool,
}

impl AppState {
    /// Whether recording is on.
    pub closed spec fn rt(&self) -> bool {
        self.rtrender
    }

    /// Whether demonstration mode is on.
    pub closed spec fn demo(&self) -> bool {
        self.rtdemo
    }

    /// Refresh period in ms.
    pub closed spec fn period(&self) -> usize {
        self.duration
    }

    /// Default refresh period, demonstration mode off, recording as given.
    pub fn new(rtrender: bool) -> (r: Self)
        ensures
            r.rt() == rtrender,
            !r.demo(),
            r.period() == APPDURATION_MS,
    {
        AppState { duration: APPDURATION_MS, rtrender, rtdemo: false }
    }

    pub fn get_rt(&self) -> (r: bool)
        ensures
            r == self.rt(),
    {
        self.rtrender
    }

    /// Turns recording on or off and returns the new setting.
    pub fn set_rt(&mut self, new_rt: bool) -> (r: bool)
        ensures
            final(self).rt() == new_rt,
            r == new_rt,
            final(self).demo() == old(self).demo(),
            final(self).period() == old(self).period(),
    {
        self.rtrender = new_rt;
        self.rtrender
    }

    pub fn get_rtdemo(&self) -> (r: bool)
        ensures
            r == self.demo(),
    {
        self.rtdemo
    }

    /// Turns demonstration mode on or off and returns the new setting.
    pub fn set_rtdemo(&mut self, new_rtdemo: bool) -> (r: bool)
        ensures
            final(self).demo() == new_rtdemo,
            r == new_rtdemo,
            final(self).rt() == old(self).rt(),
            final(self).period() == old(self).period(),
    {
        self.rtdemo = new_rtdemo;
        self.rtdemo
    }

    pub fn get_duration(&self) -> (r: usize)
        ensures
            r == self.period(),
    {
        self.duration
    }

    pub fn set_duration(&mut self, duration: usize)
        ensures
            final(self).period() == duration,
            final(self).rt() == old(self).rt(),
            final(self).demo() == old(self).demo(),
    {
        self.duration = duration;
    }
}

/// Default colour (red, green, blue) of analog channel `x`: three groups of
/// five channels, each fading one component pair from 155 in steps of 10.
pub open spec fn achanel_rgb(x: int) -> (u8, u8, u8) {
    if x < 5 {
        (255, (155 - 10 * x) as u8, (155 - 10 * x) as u8)
    } else if x < 10 {
        ((155 - 10 * (x - 5)) as u8, 255, (155 - 10 * (x - 5)) as u8)
    } else {
        ((155 - 10 * (x - 10)) as u8, (155 - 10 * (x - 10)) as u8, 255)
    }
}

/// Default colour (red, green, blue) of digital channel `x`: three groups of
/// ten channels, each fading one component pair from 205 in steps of 10.
pub open spec fn dchanel_rgb(x: int) -> (u8, u8, u8) {
    if x < 10 {
        (255, (205 - 10 * x) as u8, (205 - 10 * x) as u8)
    } else if x < 20 {
        ((205 - 10 * (x - 10)) as u8, 255, (205 - 10 * (x - 10)) as u8)
    } else {
        ((205 - 10 * (x - 20)) as u8, (205 - 10 * (x - 20)) as u8, 255)
    }
}

/// Default name of channel `x`, analog or digital: `Chanel <x + 11>`.
pub fn default_channel_name(x: usize) -> (r: Vec<u8>)
    requires
        x < DCHANELS,
    ensures
        r@ == seq![67u8, 104u8, 97u8, 110u8, 101u8, 108u8, 32u8] + decimal((x + 11) as nat),
{
    let mut r: Vec<u8> = vec![67u8, 104u8, 97u8, 110u8, 101u8, 108u8, 32u8];
    push_decimal(&mut r, (x + 11) as u64);
    r
}

/// Default colour of analog channel `x`.
pub fn achanel_default_rgb(x: usize) -> (r: (u8, u8, u8))
    requires
        x < ACHANELS,
    ensures
        r == achanel_rgb(x as int),
{
    let mut r: u8 = 255;
    let mut g: u8 = 255;
    let mut b: u8 = 255;
    let xb: u8 = x as u8;
    if x < 5 {
        g = g - 100 - 10 * xb;
        b = b - 100 - 10 * xb;
    } else if x < 10 && x >= 5 {
        r = r - 100 - 10 * (xb - 5);
        b = b - 100 - 10 * (xb - 5);
    } else {
        r = r - 100 - 10 * (xb - 10);
        g = g - 100 - 10 * (xb - 10);
    }
    (r, g, b)
}

/// Default colour of digital channel `x`.
pub fn dchanel_default_rgb(x: usize) -> (r: (u8, u8, u8))
    requires
        x < DCHANELS,
    ensures
        r == dchanel_rgb(x as int),
{
    let mut r: u8 = 255;
    let mut g: u8 = 255;
    let mut b: u8 = 255;
    let xb: u8 = x as u8;
    if x < 10 {
        g = g - 50 - 10 * xb;
        b = b - 50 - 10 * xb;
    } else if x < 20 && x >= 10 {
        r = r - 50 - 10 * (xb - 10);
        b = b - 50 - 10 * (xb - 10);
    } else {
        r = r - 50 - 10 * (xb - 20);
        g = g - 50 - 10 * (xb - 20);
    }
    (r, g, b)
}


/// Index of the first zero byte, which ends the settings text of a scope
/// file; 0 when there is none.
pub open spec fn separator_spec(data: Seq<u8>) -> int {
    if exists|i: int| 0 <= i < data.len() && data[i] == 0 {
        choose|i: int| 0 <= i < data.len() && data[i] == 0 && forall|j: int| 0 <= j < i ==> data[j] != 0
    } else {
        0
    }
}

/// Where the settings text of a scope file ends: the first zero byte, or 0
/// when there is none.
pub fn scope_separator(data: &[u8]) -> (r: usize)
    ensures
        r == 0 || r < data@.len(),
        (exists|i: int| 0 <= i < data@.len() && data@[i] == 0) ==> data@[r as int] == 0 && forall|j: int|
            0 <= j < r ==> data@[j] != 0,
        (forall|i: int| 0 <= i < data@.len() ==> data@[i] != 0) ==> r == 0,
        r == separator_spec(data@),
{
    let mut i: usize = 0;
    while i < data.len()
        invariant
            i <= data@.len(),
            forall|j: int| 0 <= j < i ==> data@[j] != 0,
        decreases data@.len() - i,
    {
        if data[i] == 0 {
            proof {
                lemma_separator_at(data@, i as int);
            }
            return i;
        }
        i = i + 1;
    }
    0
}

/// The first zero byte is where the separator is.
proof fn lemma_separator_at(data: Seq<u8>, i: int)
    requires
        0 <= i < data.len(),
        data[i] == 0,
        forall|j: int| 0 <= j < i ==> data[j] != 0,
    ensures
        separator_spec(data) == i,
{
    let c = choose|c: int| 0 <= c < data.len() && data[c] == 0 && forall|j: int| 0 <= j < c ==> data[j] != 0;
    assert(0 <= c < data.len() && data[c] == 0 && forall|j: int| 0 <= j < c ==> data[j] != 0);
    if c < i {
        assert(data[c] != 0);
    } else if c > i {
        assert(data[i] != 0);
    }
}

/// A scope file, a settings text without zero bytes, a zero byte, then the
/// sample part, is split back at that zero byte into the two parts.
pub proof fn lemma_scope_file_split(settings: Seq<u8>, samples: Seq<u8>)
    requires
        forall|j: int| 0 <= j < settings.len() ==> settings[j] != 0,
    ensures
        separator_spec(settings + seq![0u8] + samples) == settings.len(),
        (settings + seq![0u8] + samples).subrange(0, settings.len() as int) == settings,
        (settings + seq![0u8] + samples).subrange(
            settings.len() as int + 1,
            (settings + seq![0u8] + samples).len() as int,
        ) == samples,
{
    let data = settings + seq![0u8] + samples;
    let n = settings.len() as int;
    assert forall|j: int| 0 <= j < n implies data[j] != 0 by {
        assert(data[j] == settings[j]);
    }
    assert(data[n] == 0);
    lemma_separator_at(data, n);
    assert(data.subrange(0, n) =~= settings);
    assert(data.subrange(n + 1, data.len() as int) =~= samples);
}

/// A record of the sample part of a scope file is a length byte followed by
/// that many bytes; lengths outside 20..=70 are an error. The ranges of the
/// records from `ind` on, or `None` at a bad length.
pub open spec fn scope_walk(b: Seq<u8>, ind: int) -> Option<Seq<(int, int)>>
    decreases b.len() + 100 - ind,
{
    if ind < 0 || ind >= b.len() {
        Some(Seq::empty())
    } else {
        let l = b[ind] as int;
        if l < 20 || l > 70 {
            None
        } else {
            match scope_walk(b, ind + 1 + l) {
                Some(rest) => Some(seq![(ind + 1, ind + 1 + l)] + rest),
                None => None,
            }
        }
    }
}

/// Reading the records from `ind` on never runs past the end: every record
/// reached before a bad length lies within the data.
pub open spec fn scope_safe(b: Seq<u8>, ind: int) -> bool
    decreases b.len() + 100 - ind,
{
    if ind < 0 || ind >= b.len() {
        true
    } else {
        let l = b[ind] as int;
        if l < 20 || l > 70 {
            true
        } else {
            ind + 1 + l <= b.len() && scope_safe(b, ind + 1 + l)
        }
    }
}

/// The byte ranges of the records in the sample part of a scope file; an
/// error at a record length outside 20..=70.
pub fn scope_records(bdata: &[u8]) -> (r: Result<Vec<(usize, usize)>, ()>)
    requires
        scope_safe(bdata@, 0),
    ensures
        r is Err <==> scope_walk(bdata@, 0) is None,
        r matches Ok(v) ==> scope_walk(bdata@, 0) matches Some(w) && v@.len() == w.len() && forall|k: int|
            0 <= k < v@.len() ==> (#[trigger] v@[k].0 as int, v@[k].1 as int) == w[k],
{
    let mut out: Vec<(usize, usize)> = Vec::new();
    let mut ind: usize = 0;
    let ghost mut acc: Seq<(int, int)> = Seq::empty();
    while ind < bdata.len()
        invariant
            ind <= bdata@.len(),
            scope_safe(bdata@, ind as int),
            out@.len() == acc.len(),
            forall|k: int| 0 <= k < out@.len() ==> (#[trigger] out@[k].0 as int, out@[k].1 as int) == acc[k],
            scope_walk(bdata@, 0) == match scope_walk(bdata@, ind as int) {
                Some(rest) => Some(acc + rest),
                None => None::<Seq<(int, int)>>,
            },
        decreases bdata@.len() - ind,
    {
        let blen = bdata[ind];
        if blen < 20 || blen > 70 {
            return Err(());
        }
        let start: usize = ind + 1;
        let end: usize = start + blen as usize;
        out.push((start, end));
        proof {
            let rest = scope_walk(bdata@, end as int);
            if rest is Some {
                assert(acc + (seq![(start as int, end as int)] + rest->0) =~= (acc.push((start as int, end as int))) + rest->0);
            }
            acc = acc.push((start as int, end as int));
        }
        ind = end;
    }
    assert(acc + Seq::<(int, int)>::empty() =~= acc);
    Ok(out)
}

/// Tells whether `scope_records` may be called on the sample part.
pub fn scope_records_in_range(bdata: &[u8]) -> (r: bool)
    ensures
        r == scope_safe(bdata@, 0),
{
    let mut ind: usize = 0;
    while ind < bdata.len()
        invariant
            ind <= bdata@.len(),
            scope_safe(bdata@, 0) == scope_safe(bdata@, ind as int),
        decreases bdata@.len() - ind,
    {
        let blen = bdata[ind];
        if blen < 20 || blen > 70 {
            return true;
        }
        if blen as usize >= bdata.len() - ind {
            return false;
        }
        ind = ind + 1 + blen as usize;
    }
    true
}

/// The record ranges moved by `d` bytes.
pub open spec fn shift_ranges(o: Option<Seq<(int, int)>>, d: int) -> Option<Seq<(int, int)>> {
    match o {
        Some(w) => Some(w.map_values(|p: (int, int)| (p.0 + d, p.1 + d))),
        None => None,
    }
}

proof fn lemma_walk_shift(pre: Seq<u8>, b: Seq<u8>, i: int)
    requires
        0 <= i,
    ensures
        scope_walk(pre + b, pre.len() + i) == shift_ranges(scope_walk(b, i), pre.len() as int),
        scope_safe(pre + b, pre.len() + i) == scope_safe(b, i),
    decreases b.len() + 100 - i,
{
    let c = pre + b;
    let d = pre.len() as int;
    if i >= b.len() {
        assert(shift_ranges(Some(Seq::<(int, int)>::empty()), d) == Some(Seq::<(int, int)>::empty())) by {
            assert(Seq::<(int, int)>::empty().map_values(|p: (int, int)| (p.0 + d, p.1 + d)) =~= Seq::<(int, int)>::empty());
        }
    } else {
        assert(c[d + i] == b[i]);
        let l = b[i] as int;
        if 20 <= l <= 70 {
            lemma_walk_shift(pre, b, i + 1 + l);
            assert(d + i + 1 + l == d + (i + 1 + l));
            match scope_walk(b, i + 1 + l) {
                Some(rest) => {
                    let f = |p: (int, int)| (p.0 + d, p.1 + d);
                    assert((seq![(i + 1, i + 1 + l)] + rest).map_values(f) =~= seq![(d + i + 1, d + i + 1 + l)]
                        + rest.map_values(f));
                },
                None => {},
            }
        }
    }
}

/// The sample part of a scope file made of the given encoded samples.
pub open spec fn frames(recs: Seq<Seq<u8>>) -> Seq<u8>
    decreases recs.len(),
{
    if recs.len() == 0 {
        Seq::empty()
    } else {
        seq![(recs[0].len() % 256) as u8] + recs[0] + frames(recs.drop_first())
    }
}

/// Records of 20 to 70 bytes written one after the other with
/// `frame_record` are read back by `scope_records`: reading is safe, succeeds
/// and finds exactly the records written, in order.
pub proof fn lemma_scope_roundtrip(recs: Seq<Seq<u8>>)
    requires
        forall|k: int| 0 <= k < recs.len() ==> 20 <= #[trigger] recs[k].len() <= 70,
    ensures
        scope_safe(frames(recs), 0),
        scope_walk(frames(recs), 0) matches Some(w) && w.len() == recs.len() && forall|k: int|
            0 <= k < w.len() ==> 0 <= (#[trigger] w[k]).0 <= w[k].1 <= frames(recs).len()
                && frames(recs).subrange(w[k].0, w[k].1) == recs[k],
    decreases recs.len(),
{
    if recs.len() > 0 {
        let rest = recs.drop_first();
        assert forall|k: int| 0 <= k < rest.len() implies 20 <= #[trigger] rest[k].len() <= 70 by {
            assert(rest[k] == recs[k + 1]);
        }
        lemma_scope_roundtrip(rest);
        let r0 = recs[0];
        let l0 = r0.len() as int;
        assert(20 <= l0 <= 70);
        let pre = seq![(l0 % 256) as u8] + r0;
        let f = frames(rest);
        assert(frames(recs) == pre + f);
        assert(pre[0] == l0);
        assert((pre + f)[0] == l0);
        lemma_walk_shift(pre, f, 0);
        assert(pre.len() == 1 + l0);
        let w1 = scope_walk(f, 0)->0;
        let w = scope_walk(frames(recs), 0)->0;
        let d = 1 + l0;
        assert(w == seq![(1, 1 + l0)] + w1.map_values(|p: (int, int)| (p.0 + d, p.1 + d)));
        assert forall|k: int| 0 <= k < w.len() implies 0 <= (#[trigger] w[k]).0 <= w[k].1 <= frames(recs).len()
            && frames(recs).subrange(w[k].0, w[k].1) == recs[k] by {
            if k == 0 {
                assert(frames(recs).subrange(1, 1 + l0) =~= r0);
            } else {
                let p = w1[k - 1];
                assert(w[k] == (p.0 + d, p.1 + d));
                assert(f.subrange(p.0, p.1) == rest[k - 1]);
                assert(frames(recs).subrange(p.0 + d, p.1 + d) =~= f.subrange(p.0, p.1));
            }
        }
    }
}

/// One record of a scope file: the encoded sample preceded by its length,
/// kept to its lowest byte.
pub fn frame_record(bytes: Vec<u8>) -> (r: Vec<u8>)
    ensures
        r@ == seq![(bytes@.len() % 256) as u8] + bytes@,
{
    let ghost orig = bytes@;
    let mut bytes = bytes;
    let len_byte: u8 = (bytes.len() % 256) as u8;
    bytes.insert(0, len_byte);
    assert(bytes@ =~= seq![len_byte] + orig);
    bytes
}


/// Why a CSV export cannot be made.
#[derive(Debug, PartialEq, Eq, Structural, Clone, Copy)]
pub enum CsvError {
    /// the start or the end of the exported window is not set
    NoTimestamps,
    /// the end of the window comes before its start
    StopBeforeStart,
    /// no sample comes after the start, or none after the end
    NoData,
}

/// Index of the first sample from `i` on that comes after `t`.
pub open spec fn first_after(s: Seq<PointView>, t: i64, i: int) -> Option<int>
    decreases s.len() - i,
{
    if i < 0 || i >= s.len() {
        None
    } else if s[i].timestamp > t {
        Some(i)
    } else {
        first_after(s, t, i + 1)
    }
}

/// The sample `first_after` finds from `i` on is the least index from `i`
/// on whose timestamp lies after `t`; it finds none when no sample from `i`
/// on lies after `t`.
pub proof fn lemma_first_after(s: Seq<PointView>, t: i64, i: int)
    requires
        0 <= i,
    ensures
        first_after(s, t, i) matches Some(j) ==> i <= j < s.len() && s[j].timestamp > t && forall|k: int|
            i <= k < j ==> s[k].timestamp <= t,
        first_after(s, t, i) is None ==> forall|k: int| i <= k < s.len() ==> s[k].timestamp <= t,
    decreases s.len() - i,
{
    if i < s.len() && s[i].timestamp <= t {
        lemma_first_after(s, t, i + 1);
    }
}

fn first_after_exec(rtmap: &[RtPoint], t: i64) -> (r: Option<usize>)
    ensures
        r == match first_after(points_view(rtmap@), t, 0) {
            Some(j) => Some(j as usize),
            None => None::<usize>,
        },
        r matches Some(j) ==> j < rtmap@.len() && rtmap@[j as int].timestamp > t && forall|k: int|
            0 <= k < j ==> rtmap@[k].timestamp <= t,
        r is None ==> forall|k: int| 0 <= k < rtmap@.len() ==> rtmap@[k].timestamp <= t,
{
    let ghost s = points_view(rtmap@);
    proof {
        lemma_first_after(s, t, 0);
        assert forall|k: int| 0 <= k < rtmap@.len() implies #[trigger] rtmap@[k].timestamp == s[k].timestamp by {
            assert(s[k] == rtmap@[k]@);
        }
    }
    let mut i: usize = 0;
    while i < rtmap.len()
        invariant
            s == points_view(rtmap@),
            i <= rtmap@.len(),
            first_after(s, t, 0) == first_after(s, t, i as int),
        decreases rtmap@.len() - i,
    {
        assert(s[i as int] == rtmap@[i as int]@);
        if rtmap[i].timestamp > t {
            proof {
                lemma_first_after(s, t, 0);
                assert forall|k: int| 0 <= k < rtmap@.len() implies #[trigger] rtmap@[k].timestamp == s[k].timestamp by {
                    assert(s[k] == rtmap@[k]@);
                }
            }
            return Some(i);
        }
        i = i + 1;
    }
    None
}

/// The rows of a CSV export of the window from `start` to `stop`: from the
/// first sample after `start` up to (not including) the first sample after
/// `stop`.
pub fn csv_rows(rtmap: &[RtPoint], start: Option<i64>, stop: Option<i64>) -> (r: Result<(usize, usize), CsvError>)
    ensures
        match (start, stop) {
            (Some(a), Some(b)) => {
                let s = points_view(rtmap@);
                if b < a {
                    r == Err::<(usize, usize), CsvError>(CsvError::StopBeforeStart)
                } else {
                    match (first_after(s, a, 0), first_after(s, b, 0)) {
                        (Some(ps), Some(pt)) => r == Ok::<(usize, usize), CsvError>(
                            (ps as usize, pt as usize),
                        ),
                        _ => r == Err::<(usize, usize), CsvError>(CsvError::NoData),
                    }
                }
            },
            _ => r == Err::<(usize, usize), CsvError>(CsvError::NoTimestamps),
        },
        match (start, stop, r) {
            (Some(a), Some(b), Ok((ps, pt))) => ps < rtmap@.len() && pt < rtmap@.len() && rtmap@[ps as int].timestamp
                > a && (forall|k: int| 0 <= k < ps ==> rtmap@[k].timestamp <= a) && rtmap@[pt as int].timestamp > b
                && (forall|k: int| 0 <= k < pt ==> rtmap@[k].timestamp <= b),
            (Some(a), Some(b), Err(CsvError::NoData)) => a <= b && ((forall|k: int|
                0 <= k < rtmap@.len() ==> rtmap@[k].timestamp <= a) || (forall|k: int|
                0 <= k < rtmap@.len() ==> rtmap@[k].timestamp <= b)),
            (_, _, Ok(_)) => false,
            _ => true,
        },
{
    let (csvstart, csvstop) = match (start, stop) {
        (Some(a), Some(b)) => (a, b),
        _ => {
            return Err(CsvError::NoTimestamps);
        },
    };
    if csvstop < csvstart {
        return Err(CsvError::StopBeforeStart);
    }
    proof {
        lemma_first_after(points_view(rtmap@), csvstart, 0);
        lemma_first_after(points_view(rtmap@), csvstop, 0);
    }
    let pointstart = first_after_exec(rtmap, csvstart);
    let pointstop = first_after_exec(rtmap, csvstop);
    match (pointstart, pointstop) {
        (Some(ps), Some(pt)) => Ok((ps, pt)),
        _ => Err(CsvError::NoData),
    }
}

/// The channels whose flag is set, in increasing order.
pub open spec fn selected_spec(flags: Seq<bool>, k: int) -> Seq<usize>
    decreases k,
{
    if k <= 0 {
        Seq::empty()
    } else if flags[k - 1] {
        selected_spec(flags, k - 1).push((k - 1) as usize)
    } else {
        selected_spec(flags, k - 1)
    }
}

/// Among the first `k` flags, exactly the indices of the set ones are
/// selected, each below `k`, in strictly increasing order.
pub proof fn lemma_selected(flags: Seq<bool>, k: int)
    requires
        0 <= k <= flags.len(),
        flags.len() <= usize::MAX,
    ensures
        forall|i: int| 0 <= i < k ==> (selected_spec(flags, k).contains(i as usize) <==> flags[i]),
        forall|j: int|
            0 <= j < selected_spec(flags, k).len() ==> selected_spec(flags, k)[j] < k && flags[selected_spec(
                flags,
                k,
            )[j] as int],
        forall|a: int, b: int|
            0 <= a < b < selected_spec(flags, k).len() ==> selected_spec(flags, k)[a] < selected_spec(flags, k)[b],
    decreases k,
{
    if k > 0 {
        lemma_selected(flags, k - 1);
        let p = selected_spec(flags, k - 1);
        let q = selected_spec(flags, k);
        assert forall|i: int| 0 <= i < k implies (q.contains(i as usize) <==> flags[i]) by {
            if i < k - 1 {
                if flags[k - 1] {
                    if q.contains(i as usize) {
                        let j = choose|j: int| 0 <= j < q.len() && q[j] == i as usize;
                        if j < p.len() {
                            assert(p[j] == q[j]);
                        }
                    }
                    if p.contains(i as usize) {
                        let j = choose|j: int| 0 <= j < p.len() && p[j] == i as usize;
                        assert(q[j] == p[j]);
                    }
                }
            } else {
                if flags[k - 1] {
                    assert(q[q.len() - 1] == (k - 1) as usize);
                } else {
                    if p.contains((k - 1) as usize) {
                        let j = choose|j: int| 0 <= j < p.len() && p[j] == (k - 1) as usize;
                        assert(p[j] < k - 1);
                    }
                }
            }
        }
    }
}

/// The channels whose flag is set, in increasing order.
pub fn selected_channels(flags: &[bool]) -> (r: Vec<usize>)
    ensures
        r@ == selected_spec(flags@, flags@.len() as int),
        forall|i: int| 0 <= i < flags@.len() ==> (r@.contains(i as usize) <==> flags@[i]),
        forall|j: int| 0 <= j < r@.len() ==> r@[j] < flags@.len() && flags@[r@[j] as int],
        forall|a: int, b: int| 0 <= a < b < r@.len() ==> r@[a] < r@[b],
{
    let _n = flags.len();
    proof {
        lemma_selected(flags@, flags@.len() as int);
    }
    let mut r: Vec<usize> = Vec::new();
    let mut i: usize = 0;
    while i < flags.len()
        invariant
            i <= flags@.len(),
            r@ == selected_spec(flags@, i as int),
        decreases flags@.len() - i,
    {
        if flags[i] {
            r.push(i);
        }
        i = i + 1;
    }
    r
}

} // verus!
