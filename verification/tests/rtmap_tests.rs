use vaumototool::rtmap::{rtmap_get_dchanal, RtPoint, Rtmap, ACHANELS, DCHANELS};

fn point(timestamp: i64, a0: i16, digital: u64) -> RtPoint {
    let mut achanels = vec![0i16; ACHANELS];
    achanels[0] = a0;
    RtPoint { nan: false, timestamp, achanels, digital }
}

#[test]
fn channel_counts() {
    assert_eq!(ACHANELS, 16);
    assert_eq!(DCHANELS, 32);
}

#[test]
fn dchanal_reads_single_bits() {
    assert_eq!(rtmap_get_dchanal(0b1010, 0), 0);
    assert_eq!(rtmap_get_dchanal(0b1010, 1), 1);
    assert_eq!(rtmap_get_dchanal(0b1010, 3), 1);
    assert_eq!(rtmap_get_dchanal(0x8000_0000, 31), 1);
    assert_eq!(rtmap_get_dchanal(u64::MAX, 31), 1);
    assert_eq!(rtmap_get_dchanal(0x7fff_ffff, 31), 0);
}

#[test]
fn new_spaces_zero_samples_up_to_timestamp() {
    let m = Rtmap::new(3, 1000, 10);
    assert_eq!(m.rtmap.len(), 3);
    let ts: Vec<i64> = m.rtmap.iter().map(|p| p.timestamp).collect();
    assert_eq!(ts, vec![980, 990, 1000]);
    for p in &m.rtmap {
        assert!(!p.nan);
        assert_eq!(p.achanels, vec![0i16; ACHANELS]);
        assert_eq!(p.digital, 0);
    }
}

#[test]
fn new_with_negative_step_runs_backward() {
    let m = Rtmap::new(2, 0, -5);
    let ts: Vec<i64> = m.rtmap.iter().map(|p| p.timestamp).collect();
    assert_eq!(ts, vec![5, 0]);
}

#[test]
fn push_appends_later_sample() {
    let mut m = Rtmap::new(2, 100, 10);
    m.rtmap_push(point(105, 7, 3));
    assert_eq!(m.rtmap.len(), 3);
    assert_eq!(m.rtmap[2].timestamp, 105);
    assert_eq!(m.rtmap[2].achanels[0], 7);
    assert_eq!(m.rtmap[2].digital, 3);
}

#[test]
fn push_accepts_equal_timestamp() {
    let mut m = Rtmap::new(1, 100, 10);
    m.rtmap_push(point(100, 1, 0));
    assert_eq!(m.rtmap.len(), 2);
}

#[test]
fn push_refuses_earlier_sample() {
    let mut m = Rtmap::new(2, 100, 10);
    m.rtmap_push(point(89, 7, 3));
    assert_eq!(m.rtmap.len(), 2);
    assert_eq!(m.rtmap[1].timestamp, 100);
}

#[test]
fn pushes_keep_the_map_ordered() {
    let mut m = Rtmap::new(2, 1000, 100);
    for t in [950, 940, 1000, 1000, 10, 1200] {
        m.rtmap_push(point(t, 0, 0));
    }
    let ts: Vec<i64> = m.rtmap.iter().map(|p| p.timestamp).collect();
    assert_eq!(ts, vec![900, 1000, 1000, 1000, 1200]);
    assert!(ts.windows(2).all(|w| w[0] <= w[1]));
}

#[test]
fn clone_copies_every_field() {
    let p = point(42, -3, 9);
    let q = p.clone();
    assert_eq!(q.timestamp, 42);
    assert_eq!(q.achanels, p.achanels);
    assert_eq!(q.digital, 9);
    assert_eq!(q.nan, p.nan);
}

#[test]
fn new_ends_at_the_given_timestamp() {
    let m = Rtmap::new(100, 1_700_000_000_000_000, 3000);
    assert_eq!(m.rtmap.last().unwrap().timestamp, 1_700_000_000_000_000);
    assert_eq!(m.rtmap[0].timestamp, 1_700_000_000_000_000 - 99 * 3000);
    let one = Rtmap::new(1, -7, 12345);
    assert_eq!(one.rtmap[0].timestamp, -7);
}
