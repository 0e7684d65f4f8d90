use vaumototool::compressor::{compress_input_fits, swap_compressor, Aminmax};
use vaumototool::rtmap::{RtPoint, ACHANELS};

fn pt(timestamp: i64, a0: i16, a1: i16, digital: u64) -> RtPoint {
    let mut achanels = vec![0i16; ACHANELS];
    achanels[0] = a0;
    achanels[1] = a1;
    RtPoint { nan: false, timestamp, achanels, digital }
}

fn summary(v: &[RtPoint]) -> Vec<(i64, i16, i16, u64)> {
    v.iter().map(|p| (p.timestamp, p.achanels[0], p.achanels[1], p.digital)).collect()
}

#[test]
fn new_vec_is_zeroed() {
    let v = Aminmax::new_vec();
    assert_eq!(v.len(), ACHANELS);
    assert!(v.iter().all(|a| a.min == 0 && a.max == 0 && a.minfirst));
}

#[test]
fn rejects_empty_input_and_zero_step() {
    assert!(swap_compressor(&[], 2).is_err());
    assert_eq!(swap_compressor(&[pt(0, 0, 0, 0)], 0).err(), Some("compressor index error"));
}

#[test]
fn time_steps_emit_samples_twice() {
    let rt = vec![pt(0, 0, 0, 0), pt(1, 5, 1, 1), pt(2, -3, 2, 0), pt(3, 2, 3, 3), pt(4, 7, -1, 0), pt(5, 1, 0, 1)];
    let (v, reti) = swap_compressor(&rt, 2).unwrap();
    assert_eq!(
        summary(&v),
        vec![(2, -3, 2, 0), (2, -3, 2, 0), (4, 7, -1, 0), (4, 7, -1, 0), (4, 7, 0, 1), (5, 1, 0, 1)]
    );
    assert_eq!(reti, 4);
    assert!(v.iter().all(|p| p.achanels.len() == ACHANELS && !p.nan));
}

#[test]
fn one_sample_per_stretch_keeps_everything_twice() {
    let rt = vec![pt(0, 0, 0, 0), pt(1, 5, 1, 1), pt(2, -3, 2, 0), pt(3, 2, 3, 3), pt(4, 7, -1, 0), pt(5, 1, 0, 1)];
    let (v, reti) = swap_compressor(&rt, 1).unwrap();
    let ts: Vec<i64> = v.iter().map(|p| p.timestamp).collect();
    assert_eq!(ts, vec![1, 1, 2, 2, 3, 3, 4, 4, 5, 5]);
    assert_eq!(reti, 5);
}

#[test]
fn stretches_by_count_emit_extremes() {
    let rt = vec![
        pt(100, 0, 0, 0),
        pt(100, 5, 1, 1),
        pt(101, -3, 2, 0),
        pt(101, 2, 3, 3),
        pt(102, 7, -1, 0),
        pt(102, 1, 0, 4),
        pt(103, 4, 4, 4),
    ];
    let (v, reti) = swap_compressor(&rt, 2).unwrap();
    assert_eq!(
        summary(&v),
        vec![(100, 5, 0, 1), (100, -3, 2, 0), (101, -3, 2, 7), (101, 7, 3, 4), (102, 1, 0, 4), (103, 4, 4, 4)]
    );
    assert_eq!(reti, 5);
    let (v, reti) = swap_compressor(&rt, 3).unwrap();
    assert_eq!(summary(&v), vec![(100, 5, 0, 3), (100, -3, 3, 3), (101, 7, 0, 4), (103, 4, 4, 4)]);
    assert_eq!(reti, 6);
}

#[test]
fn long_gaps_emit_samples() {
    let rt = vec![pt(0, 1, 0, 0), pt(10, 2, 0, 0), pt(12, 3, 0, 0), pt(30, -4, 0, 0)];
    let (v, reti) = swap_compressor(&rt, 5).unwrap();
    assert_eq!(summary(&v), vec![(10, 2, 0, 0), (10, 2, 0, 0), (30, -4, 0, 0), (30, -4, 0, 0)]);
    assert_eq!(reti, 3);
}

fn long_run(step: i64) -> Vec<RtPoint> {
    (0..20050i64)
        .map(|i| pt(i * step, ((i * 7) % 11 - 5) as i16, (i % 3) as i16, (i % 4) as u64))
        .collect()
}

#[test]
fn long_input_is_cut_into_parts() {
    let rt = long_run(3);
    let (v, reti) = swap_compressor(&rt, 10).unwrap();
    assert_eq!(v.len(), 10026);
    assert_eq!(reti, 20048);
    assert_eq!(summary(&v[..1]), vec![(12, 1, 1, 0)]);
    assert_eq!(summary(&v[5..6]), vec![(36, 2, 0, 0)]);
    assert_eq!(summary(&v[v.len() - 1..]), vec![(60147, 0, 0, 1)]);
}

#[test]
fn long_input_without_closed_stretches() {
    let rt = long_run(1);
    let (v, reti) = swap_compressor(&rt, 1000).unwrap();
    assert_eq!(v.len(), 200);
    assert_eq!(reti, 19800);
    assert_eq!(summary(&v[..2]), vec![(0, -5, 0, 3), (199, 2, 1, 3)]);
    assert_eq!(summary(&v[v.len() - 1..]), vec![(20049, 0, 0, 1)]);
}

#[test]
fn emitted_values_come_from_the_input() {
    let rt = long_run(3);
    let (v, _) = swap_compressor(&rt, 7).unwrap();
    for p in &v {
        for x in 0..ACHANELS {
            assert!(rt.iter().any(|q| q.achanels[x] == p.achanels[x]));
        }
        assert!(p.timestamp >= rt[0].timestamp && p.timestamp <= rt[rt.len() - 1].timestamp);
    }
}

#[test]
fn input_check() {
    assert!(compress_input_fits(&[]));
    assert!(compress_input_fits(&long_run(3)));
    let short = RtPoint { nan: false, timestamp: 0, achanels: vec![0; 3], digital: 0 };
    assert!(!compress_input_fits(&[short]));
    assert!(!compress_input_fits(&[pt(i64::MIN, 0, 0, 0), pt(1, 0, 0, 0)]));
    assert!(compress_input_fits(&[pt(i64::MIN, 0, 0, 0), pt(-1, 0, 0, 0)]));
}
