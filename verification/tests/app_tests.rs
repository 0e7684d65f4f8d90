use vaumototool::app::{
    achanel_default_rgb, dchanel_default_rgb, AppState, ViewApp, XAxisTime, APPDURATION_MS, APPXAXISTIME,
    default_channel_name, receive_points, MAX_POINTS, NORTDURATION_MS,
};
use vaumototool::app_plot::{digital_bits, insta_index, swap_window, swap_window_in_range, SwapMod, PLOT_POINTS};
use vaumototool::rtmap::{RtPoint, Rtmap, ACHANELS};

fn pt(timestamp: i64) -> RtPoint {
    RtPoint { nan: false, timestamp, achanels: vec![0; ACHANELS], digital: 0 }
}

#[test]
fn app_constants() {
    assert_eq!(APPDURATION_MS, 50);
    assert_eq!(NORTDURATION_MS, 2000);
    assert_eq!(MAX_POINTS, 5_000_000);
    assert_eq!(PLOT_POINTS, 1500);
    assert!(APPXAXISTIME == XAxisTime::Minutes5);
    assert!(ViewApp::OneAChart != ViewApp::DualAChart);
    assert!(SwapMod::Add != SwapMod::Full);
}

#[test]
fn axis_spans() {
    assert_eq!(XAxisTime::Seconds10.get_time_micros(), 10_000_000);
    assert_eq!(XAxisTime::Seconds30.get_time_micros(), 30_000_000);
    assert_eq!(XAxisTime::Minute.get_time_micros(), 60_000_000);
    assert_eq!(XAxisTime::Minutes5.get_time_micros(), 300_000_000);
    assert_eq!(XAxisTime::Minutes10.get_time_micros(), 600_000_000);
    assert_eq!(XAxisTime::Minutes20.get_time_micros(), 1_200_000_000);
}

#[test]
fn early_timestamp_is_one_span_back() {
    assert_eq!(XAxisTime::Minute.get_early_timestamp(100_000_000), 40_000_000);
    assert_eq!(XAxisTime::Seconds10.get_early_timestamp(0), -10_000_000);
    for x in [XAxisTime::Seconds10, XAxisTime::Minutes20, XAxisTime::Minutes5] {
        assert_eq!(x.get_early_timestamp(5_000_000_000), 5_000_000_000 - x.get_time_micros());
    }
}

#[test]
fn app_state_reads_back_what_was_set() {
    let mut s = AppState::new(true);
    assert!(s.get_rt());
    assert!(!s.get_rtdemo());
    assert_eq!(s.get_duration(), APPDURATION_MS);
    assert!(!s.set_rt(false));
    assert!(!s.get_rt());
    assert!(s.set_rtdemo(true));
    assert!(s.get_rtdemo());
    s.set_duration(NORTDURATION_MS);
    assert_eq!(s.get_duration(), 2000);
    assert!(!s.get_rt());
    assert!(AppState::new(false).get_rt() == false);
}

#[test]
fn default_colours() {
    assert_eq!(achanel_default_rgb(0), (255, 155, 155));
    assert_eq!(achanel_default_rgb(4), (255, 115, 115));
    assert_eq!(achanel_default_rgb(7), (135, 255, 135));
    assert_eq!(achanel_default_rgb(15), (105, 105, 255));
    assert_eq!(dchanel_default_rgb(0), (255, 205, 205));
    assert_eq!(dchanel_default_rgb(12), (185, 255, 185));
    assert_eq!(dchanel_default_rgb(31), (95, 95, 255));
}

#[test]
fn insta_finds_last_sample_not_after() {
    let rt = vec![pt(10), pt(20), pt(20), pt(30)];
    assert_eq!(insta_index(&rt, 25), Some(2));
    assert_eq!(insta_index(&rt, 20), Some(2));
    assert_eq!(insta_index(&rt, 30), Some(3));
    assert_eq!(insta_index(&rt, 9), None);
    assert_eq!(insta_index(&[], 9), None);
}

#[test]
fn digital_bits_of_word() {
    let b = digital_bits(0x8000_0005);
    assert_eq!(b.len(), 32);
    assert_eq!(b[0], 1);
    assert_eq!(b[1], 0);
    assert_eq!(b[2], 1);
    assert_eq!(b[31], 1);
    assert_eq!(b.iter().map(|x| *x as u32).sum::<u32>(), 3);
}

#[test]
fn window_on_short_map() {
    let rt: Vec<RtPoint> = (0..50).map(pt).collect();
    assert_eq!(swap_window(&rt, [10, 20], false), (10, 20));
    assert_eq!(swap_window(&rt, [-100, 20], false), (0, 20));
    assert_eq!(swap_window(&rt, [10, 1000], false), (10, 49));
}

#[test]
fn window_on_long_map() {
    let rt: Vec<RtPoint> = (0..5000).map(|i| pt(i * 10)).collect();
    assert_eq!(swap_window(&rt, [10000, 30000], false), (980, 3000));
    assert!(swap_window_in_range(&rt, [10000, 30000]));
    assert_eq!(swap_window(&rt, [10000, 30000], true), (1080, 3000));
}

#[test]
fn window_skips_gap_while_recording() {
    let rt: Vec<RtPoint> = (0..100).map(|i| pt(i * 10)).chain((0..4900).map(|i| pt(100000 + i * 10))).collect();
    assert_eq!(swap_window(&rt, [0, 150000], false), (0, 4999));
    assert_eq!(swap_window(&rt, [0, 150000], true), (99, 4999));
}

#[test]
fn window_range_check() {
    let rt: Vec<RtPoint> = (0..50).map(pt).collect();
    assert!(!swap_window_in_range(&rt, [i64::MIN, i64::MAX]));
    assert!(!swap_window_in_range(&rt, [40, 5]));
    assert!(swap_window_in_range(&rt, [5, 40]));
}

#[test]
fn received_points_are_pushed_while_recording() {
    let mut map = Rtmap { rtmap: vec![pt(10), pt(20)] };
    let batch = vec![pt(25), pt(15), pt(30), pt(30)];
    assert!(!receive_points(&mut map, &batch, true));
    let stamps: Vec<i64> = map.rtmap.iter().map(|p| p.timestamp).collect();
    assert_eq!(stamps, vec![10, 20, 25, 30, 30]);
}

#[test]
fn received_points_are_dropped_when_not_recording() {
    let mut map = Rtmap { rtmap: vec![pt(10)] };
    assert!(!receive_points(&mut map, &vec![pt(25)], false));
    assert_eq!(map.rtmap.len(), 1);
    let mut empty = Rtmap { rtmap: vec![] };
    assert!(!receive_points(&mut empty, &vec![], true));
    assert!(empty.rtmap.is_empty());
}

#[test]
fn default_channel_names() {
    assert_eq!(default_channel_name(0), b"Chanel 11".to_vec());
    assert_eq!(default_channel_name(31), b"Chanel 42".to_vec());
}
