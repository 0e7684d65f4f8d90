use vaumototool::app_plot::{
    achanel_picks, covered_back, covered_front, dchanel_steps, picks_in_range, plot_indices, points_after,
    points_before, redraw_plan, steps_in_range, swap_window, trim_swap_left,
    trim_swap_right, zoom_step, after_redraw, SwapMod,
};
use vaumototool::compressor::swap_compressor;
use vaumototool::rtmap::{RtPoint, ACHANELS};

fn pt(timestamp: i64, a0: i16, digital: u64) -> RtPoint {
    let mut achanels = vec![0i16; ACHANELS];
    achanels[0] = a0;
    RtPoint { nan: false, timestamp, achanels, digital }
}

fn sample() -> Vec<RtPoint> {
    vec![pt(0, 1, 0), pt(1, 1, 1), pt(2, 2, 1), pt(3, 2, 0), pt(10, 2, 0), pt(11, 3, 2), pt(12, 3, 3)]
}

#[test]
fn analog_picks_changes_and_long_steps() {
    let sw = sample();
    assert!(picks_in_range(&sw, 0, 5, 0, 7));
    assert_eq!(achanel_picks(&sw, 0, 5, 0, 7), vec![0, 2, 4, 5, 6]);
    assert_eq!(achanel_picks(&sw, 0, 5, 1, 6), vec![1, 2, 4, 5, 5]);
}

#[test]
fn analog_picks_with_negative_step_repeat_the_first() {
    let sw = sample();
    assert_eq!(achanel_picks(&sw, 0, -1, 0, 3), vec![0, 0, 1, 2, 2]);
}

#[test]
fn digital_steps_draw_edges() {
    let sw = sample();
    assert!(steps_in_range(&sw, 5, 0, 7));
    assert_eq!(
        dchanel_steps(&sw, 0, 5, 0, 7),
        vec![(0, 0), (1, 0), (1, 1), (3, 1), (3, 0), (10, 0), (10, 0), (12, 0), (12, 3), (12, 3)]
    );
    assert_eq!(dchanel_steps(&sw, 1, 5, 0, 7), vec![(0, 0), (10, 0), (10, 0), (11, 0), (11, 2), (12, 3)]);
}

#[test]
fn picks_range_checks() {
    let sw = sample();
    assert!(!picks_in_range(&sw, 0, 5, 3, 3));
    assert!(!picks_in_range(&sw, 0, 5, 0, 8));
    assert!(!picks_in_range(&sw, ACHANELS, 5, 0, 7));
    assert!(!steps_in_range(&sw, i64::MAX, 0, 7));
    assert!(steps_in_range(&sw, i64::MAX - 12, 0, 7));
}

#[test]
fn trims_cut_the_ends_outside_the_view() {
    let mut sw = sample();
    assert_eq!(trim_swap_right(&mut sw, 10), 2);
    assert_eq!(sw.len(), 5);
    assert_eq!(sw[4].timestamp, 10);
    assert_eq!(trim_swap_left(&mut sw, 2), 2);
    assert_eq!(sw.len(), 3);
    assert_eq!(sw[0].timestamp, 2);
}

#[test]
fn trims_keep_all_when_nothing_qualifies() {
    let mut sw = sample();
    assert_eq!(trim_swap_right(&mut sw, -5), 0);
    assert_eq!(sw.len(), 7);
    assert_eq!(trim_swap_left(&mut sw, 100), 0);
    assert_eq!(sw.len(), 7);
    assert_eq!(trim_swap_right(&mut sw, 12), 0);
    assert_eq!(trim_swap_left(&mut sw, 0), 0);
    assert_eq!(sw.len(), 7);
}

#[test]
fn zoom_counter_steps() {
    assert_eq!(zoom_step(0), 0);
    assert_eq!(zoom_step(1), 1);
    assert_eq!(zoom_step(2), 3);
    assert_eq!(zoom_step(4), 5);
    assert_eq!(zoom_step(5), 0);
}

#[test]
fn redraw_plan_picks_the_span() {
    let sw = sample();
    let p = redraw_plan(true, 1, [100, 200], &sw, [5, 6], SwapMod::Add);
    assert_eq!((p.xtbound, p.mode, p.fit), ([100, 200], SwapMod::Add, false));
    let p = redraw_plan(false, 1, [100, 200], &sw, [5, 6], SwapMod::Add);
    assert_eq!((p.xtbound, p.mode, p.fit), ([0, 12], SwapMod::Full, true));
    let p = redraw_plan(false, 3, [100, 200], &sw, [5, 6], SwapMod::Add);
    assert_eq!((p.xtbound, p.mode, p.fit), ([5, 6], SwapMod::Add, false));
}

#[test]
fn window_on_sorted_samples_starts_after_the_coarse_pass() {
    let ts: Vec<i64> = (0..3000).map(|i| 7 * i).collect();
    let rt: Vec<RtPoint> = ts.iter().map(|&t| pt(t, 0, 0)).collect();
    let (first, last) = swap_window(&rt, [7000, 14000], false);
    assert_eq!((first, last), (990, 2000));
    assert_eq!(last, ts.iter().position(|&t| t >= 14000).unwrap());
    let (first, last) = swap_window(&rt, [100_000, 200_000], false);
    assert_eq!((first, last), (0, 2999));
}

#[test]
fn window_first_on_a_long_map() {
    let rt: Vec<RtPoint> = (0..2000).map(|t| pt(t, 0, 0)).collect();
    let (first, _) = swap_window(&rt, [1500, 1900], false);
    assert_eq!(first, 1480);
    let short: Vec<RtPoint> = (0..1000).map(|t| pt(t, 0, 0)).collect();
    let (first, _) = swap_window(&short, [500, 900], false);
    assert_eq!(first, 490);
}

#[test]
fn compressed_points_are_in_time_order() {
    let rt: Vec<RtPoint> = (0..20000).map(|i| pt(3 * i, ((i * 37) % 101) as i16, 0)).collect();
    let (v, _) = swap_compressor(&rt, 7).unwrap();
    assert!(!v.is_empty());
    assert!(v.windows(2).all(|w| w[0].timestamp <= w[1].timestamp));
}

#[test]
fn splice_counts_for_new_points() {
    assert_eq!(covered_front(10, &[5, 10, 11, 3]), 2);
    assert_eq!(covered_front(10, &[1, 2]), 2);
    assert_eq!(covered_front(10, &[11]), 0);
    assert_eq!(covered_back(10, &[1, 2, 10]), 3);
    assert_eq!(covered_back(10, &[1, 2, 9]), 0);
}

#[test]
fn splice_counts_for_drawn_points() {
    assert_eq!(points_after(&[1, 5, 9, 12, 15], 10), 2);
    assert_eq!(points_after(&[1, 12, 15], 10), 0);
    assert_eq!(points_after(&[20], 10), 0);
    assert_eq!(points_before(&[1, 5, 9, 12, 15], 6), 2);
    assert_eq!(points_before(&[1, 2, 3], 9), 0);
    assert_eq!(points_before(&[7], 9), 0);
}

#[test]
fn plot_indices_after_an_update() {
    assert_eq!(plot_indices(10, 2, 3, 4, 1), Some((9, 12)));
    assert_eq!(plot_indices(1, 0, 2, 4, 1), None);
    assert_eq!(plot_indices(0, 0, 0, 0, 0), Some((0, 0)));
}

#[test]
fn counter_and_mode_after_a_redraw() {
    let sw = sample();
    let plan = redraw_plan(false, zoom_step(1), [0, 1], &sw, [0, 1], SwapMod::Add);
    assert_eq!(after_redraw(&plan, true, 1, SwapMod::Add), (SwapMod::Add, 2));
    assert_eq!(after_redraw(&plan, false, 1, SwapMod::Full), (SwapMod::Full, 1));
    let plan = redraw_plan(true, zoom_step(1), [0, 1], &sw, [0, 1], SwapMod::Full);
    assert_eq!(after_redraw(&plan, true, 1, SwapMod::Full), (SwapMod::Add, 1));
    let plan = redraw_plan(false, zoom_step(4), [0, 1], &sw, [0, 1], SwapMod::Full);
    assert_eq!(after_redraw(&plan, true, zoom_step(4), SwapMod::Full), (SwapMod::Add, 5));
}
