use vaumototool::app_plot::{swap_extend, swap_extend_in_range, swap_shrink, SwapExtent, SwapMod, SwapView};
use vaumototool::compressor::swap_compressor;
use vaumototool::rtmap::{RtPoint, ACHANELS};

fn point(timestamp: i64, a0: i16) -> RtPoint {
    let mut achanels = vec![0i16; ACHANELS];
    achanels[0] = a0;
    RtPoint { nan: false, timestamp, achanels, digital: 0 }
}

/// Samples every 10 µs from 0 to 990, with a saw-tooth on channel 0.
fn map() -> Vec<RtPoint> {
    (0..100).map(|i| point(10 * i, (i % 7) as i16)).collect()
}

fn stamps(v: &[RtPoint]) -> Vec<i64> {
    v.iter().map(|p| p.timestamp).collect()
}

#[test]
fn full_update_compresses_the_covered_samples() {
    let m = map();
    let mut view = SwapView::new();
    assert!(swap_extend_in_range(&view, &m, [200, 600], 2, SwapMod::Full, false));
    let e = swap_extend(&mut view, &m, [200, 600], 2, SwapMod::Full, false).unwrap();
    assert_eq!(e, SwapExtent { first: 20, last: 60, left_append: 0, right_append: 0, bounds_taken: true });
    let (c, reti) = swap_compressor(&m[20..60], 2).unwrap();
    assert_eq!(stamps(&view.rtswap), stamps(&c));
    assert_eq!((view.first, view.begin, view.end), (20, 20 + reti, 60));
    assert_eq!(view.xptbound, [200, 600]);
}

#[test]
fn add_update_extends_right_and_drops_left() {
    let m = map();
    let mut view = SwapView::new();
    swap_extend(&mut view, &m, [200, 600], 2, SwapMod::Full, false).unwrap();
    let before = stamps(&view.rtswap);
    assert!(swap_extend_in_range(&view, &m, [300, 700], 2, SwapMod::Add, false));
    let e = swap_extend(&mut view, &m, [300, 700], 2, SwapMod::Add, false).unwrap();
    let (c, _) = swap_compressor(&m[60..70], 2).unwrap();
    assert!(c.len() > 2);
    assert_eq!(e, SwapExtent { first: 30, last: 70, left_append: 0, right_append: c.len(), bounds_taken: true });
    let mut grown = before.clone();
    grown.extend(stamps(&c));
    assert_eq!(stamps(&view.rtswap), grown);
    assert_eq!((view.first, view.end), (20, 70));
    let (left_delete, right_delete) = swap_shrink(&mut view, e.first, e.last, [300, 700]);
    assert_eq!(right_delete, 0);
    let dropped = grown.iter().position(|&t| t >= 300).unwrap();
    assert_eq!(left_delete, dropped);
    assert_eq!(stamps(&view.rtswap), grown[dropped..].to_vec());
    assert_eq!((view.first, view.end), (30, 70));
}

#[test]
fn add_update_extends_left_and_drops_right() {
    let m = map();
    let mut view = SwapView::new();
    swap_extend(&mut view, &m, [400, 800], 2, SwapMod::Full, false).unwrap();
    let before = stamps(&view.rtswap);
    let e = swap_extend(&mut view, &m, [200, 600], 2, SwapMod::Add, false).unwrap();
    let (c, _) = swap_compressor(&m[20..40], 2).unwrap();
    assert_eq!(e, SwapExtent { first: 20, last: 60, left_append: c.len(), right_append: 0, bounds_taken: false });
    let mut grown = stamps(&c);
    grown.extend(before);
    assert_eq!(stamps(&view.rtswap), grown);
    let (left_delete, right_delete) = swap_shrink(&mut view, e.first, e.last, [200, 600]);
    assert_eq!(left_delete, 0);
    let kept = grown.iter().rposition(|&t| t <= 600).unwrap() + 1;
    assert_eq!(right_delete, grown.len() - kept);
    assert_eq!(stamps(&view.rtswap), grown[..kept].to_vec());
    assert_eq!((view.first, view.end), (20, 60));
}

#[test]
fn add_update_past_the_map_is_refused() {
    let m = map();
    let mut view = SwapView::new();
    view.begin = 100;
    assert!(swap_extend_in_range(&view, &m, [200, 600], 2, SwapMod::Add, false));
    assert_eq!(swap_extend(&mut view, &m, [200, 600], 2, SwapMod::Add, false), Err("Rtswap begin range"));
    assert_eq!(view.begin, 100);
    assert!(view.rtswap.is_empty());
}

#[test]
fn full_update_with_zero_step_fails_after_reset() {
    let m = map();
    let mut view = SwapView::new();
    view.begin = 5;
    assert_eq!(swap_extend(&mut view, &m, [200, 600], 0, SwapMod::Full, false), Err("compressor index error"));
    assert_eq!(view.begin, 0);
}

#[test]
fn extend_range_checks() {
    let view = SwapView::new();
    assert!(!swap_extend_in_range(&view, &vec![], [200, 600], 2, SwapMod::Full, false));
    assert!(swap_extend_in_range(&view, &vec![], [200, 600], 2, SwapMod::Add, false));
    let mut far = SwapView::new();
    far.first = 500;
    assert!(!swap_extend_in_range(&far, &map(), [200, 600], 2, SwapMod::Add, false));
}

#[test]
fn shrink_without_moves_keeps_the_view() {
    let mut view = SwapView::new();
    assert_eq!(swap_shrink(&mut view, 0, 0, [0, 10]), (0, 0));
    assert!(view.rtswap.is_empty());
}
