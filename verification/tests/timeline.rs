use glue::audio::AudioFrame;
use glue::sync::{
    collect_frames, collect_samples, collect_step, earlier, earliest_pts, release_samples,
    CollectStep, CudaFrame, StopReason,
};
use std::time::{Duration, Instant};

fn frame(idx: usize, pts: i64) -> CudaFrame<u32> {
    let mut f = CudaFrame::new(idx, 16, 9, (idx * 1000) as u32 + pts as u32);
    f.pts = pts;
    f
}

fn pts_of(list: &[CudaFrame<u32>]) -> Vec<i64> {
    list.iter().map(|f| f.pts).collect()
}

fn audio(pts: i64) -> AudioFrame {
    AudioFrame::new(0, pts, 21, &[1, 2, 3, 4])
}

#[test]
fn new_frame_holds_no_picture_yet() {
    let f = CudaFrame::new(3, 1920, 1080, 7u8);
    assert_eq!((f.idx, f.pts, f.width, f.height, f.buffer), (3, -1, 1920, 1080, 7));
}

#[test]
fn earlier_compares_close_times_as_numbers() {
    assert!(earlier(100, 200, 1000));
    assert!(!earlier(200, 100, 1000));
    assert!(!earlier(100, 100, 1000));
}

#[test]
fn earlier_across_loops() {
    // more than half a loop apart: earlier only a whole loop beyond
    assert!(!earlier(900, 100, 1000));
    assert!(!earlier(100, 900, 1000));
    assert!(earlier(2100, 900, 1000));
    // a negative loop length never counts as a gap
    assert!(earlier(-5000, 7000, -3));
}

#[test]
fn earlier_is_strict_on_examples() {
    for (a, b) in [(0i64, 0i64), (5, 700), (700, 5), (3000, 10), (10, 3000)] {
        assert!(!(earlier(a, b, 1000) && earlier(b, a, 1000)));
    }
}

#[test]
fn earliest_ranks_first_half_late() {
    let cache = vec![vec![frame(0, 300)], vec![frame(1, 100)], vec![frame(2, 700)]];
    // keys: 300 -> 800, 100 -> 600, 700 -> 700
    assert_eq!(earliest_pts(1000, &cache), Some((100, 1)));
}

#[test]
fn earliest_ties_go_to_first_queue() {
    let cache = vec![vec![frame(0, 600)], vec![frame(1, 100)]];
    // 100 ranks as 600, as does 600
    assert_eq!(earliest_pts(1000, &cache), Some((600, 0)));
}

#[test]
fn earliest_needs_every_queue_and_a_time() {
    let cache = vec![vec![frame(0, 300)], vec![]];
    assert_eq!(earliest_pts(1000, &cache), None);
    let empty: Vec<Vec<CudaFrame<u32>>> = vec![];
    assert_eq!(earliest_pts(1000, &empty), None);
    let undecoded = vec![vec![CudaFrame::new(0, 1, 1, 0u32)], vec![frame(1, -4)]];
    assert_eq!(earliest_pts(1000, &undecoded), None);
    let one = vec![vec![CudaFrame::new(0, 1, 1, 0u32)], vec![frame(1, 40)]];
    assert_eq!(earliest_pts(1000, &one), Some((40, 1)));
}

#[test]
fn collect_step_completes_a_set() {
    let mut cache = vec![vec![frame(0, 100), frame(0, 200)], vec![frame(1, 100)]];
    match collect_step(&mut cache, 2, 0, 1000, 10000, false) {
        CollectStep::Complete(items) => {
            assert_eq!(pts_of(&items), vec![100, 100]);
            assert_eq!(items[0].idx, 0);
            assert_eq!(items[1].idx, 1);
        }
        _ => panic!("expected a complete set"),
    }
    assert_eq!(pts_of(&cache[0]), vec![200]);
    assert!(cache[1].is_empty());
}

#[test]
fn collect_step_recycles_an_incomplete_set() {
    let mut cache = vec![vec![frame(0, 100)], vec![frame(1, 200)]];
    match collect_step(&mut cache, 2, 0, 1000, 10000, false) {
        CollectStep::Incomplete(items) => assert_eq!(pts_of(&items), vec![100]),
        _ => panic!("expected an incomplete set"),
    }
    assert!(cache[0].is_empty());
    assert_eq!(pts_of(&cache[1]), vec![200]);
}

#[test]
fn collect_step_stops_for_each_reason() {
    let fresh = || vec![vec![frame(0, 100)], vec![frame(1, 100)]];
    let mut cache = fresh();
    assert!(matches!(collect_step(&mut cache, 3, 0, 1000, 10000, false), CollectStep::Stop(StopReason::Misaligned)));
    let mut cache = vec![vec![frame(0, 100)], vec![]];
    assert!(matches!(collect_step(&mut cache, 2, 0, 1000, 10000, false), CollectStep::Stop(StopReason::NothingQueued)));
    let mut cache = fresh();
    assert!(matches!(collect_step(&mut cache, 2, 0, 50, 10000, false), CollectStep::Stop(StopReason::NotDue)));
    assert_eq!(cache.iter().map(|q| q.len()).sum::<usize>(), 2);
    let mut cache = fresh();
    match collect_step(&mut cache, 2, 500, 1000, 10000, false) {
        CollectStep::Stop(StopReason::StartAfterEarliest { start_pts, pts }) => assert_eq!((start_pts, pts), (500, 100)),
        _ => panic!("expected the start to lie after the earliest frame"),
    }
    let mut cache = fresh();
    assert!(matches!(collect_step(&mut cache, 2, i64::MIN, 1000, 10000, false), CollectStep::Stop(StopReason::Overflow)));
}

#[test]
fn collect_step_forced_ignores_the_clock() {
    let mut cache = vec![vec![frame(0, 100)], vec![frame(1, 100)]];
    assert!(matches!(collect_step(&mut cache, 2, 0, 50, 10000, true), CollectStep::Complete(_)));
}

#[test]
fn collect_frames_hands_out_every_due_set() {
    let start = Instant::now().checked_sub(Duration::from_secs(10)).unwrap_or_else(Instant::now);
    let mut cache = vec![
        vec![frame(0, 0), frame(0, 40), frame(0, 80)],
        vec![frame(1, 0), frame(1, 40), frame(1, 120)],
    ];
    let out = collect_frames(&start, 0, 1_000_000, &mut cache, 2, false);
    assert_eq!(out.sets.len(), 2);
    for set in &out.sets {
        assert_eq!(set.len(), 2);
        assert_eq!(set[0].pts, set[1].pts);
    }
    assert_eq!(pts_of(&out.recycled), vec![80]);
    assert_eq!(pts_of(&cache[1]), vec![120]);
    assert!(cache[0].is_empty());
    assert!(matches!(out.stop, StopReason::NothingQueued));
    // every frame is accounted for
    let left: usize = cache.iter().map(|q| q.len()).sum();
    assert_eq!(left + 2 * out.sets.len() + out.recycled.len(), 6);
}

#[test]
fn collect_frames_forced_releases_the_complete_set_and_hands_back_the_stray() {
    let start = Instant::now();
    let mut cache = vec![vec![frame(0, 40), frame(0, 80)], vec![frame(1, 80)]];
    let out = collect_frames(&start, 0, 1000, &mut cache, 2, true);
    assert_eq!(out.sets.len(), 1);
    assert_eq!(out.sets[0][0].pts, 80);
    assert_eq!(out.sets[0][1].pts, 80);
    assert_eq!(out.sets[0][0].idx, 0);
    assert_eq!(out.sets[0][1].idx, 1);
    assert_eq!(out.recycled.len(), 1);
    assert_eq!((out.recycled[0].idx, out.recycled[0].pts), (0, 40));
    assert!(cache[0].is_empty() && cache[1].is_empty());
    assert!(matches!(out.stop, StopReason::NothingQueued));
}

#[test]
fn collect_frames_misaligned_cache_is_left_alone() {
    let start = Instant::now();
    let mut cache = vec![vec![frame(0, 0)]];
    let out = collect_frames(&start, 0, 1000, &mut cache, 2, true);
    assert!(out.sets.is_empty() && out.recycled.is_empty());
    assert!(matches!(out.stop, StopReason::Misaligned));
    assert_eq!(pts_of(&cache[0]), vec![0]);
}

#[test]
fn collect_frames_waits_for_a_head_that_is_not_due() {
    let start = Instant::now();
    let mut cache = vec![vec![frame(0, 400_000)], vec![frame(1, 400_000)]];
    let out = collect_frames(&start, 0, 1_000_000, &mut cache, 2, false);
    assert!(out.sets.is_empty() && out.recycled.is_empty());
    assert!(matches!(out.stop, StopReason::NotDue));
    assert_eq!(pts_of(&cache[0]), vec![400_000]);
    assert_eq!(pts_of(&cache[1]), vec![400_000]);
}

#[test]
fn release_samples_takes_due_packets_in_order() {
    let mut cache = vec![audio(0), audio(40), audio(5000)];
    let r = release_samples(100, 0, 100_000, &mut cache);
    assert_eq!(r.released.iter().map(|a| a.pts).collect::<Vec<_>>(), vec![0, 40]);
    assert_eq!(r.clock_drift, Some(-60));
    assert!(!r.overflow);
    assert_eq!(cache.len(), 1);
    assert_eq!(cache[0].pts, 5000);
}

#[test]
fn release_samples_nothing_due() {
    let mut cache = vec![audio(500)];
    let r = release_samples(100, 0, 100_000, &mut cache);
    assert!(r.released.is_empty());
    assert_eq!(r.clock_drift, None);
    assert!(!r.overflow);
    assert_eq!(cache.len(), 1);
}

#[test]
fn release_samples_reports_overflow() {
    let mut cache = vec![audio(i64::MAX)];
    let r = release_samples(100, -10, 100_000, &mut cache);
    assert!(r.released.is_empty());
    assert!(r.overflow);
}

#[test]
fn collect_samples_keeps_order() {
    let start = Instant::now().checked_sub(Duration::from_secs(10)).unwrap_or_else(Instant::now);
    let mut cache = vec![audio(0), audio(21), audio(10_000_000)];
    let r = collect_samples(&start, 0, 100_000_000, &mut cache);
    assert_eq!(r.released.len(), 2);
    assert!(r.clock_drift.is_some());
    assert_eq!(cache[0].pts, 10_000_000);
}
