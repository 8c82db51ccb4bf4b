use glue::player::{
    positive_dimension, ratio_table, raw_nv12_size, status_code, texture_count_ok,
    timeline_parameters, DrawPlan, GluResourceStatInfo, MissingSize, PlayerCache, Rational,
    TimelineError, TimelineParams,
};
use glue::sync::CudaFrame;

fn info(framerate: Option<Rational>, frames: Option<usize>, samplerate: Option<i32>) -> GluResourceStatInfo {
    GluResourceStatInfo::new(1920, 1080, framerate, Some(0), Some(10_000), None, frames, samplerate, None, None)
}

fn set(pts: &[i64]) -> Vec<CudaFrame<u8>> {
    pts.iter()
        .enumerate()
        .map(|(i, p)| {
            let mut f = CudaFrame::new(i, 2, 2, 0u8);
            f.pts = *p;
            f
        })
        .collect()
}

#[test]
fn stat_info_keeps_its_fields() {
    let fr = Rational { num: 30, den: 1 };
    let i = GluResourceStatInfo::new(640, 480, Some(fr), Some(23), Some(5000), Some(4990), Some(150), Some(48000), Some(2), Some(8));
    assert_eq!((i.width, i.height), (640, 480));
    assert_eq!(i.framerate, Some(fr));
    assert_eq!((i.pix_fmt, i.video_duration, i.audio_duration), (Some(23), Some(5000), Some(4990)));
    assert_eq!((i.frames, i.samplerate, i.channels, i.sample_fmt), (Some(150), Some(48000), Some(2), Some(8)));
}

#[test]
fn timeline_takes_the_first_reported_values() {
    let fr25 = Rational { num: 25, den: 1 };
    let fr30 = Rational { num: 30, den: 1 };
    let infos = vec![info(None, Some(300), None), info(Some(fr25), Some(250), Some(44100)), info(Some(fr30), None, Some(48000))];
    assert_eq!(
        timeline_parameters(&infos),
        Ok(TimelineParams { total_frames: 300, framerate: fr25, samplerate: Some(44100) })
    );
    let no_audio = vec![info(Some(fr30), Some(90), None)];
    assert_eq!(
        timeline_parameters(&no_audio),
        Ok(TimelineParams { total_frames: 90, framerate: fr30, samplerate: None })
    );
}

#[test]
fn timeline_errors() {
    assert_eq!(timeline_parameters(&vec![info(None, Some(3), None)]), Err(TimelineError::NoFramerate));
    assert_eq!(timeline_parameters(&Vec::new()), Err(TimelineError::NoFramerate));
    let fr = Rational { num: 24000, den: 1001 };
    assert_eq!(timeline_parameters(&vec![info(Some(fr), None, None)]), Err(TimelineError::NoFrameCount));
}

#[test]
fn player_cache_queues_and_draws_oldest_first() {
    let mut cache: PlayerCache<u8> = PlayerCache::new();
    assert!(matches!(cache.take_for_draw(2), DrawPlan::Empty));
    assert_eq!(cache.load_frames(None), 0);
    assert_eq!(cache.load_frames(Some(set(&[10, 10]))), 1);
    assert_eq!(cache.load_frames(Some(set(&[20]))), 2);
    match cache.take_for_draw(2) {
        DrawPlan::Draw(s) => assert_eq!(s.iter().map(|f| f.pts).collect::<Vec<_>>(), vec![10, 10]),
        _ => panic!("expected a set to draw"),
    }
    match cache.take_for_draw(2) {
        DrawPlan::Mismatch(s) => assert_eq!(s.len(), 1),
        _ => panic!("expected a mismatch"),
    }
    assert!(cache.cache.is_empty());
}

#[test]
fn ratio_table_fills_the_callers_room() {
    let ratios = vec![(1920usize, 1080usize), (640, 480)];
    assert_eq!(ratio_table(&ratios, 2), Ok((vec![1920, 640], vec![1080, 480])));
    assert_eq!(ratio_table(&ratios, 1), Err(-2));
    assert_eq!(ratio_table(&Vec::new(), 0), Ok((vec![], vec![])));
}

#[test]
fn textures_must_match_videos() {
    assert!(texture_count_ok(3, 3));
    assert!(!texture_count_ok(2, 3));
    assert!(texture_count_ok(0, 0));
}

#[test]
fn status_codes() {
    assert_eq!(status_code(false, true), -1);
    assert_eq!(status_code(false, false), -1);
    assert_eq!(status_code(true, false), -2);
    assert_eq!(status_code(true, true), 0);
}

#[test]
fn sizes_from_the_c_interface() {
    assert_eq!(positive_dimension(720), Some(720));
    assert_eq!(positive_dimension(0), None);
    assert_eq!(positive_dimension(-5), None);
    assert_eq!(raw_nv12_size(Some(4), Some(2)), Ok((4, 2)));
    assert_eq!(raw_nv12_size(None, Some(2)), Err(MissingSize::Width));
    assert_eq!(raw_nv12_size(None, None), Err(MissingSize::Width));
    assert_eq!(raw_nv12_size(Some(4), None), Err(MissingSize::Height));
}
