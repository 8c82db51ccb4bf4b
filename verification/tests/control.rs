use glue::align::{clock_step, ClockStep};
use glue::state::GluResourceState::{Pause, Start, Stop};
use glue::decode::{hw_pix_fmt_for, HwConfig};
use glue::decode::pick_surface_format;
use glue::decode::needs_resample;
use glue::layout::starts_new_row;
use glue::layout::demo_video_stem;
use glue::logs::{expired_entries, log_entry_expired, LOG_RETENTION_SECS};
use glue::align::{AlignState, DecodedFrame, CHANNEL_SIZE};
use glue::audio::AudioFrame;
use glue::decode::{
    rewind_target, route_packet, PacketRoute, AVSEEK_FLAG_BACKWARD, AVSEEK_FLAG_FRAME,
};
use glue::layout::{demo_cell, grid_layout, grid_matrix, handle_key_press, Key, KeyAction};
use glue::state::{peek_state, GluResourceCommand, GluResourceState};
use glue::sync::CudaFrame;

fn frame(idx: usize, pts: i64) -> CudaFrame<u8> {
    let mut f = CudaFrame::new(idx, 4, 4, idx as u8);
    f.pts = pts;
    f
}

#[test]
fn all_eof_needs_one_mark_per_stream() {
    assert!(DecodedFrame::<u8>::all_eof(&[0, 1], &[0, 1]));
    assert!(DecodedFrame::<u8>::all_eof(&[1, 1], &[0, 1]));
    assert!(!DecodedFrame::<u8>::all_eof(&[0], &[0, 1]));
    assert!(!DecodedFrame::<u8>::all_eof(&[5, 6], &[0, 1]));
    assert!(!DecodedFrame::<u8>::all_eof(&[], &[]));
}

#[test]
fn align_state_starts_empty() {
    let s: AlignState<u8> = AlignState::new(3, true);
    assert_eq!(s.video_cache.len(), 3);
    assert!(s.video_cache.iter().all(|q| q.is_empty()));
    assert_eq!(s.keys, vec![0, 1, 2]);
    assert!(s.audio_cache.is_empty());
    assert_eq!((s.start_pts, s.clock, s.frames, s.has_audio), (None, None, 0, true));
    assert!(s.eof.is_empty());
}

#[test]
fn video_sets_the_origin_without_audio() {
    let mut s: AlignState<u8> = AlignState::new(2, false);
    assert!(!s.receive(Some(DecodedFrame::Video(frame(1, 40)))));
    assert_eq!(s.start_pts, Some(40));
    assert!(!s.receive(Some(DecodedFrame::Video(frame(1, 80)))));
    assert_eq!(s.start_pts, Some(40));
    assert_eq!(s.video_cache[0].len(), 0);
    let pts: Vec<i64> = s.video_cache[1].iter().map(|f| f.pts).collect();
    assert_eq!(pts, vec![40, 80]);
}

#[test]
fn audio_sets_the_origin_with_audio() {
    let mut s: AlignState<u8> = AlignState::new(1, true);
    assert!(!s.receive(Some(DecodedFrame::Video(frame(0, 10)))));
    assert_eq!(s.start_pts, None);
    assert!(!s.receive(Some(DecodedFrame::Audio(AudioFrame::new(0, 33, 21, &[1])))));
    assert_eq!(s.start_pts, Some(33));
    assert_eq!(s.audio_cache.len(), 1);
    assert!(!s.receive(Some(DecodedFrame::EOF(0))));
    assert_eq!(s.eof, vec![0]);
}

#[test]
fn stalled_decoders_force_collection() {
    let mut s: AlignState<u8> = AlignState::new(2, true);
    for i in 0..CHANNEL_SIZE {
        s.receive(Some(DecodedFrame::Video(frame(0, i as i64))));
    }
    s.receive(Some(DecodedFrame::Video(frame(1, 0))));
    assert!(!s.receive(None));
    s.receive(Some(DecodedFrame::EOF(0)));
    s.receive(Some(DecodedFrame::EOF(1)));
    assert!(s.receive(None));

    let mut without_audio: AlignState<u8> = AlignState::new(1, false);
    for i in 0..CHANNEL_SIZE {
        without_audio.receive(Some(DecodedFrame::Video(frame(0, i as i64))));
    }
    without_audio.receive(Some(DecodedFrame::EOF(0)));
    assert!(!without_audio.receive(None));
}

#[test]
fn timeline_restarts_when_a_queue_runs_dry_after_the_end() {
    let mut s: AlignState<u8> = AlignState::new(2, false);
    s.receive(Some(DecodedFrame::Video(frame(0, 5))));
    s.receive(Some(DecodedFrame::EOF(0)));
    assert!(!s.should_reset());
    s.receive(Some(DecodedFrame::EOF(1)));
    assert!(s.should_reset());
    s.record_sent();
    s.record_sent();
    assert_eq!(s.frames, 2);
    s.reset();
    assert_eq!((s.start_pts, s.frames), (None, 0));
    assert!(s.eof.is_empty());
    assert_eq!(s.video_cache[0].len(), 1);
    assert!(!s.should_reset());
}

#[test]
fn pause_toggles_and_stop_stays() {
    assert_eq!(GluResourceState::Start.toggled(), GluResourceState::Pause);
    assert_eq!(GluResourceState::Pause.toggled(), GluResourceState::Start);
    assert_eq!(GluResourceState::Stop.toggled(), GluResourceState::Stop);
    for s in [GluResourceState::Start, GluResourceState::Pause, GluResourceState::Stop] {
        assert_eq!(s.toggled().toggled(), s);
    }
}

#[test]
fn peek_state_follows_the_shared_state() {
    let mut local = GluResourceState::Start;
    assert!(!peek_state(&mut local, Some(Some(GluResourceState::Pause))));
    assert_eq!(local, GluResourceState::Pause);
    assert!(!peek_state(&mut local, Some(None)));
    assert_eq!(local, GluResourceState::Pause);
    assert!(peek_state(&mut local, Some(Some(GluResourceState::Stop))));
    assert_eq!(local, GluResourceState::Stop);
    assert!(peek_state(&mut local, Some(None)));
    let mut other = GluResourceState::Start;
    assert!(peek_state(&mut other, None));
    assert_eq!(other, GluResourceState::Start);
}

#[test]
fn commands() {
    assert_eq!(GluResourceCommand::stop(), GluResourceCommand::Stop);
    assert_eq!(GluResourceCommand::start(), GluResourceCommand::Start);
    assert_eq!(GluResourceCommand::pause(), GluResourceCommand::Pause);
    assert_eq!(GluResourceCommand::seek(1500), GluResourceCommand::Seek(1500));
}

#[test]
fn grid_is_the_ceiling_square_root() {
    let expected = [(0, 0), (1, 1), (2, 2), (4, 2), (5, 3), (9, 3), (10, 4), (16, 4), (17, 5)];
    for (n, m) in expected {
        assert_eq!(grid_matrix(n), m, "count {}", n);
    }
    for n in 0..5000usize {
        assert_eq!(grid_matrix(n), (n as f32).sqrt().ceil() as usize);
    }
}

#[test]
fn grid_follows_single_precision_for_huge_counts() {
    // beyond 2^24 cells the rounded square root can fall short of the exact ceiling
    assert_eq!(grid_matrix(16785410), 4097);
    let samples = [
        16777216usize,
        16777217,
        16785409,
        16785410,
        16785411,
        (1 << 30) + 1,
        ((1usize << 20) + 1) * ((1 << 20) + 1) + 1,
        (1 << 40) - 1,
        1 << 40,
        usize::MAX,
        usize::MAX - 1,
        (u32::MAX as usize) * (u32::MAX as usize),
        (u32::MAX as usize) * (u32::MAX as usize) + 1,
    ];
    for n in samples {
        assert_eq!(grid_matrix(n), (n as f32).sqrt().ceil() as usize, "count {}", n);
    }
    let mut n: usize = 1;
    while n < usize::MAX / 3 {
        for m in [n - 1, n, n + 1, n * n.trailing_zeros() as usize + 1] {
            assert_eq!(grid_matrix(m), (m as f32).sqrt().ceil() as usize, "count {}", m);
        }
        n = n * 3 + 1;
    }
}

#[test]
fn grid_cells_share_the_inner_area() {
    assert_eq!(grid_layout(5, 1920, 1080), (3, 638, 358));
    assert_eq!(grid_layout(1, 800, 600), (1, 796, 596));
    assert_eq!(grid_layout(4, 2, 2), (2, -1, -1));
    // the cells fill the inner area but for less than one more cell
    for (count, w, h) in [(5usize, 1920i32, 1080i32), (7, 1000, 333), (16, 805, 4)] {
        let (m, cw, ch) = grid_layout(count, w, h);
        let (m, cw, ch) = (m as i32, cw, ch);
        assert!(m * cw <= w - 4 && w - 4 < m * (cw + 1));
        assert!(m * ch <= h - 4 && h - 4 < m * (ch + 1));
    }
}

#[test]
fn keys_act_after_a_second() {
    assert_eq!(handle_key_press(0, Key::Q), KeyAction::Ignore);
    assert_eq!(handle_key_press(0, Key::Space), KeyAction::Ignore);
    assert_eq!(handle_key_press(1, Key::Q), KeyAction::Exit);
    assert_eq!(handle_key_press(3, Key::Escape), KeyAction::Exit);
    assert_eq!(handle_key_press(2, Key::Space), KeyAction::TogglePause);
    assert_eq!(handle_key_press(9, Key::Other), KeyAction::Ignore);
}

#[test]
fn packets_go_to_their_decoder() {
    assert_eq!(route_packet(0, 0, Some(1)), PacketRoute::Video);
    assert_eq!(route_packet(1, 0, Some(1)), PacketRoute::Audio);
    assert_eq!(route_packet(2, 0, Some(1)), PacketRoute::Skip);
    assert_eq!(route_packet(1, 0, None), PacketRoute::Skip);
}

#[test]
fn rewind_prefers_the_audio_stream() {
    assert_eq!(rewind_target(0, Some(1)), (1, AVSEEK_FLAG_BACKWARD | AVSEEK_FLAG_FRAME));
    assert_eq!(rewind_target(0, Some(1)), (1, 9));
    assert_eq!(rewind_target(2, None), (2, AVSEEK_FLAG_BACKWARD));
}

#[test]
fn hardware_configs_pick_the_first_device_context_match() {
    let configs = vec![
        HwConfig { pix_fmt: 50, methods: 2, device_type: 2 },
        HwConfig { pix_fmt: 117, methods: 3, device_type: 2 },
        HwConfig { pix_fmt: 118, methods: 1, device_type: 2 },
        HwConfig { pix_fmt: 60, methods: 1, device_type: 4 },
    ];
    assert_eq!(hw_pix_fmt_for(&configs, 2), Some(117));
    assert_eq!(hw_pix_fmt_for(&configs, 4), Some(60));
    assert_eq!(hw_pix_fmt_for(&configs, 7), None);
    assert_eq!(hw_pix_fmt_for(&Vec::new(), 2), None);
}

#[test]
fn surface_format_is_asked_only_when_offered() {
    assert_eq!(pick_surface_format(&[0, 23, 117], 117), Some(117));
    assert_eq!(pick_surface_format(&[0, 23], 117), None);
    assert_eq!(pick_surface_format(&[], 117), None);
}

#[test]
fn resampling_when_the_device_differs() {
    assert!(!needs_resample(2, 48000, 3, 2, 48000, 3));
    assert!(needs_resample(2, 48000, 3, 1, 48000, 3));
    assert!(needs_resample(2, 48000, 3, 2, 44100, 3));
    assert!(needs_resample(2, 48000, 3, 2, 48000, 8));
    // channel counts are compared in the device's 16-bit type
    assert!(!needs_resample(2, 48000, 3, 65538, 48000, 3));
}

#[test]
fn grid_rows() {
    assert!(!starts_new_row(0, 3));
    assert!(!starts_new_row(2, 3));
    assert!(starts_new_row(3, 3));
    assert!(starts_new_row(6, 3));
    assert!(starts_new_row(1, 1));
}

#[test]
fn demo_video_names() {
    assert_eq!(demo_video_stem(0), "video");
    assert_eq!(demo_video_stem(1), "video_hevc");
    assert_eq!(demo_video_stem(4), "test2/screen_");
    assert_eq!(demo_video_stem(8), "video_short");
    assert_eq!(demo_video_stem(9), "");
    assert_eq!(demo_video_stem(-1), "");
}

#[test]
fn log_entries_expire_after_a_week() {
    assert_eq!(LOG_RETENTION_SECS, 604800);
    assert!(!log_entry_expired(0));
    assert!(!log_entry_expired(604800));
    assert!(log_entry_expired(604801));
}

#[test]
fn clock_steps_of_the_alignment_loop() {
    assert_eq!(clock_step(true, Start, true, false), ClockStep::Quit);
    assert_eq!(clock_step(true, Stop, false, true), ClockStep::Quit);
    assert_eq!(clock_step(false, Pause, false, false), ClockStep::Wait { mark_pause: true });
    assert_eq!(clock_step(false, Pause, true, true), ClockStep::Wait { mark_pause: false });
    // the first playing round starts the clock and keeps a noted pause
    assert_eq!(clock_step(false, Start, false, true), ClockStep::Start);
    assert_eq!(clock_step(false, Start, true, true), ClockStep::Resume);
    assert_eq!(clock_step(false, Start, true, false), ClockStep::Run);
}

#[test]
fn demo_cells_of_the_fixed_grid() {
    // GL counts rows from the bottom: column 0 is drawn at the top
    assert_eq!(demo_cell(0, 0, 2, 960, 540), (0, 540, 0));
    assert_eq!(demo_cell(1, 0, 2, 960, 540), (960, 540, 1));
    assert_eq!(demo_cell(0, 1, 2, 960, 540), (0, 0, 2));
    assert_eq!(demo_cell(1, 1, 2, 960, 540), (960, 0, 3));
}

#[test]
fn cleaner_removes_only_entries_older_than_a_week() {
    let ages = vec![Some(0), Some(604800), Some(604801), None, Some(u64::MAX)];
    assert_eq!(expired_entries(&ages), vec![false, false, true, false, true]);
    assert!(expired_entries(&Vec::new()).is_empty());
}
