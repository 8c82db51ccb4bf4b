use glue::audio::{get_bytes_per_sample, AV_SAMPLE_FMT_DBLP, AV_SAMPLE_FMT_S32P, AV_SAMPLE_FMT_S64};
use glue::audio::{get_channel_layout_for_channels, ChannelLayout};
use glue::audio::DeviceFormatError;
use glue::audio::GluAudioData;
use glue::audio::{
    cpal_splfmt_to_ffmpeg_splfmt, fill_playback, interleave_planar, is_planar_format,
    playback_threshold, AudioChunker, AudioFrame, DeviceFormat, SampleFormat, UnsupportedFormat,
    AV_SAMPLE_FMT_DBL, AV_SAMPLE_FMT_FLT, AV_SAMPLE_FMT_FLTP, AV_SAMPLE_FMT_NB, AV_SAMPLE_FMT_S16,
    AV_SAMPLE_FMT_S16P, AV_SAMPLE_FMT_S32, AV_SAMPLE_FMT_U8, AV_SAMPLE_FMT_U8P,
};

fn stereo_f32_48k() -> DeviceFormat {
    DeviceFormat { channels: 2, bytes_per_sample: 4, sample_rate: 48000 }
}

fn ramp(len: usize, start: u8) -> Vec<u8> {
    (0..len).map(|i| start.wrapping_add((i % 251) as u8)).collect()
}

#[test]
fn planar_formats() {
    for fmt in [AV_SAMPLE_FMT_U8P, AV_SAMPLE_FMT_S16P, AV_SAMPLE_FMT_FLTP, AV_SAMPLE_FMT_NB] {
        assert!(is_planar_format(fmt));
    }
    for fmt in [AV_SAMPLE_FMT_U8, AV_SAMPLE_FMT_S16, AV_SAMPLE_FMT_FLT, -1, 13] {
        assert!(!is_planar_format(fmt));
    }
}

#[test]
fn device_formats_map_to_ffmpeg_codes() {
    assert_eq!(cpal_splfmt_to_ffmpeg_splfmt(SampleFormat::U8), Ok(AV_SAMPLE_FMT_U8));
    assert_eq!(cpal_splfmt_to_ffmpeg_splfmt(SampleFormat::I16), Ok(AV_SAMPLE_FMT_S16));
    assert_eq!(cpal_splfmt_to_ffmpeg_splfmt(SampleFormat::I32), Ok(AV_SAMPLE_FMT_S32));
    assert_eq!(cpal_splfmt_to_ffmpeg_splfmt(SampleFormat::F32), Ok(AV_SAMPLE_FMT_FLT));
    assert_eq!(cpal_splfmt_to_ffmpeg_splfmt(SampleFormat::F64), Ok(AV_SAMPLE_FMT_DBL));
    assert_eq!(
        cpal_splfmt_to_ffmpeg_splfmt(SampleFormat::U16),
        Err(UnsupportedFormat(SampleFormat::U16))
    );
    assert_eq!(
        cpal_splfmt_to_ffmpeg_splfmt(SampleFormat::I64),
        Err(UnsupportedFormat(SampleFormat::I64))
    );
}

#[test]
fn audio_frame_copies_its_bytes() {
    let src = vec![5u8, 6, 7];
    let f = AudioFrame::new(2, 40, 21, &src);
    assert_eq!((f.idx, f.pts, f.dur), (2, 40, 21));
    assert_eq!(&f.data[..], &[5, 6, 7]);
}

#[test]
fn chunker_cuts_whole_device_packets() {
    let fmt = stereo_f32_48k();
    let mut chunker = AudioChunker::new();
    assert!(chunker.cache.is_empty());
    assert_eq!(chunker.pts, None);

    let first = ramp(10000, 0);
    let out = chunker.push(1, 500, &first, None, fmt);
    assert_eq!(out.len(), 1);
    assert_eq!((out[0].idx, out[0].pts, out[0].dur), (1, 500, 21));
    assert_eq!(&out[0].data[..], &first[..8192]);
    assert_eq!(&chunker.cache[..], &first[8192..]);
    assert_eq!(chunker.pts, Some(521));

    // the running time ignores the next frame's own time
    let second = ramp(8000, 3);
    let out = chunker.push(1, 9999, &second, None, fmt);
    assert_eq!(out.len(), 1);
    assert_eq!(out[0].pts, 521);
    let mut all = first[8192..].to_vec();
    all.extend_from_slice(&second);
    assert_eq!(&out[0].data[..], &all[..8192]);
    assert_eq!(&chunker.cache[..], &all[8192..]);
    assert_eq!(chunker.cache.len(), 1616);
    assert_eq!(chunker.pts, Some(542));
}

#[test]
fn chunker_flushes_the_tail_at_end_of_stream() {
    let fmt = stereo_f32_48k();
    let mut chunker = AudioChunker::new();
    let samples = ramp(100, 0);
    let tail = ramp(8192 * 2, 9);
    let out = chunker.push(0, 1000, &samples, Some(&tail), fmt);
    assert_eq!(out.len(), 2);
    assert_eq!(out[0].pts, 1000);
    assert_eq!(out[1].pts, 1021);
    let mut all = samples.clone();
    all.extend_from_slice(&tail);
    assert_eq!(&out[1].data[..], &all[8192..16384]);
    assert_eq!(&chunker.cache[..], &all[16384..]);
    assert_eq!(chunker.pts, None);
}

#[test]
fn chunker_loses_no_bytes() {
    let fmt = DeviceFormat { channels: 1, bytes_per_sample: 2, sample_rate: 44100 };
    let mut chunker = AudioChunker::new();
    let mut fed: Vec<u8> = Vec::new();
    let mut got: Vec<u8> = Vec::new();
    for round in 0..7u8 {
        let chunk = ramp(1500 + 37 * round as usize, round);
        fed.extend_from_slice(&chunk);
        for p in chunker.push(0, 0, &chunk, None, fmt) {
            assert_eq!(p.dur, 23);
            got.extend_from_slice(&p.data);
        }
    }
    got.extend_from_slice(&chunker.cache);
    assert_eq!(got, fed);
}

#[test]
fn small_pushes_give_no_packet() {
    let fmt = stereo_f32_48k();
    let mut chunker = AudioChunker::new();
    let out = chunker.push(0, 7, &[1, 2, 3], None, fmt);
    assert!(out.is_empty());
    assert_eq!(&chunker.cache[..], &[1, 2, 3]);
    assert_eq!(chunker.pts, Some(7));
}

#[test]
fn planar_samples_are_interleaved() {
    // each plane holds one channel: sample s of plane c is at s * bytes_per_sample
    let planes = vec![vec![1u8, 2], vec![3u8, 4]];
    assert_eq!(interleave_planar(&planes, 2, 1), vec![1, 3, 2, 4]);

    let planes = vec![vec![10u8, 11, 12, 13], vec![20u8, 21, 22, 23]];
    assert_eq!(interleave_planar(&planes, 2, 2), vec![10, 11, 20, 21, 12, 13, 22, 23]);

    let planes = vec![vec![1u8, 2, 3], vec![4u8, 5, 6], vec![7u8, 8, 9]];
    assert_eq!(interleave_planar(&planes, 3, 1), vec![1, 4, 7, 2, 5, 8, 3, 6, 9]);

    let mono = vec![vec![7u8, 8, 9]];
    assert_eq!(interleave_planar(&mono, 3, 1), vec![7, 8, 9]);
    assert!(interleave_planar(&Vec::new(), 4, 2).is_empty());
}

#[test]
fn playback_threshold_is_fifty_milliseconds() {
    assert_eq!(playback_threshold(48000, 4, 2), 19200);
    assert_eq!(playback_threshold(44100, 2, 1), 4410);
    assert_eq!(playback_threshold(8000, 0, 2), 0);
}

#[test]
fn playback_drops_the_oldest_beyond_the_threshold() {
    let mut cache = vec![1, 2, 3];
    let out = fill_playback(&mut cache, Some(vec![4, 5]), 4, 3, 0);
    assert_eq!(out, vec![5, 0, 0]);
    assert!(cache.is_empty());
}

#[test]
fn playback_keeps_what_it_does_not_play() {
    let mut cache = vec![1, 2];
    let out = fill_playback(&mut cache, Some(vec![3, 4, 5]), 10, 3, 0);
    assert_eq!(out, vec![1, 2, 3]);
    assert_eq!(cache, vec![4, 5]);
    let out = fill_playback(&mut cache, None, 10, 4, -1);
    assert_eq!(out, vec![4, 5, -1, -1]);
    assert!(cache.is_empty());
}

#[test]
fn sample_sizes() {
    assert_eq!(get_bytes_per_sample(AV_SAMPLE_FMT_U8), Some(1));
    assert_eq!(get_bytes_per_sample(AV_SAMPLE_FMT_S16P), Some(2));
    assert_eq!(get_bytes_per_sample(AV_SAMPLE_FMT_S32P), Some(4));
    assert_eq!(get_bytes_per_sample(AV_SAMPLE_FMT_FLT), Some(4));
    assert_eq!(get_bytes_per_sample(AV_SAMPLE_FMT_DBLP), Some(8));
    assert_eq!(get_bytes_per_sample(AV_SAMPLE_FMT_S64), Some(8));
    assert_eq!(get_bytes_per_sample(AV_SAMPLE_FMT_NB), None);
    assert_eq!(get_bytes_per_sample(-1), None);
}

#[test]
fn channel_layouts() {
    assert_eq!(get_channel_layout_for_channels(1), ChannelLayout::Mono);
    assert_eq!(get_channel_layout_for_channels(2), ChannelLayout::Stereo);
    assert_eq!(get_channel_layout_for_channels(3), ChannelLayout::Surround);
    assert_eq!(get_channel_layout_for_channels(4), ChannelLayout::Quad);
    assert_eq!(get_channel_layout_for_channels(5), ChannelLayout::FivePointZero);
    assert_eq!(get_channel_layout_for_channels(6), ChannelLayout::FivePointOne);
    assert_eq!(get_channel_layout_for_channels(7), ChannelLayout::SixPointOne);
    assert_eq!(get_channel_layout_for_channels(8), ChannelLayout::SevenPointOne);
    assert_eq!(get_channel_layout_for_channels(9), ChannelLayout::Default(9));
    assert_eq!(get_channel_layout_for_channels(0), ChannelLayout::Default(0));
}

#[test]
fn device_formats() {
    assert_eq!(DeviceFormat::for_device(2, 48000, SampleFormat::F32), Ok(stereo_f32_48k()));
    assert_eq!(
        DeviceFormat::for_device(1, 44100, SampleFormat::I16),
        Ok(DeviceFormat { channels: 1, bytes_per_sample: 2, sample_rate: 44100 })
    );
    assert_eq!(
        DeviceFormat::for_device(2, 48000, SampleFormat::U32),
        Err(DeviceFormatError::Unsupported(SampleFormat::U32))
    );
    assert_eq!(DeviceFormat::for_device(0, 48000, SampleFormat::F32), Err(DeviceFormatError::Empty));
    assert_eq!(DeviceFormat::for_device(2, 0, SampleFormat::F64), Err(DeviceFormatError::Empty));
    assert!(stereo_f32_48k().is_valid());
    assert!(!DeviceFormat { channels: 2, bytes_per_sample: 0, sample_rate: 48000 }.is_valid());
    assert!(!DeviceFormat { channels: 2, bytes_per_sample: usize::MAX, sample_rate: 48000 }.is_valid());
}

#[test]
fn empty_audio_data_ends_the_stream() {
    let end = GluAudioData::new(bytes::Bytes::new(), 70);
    assert!(end.is_end_of_stream());
    assert_eq!(end.pts, 70);
    let data = GluAudioData::new(bytes::Bytes::from(vec![1u8, 2]), 5);
    assert!(!data.is_end_of_stream());
}

#[test]
fn chunking_does_not_depend_on_how_bytes_arrive() {
    let fmt = DeviceFormat { channels: 1, bytes_per_sample: 1, sample_rate: 32000 };
    let a = ramp(1500, 1);
    let b = ramp(2700, 9);
    let mut split = AudioChunker::new();
    let mut first = split.push(0, 100, &a, None, fmt);
    first.extend(split.push(0, 555, &b, None, fmt));
    let mut whole = AudioChunker::new();
    let mut ab = a.clone();
    ab.extend_from_slice(&b);
    let once = whole.push(0, 100, &ab, None, fmt);
    assert_eq!(first.len(), once.len());
    assert_eq!(once.len(), 4);
    for (p, q) in first.iter().zip(once.iter()) {
        assert_eq!((p.pts, p.dur), (q.pts, q.dur));
        assert_eq!(&p.data[..], &q.data[..]);
    }
    assert_eq!(&split.cache[..], &whole.cache[..]);
    assert_eq!(split.pts, whole.pts);
    assert!(split.cache.len() < 1024);
}
