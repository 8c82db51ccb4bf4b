//! The decoder loop's decisions: where a demuxed packet goes and where the
//! input rewinds to at the end of the file.
use vstd::prelude::*;

verus! {

/// FFmpeg's `AVSEEK_FLAG_BACKWARD`.
pub const AVSEEK_FLAG_BACKWARD: i32 = 1;
/// FFmpeg's `AVSEEK_FLAG_FRAME`.
pub const AVSEEK_FLAG_FRAME: i32 = 8;

/// Where a demuxed packet goes.
#[derive(PartialEq, Eq, Structural, Debug, Clone, Copy)]
pub enum PacketRoute {
    Video,
    Audio,
    Skip,
}

/// A packet of the video stream goes to the video decoder, one of the audio
/// stream (when there is one) to the audio decoder, any other is skipped.
/// The packet's stream index is compared as `stream_index as usize`.
pub fn route_packet(stream_index: i32, video_stream_idx: usize, audio_stream_idx: Option<usize>) -> (r: PacketRoute)
    ensures
        stream_index as usize == video_stream_idx ==> r == PacketRoute::Video,
        stream_index as usize != video_stream_idx && audio_stream_idx == Some(stream_index as usize)
            ==> r == PacketRoute::Audio,
        stream_index as usize != video_stream_idx && audio_stream_idx != Some(stream_index as usize)
            ==> r == PacketRoute::Skip,
{
    let index = stream_index as usize;
    if index == video_stream_idx {
        PacketRoute::Video
    } else {
        match audio_stream_idx {
            Some(a) => if a == index {
                PacketRoute::Audio
            } else {
                PacketRoute::Skip
            },
            None => PacketRoute::Skip,
        }
    }
}

/// The stream and flags of the seek back to the start: the audio stream, to a
/// frame at or before the start, when there is one; the video stream
/// otherwise.  Stream indices are passed as C `int`s.
pub fn rewind_target(video_stream_idx: usize, audio_stream_idx: Option<usize>) -> (r: (i32, i32))
    ensures
        audio_stream_idx matches Some(a) ==> r == (a as i32, AVSEEK_FLAG_BACKWARD | AVSEEK_FLAG_FRAME),
        audio_stream_idx is None ==> r == (video_stream_idx as i32, AVSEEK_FLAG_BACKWARD),
{
    match audio_stream_idx {
        Some(a) => (a as i32, AVSEEK_FLAG_BACKWARD | AVSEEK_FLAG_FRAME),
        None => (video_stream_idx as i32, AVSEEK_FLAG_BACKWARD),
    }
}

/// FFmpeg's `AV_CODEC_HW_CONFIG_METHOD_HW_DEVICE_CTX`.
pub const AV_CODEC_HW_CONFIG_METHOD_HW_DEVICE_CTX: i32 = 1;

/// One hardware configuration that a decoder offers (FFmpeg's `AVCodecHWConfig`).
#[derive(PartialEq, Eq, Structural, Debug, Clone, Copy)]
pub struct HwConfig {
    pub pix_fmt: i32,
    pub methods: i32,
    pub device_type: i32,
}

/// The configuration decodes through a device context of `device_type`.
pub open spec fn config_fits(config: HwConfig, device_type: i32) -> bool {
    (config.methods & AV_CODEC_HW_CONFIG_METHOD_HW_DEVICE_CTX) != 0 && config.device_type
        == device_type
}

/// The pixel format of the first offered configuration that decodes through a
/// device context of `device_type`; `None` where the decoder offers none.
pub fn hw_pix_fmt_for(configs: &Vec<HwConfig>, device_type: i32) -> (r: Option<i32>)
    ensures
        r is None <==> forall|i: int|
            0 <= i < configs@.len() ==> !config_fits(#[trigger] configs@[i], device_type),
        r matches Some(f) ==> exists|i: int|
            0 <= i < configs@.len() && config_fits(#[trigger] configs@[i], device_type)
                && configs@[i].pix_fmt == f && forall|j: int|
                0 <= j < i ==> !config_fits(#[trigger] configs@[j], device_type),
{
    let mut i: usize = 0;
    while i < configs.len()
        invariant
            i <= configs@.len(),
            forall|j: int| 0 <= j < i ==> !config_fits(#[trigger] configs@[j], device_type),
        decreases configs@.len() - i,
    {
        let c = configs[i];
        if (c.methods & AV_CODEC_HW_CONFIG_METHOD_HW_DEVICE_CTX) != 0 && c.device_type
            == device_type {
            assert(config_fits(configs@[i as int], device_type));
            return Some(c.pix_fmt);
        }
        i = i + 1;
    }
    None
}

/// The surface format asked of the decoder: `wanted` where the decoder offers
/// it among `offered`, none otherwise.
pub fn pick_surface_format(offered: &[i32], wanted: i32) -> (r: Option<i32>)
    ensures
        offered@.contains(wanted) ==> r == Some(wanted),
        !offered@.contains(wanted) ==> r is None,
{
    let mut i: usize = 0;
    while i < offered.len()
        invariant
            i <= offered@.len(),
            forall|j: int| 0 <= j < i ==> offered@[j] != wanted,
        decreases offered@.len() - i,
    {
        if offered[i] == wanted {
            assert(offered@.contains(wanted));
            return Some(wanted);
        }
        i = i + 1;
    }
    None
}

/// The decoded audio goes through the resampler when the output device
/// differs from it in channel count, sample rate or sample format; the counts
/// are compared in the device's types (`as u16`, `as i32`).
pub fn needs_resample(
    device_channels: u16,
    device_sample_rate: u32,
    device_sample_fmt: i32,
    channels: i32,
    sample_rate: i32,
    sample_fmt: i32,
) -> (r: bool)
    ensures
        r == (device_channels != channels as u16 || device_sample_rate as i32 != sample_rate
            || device_sample_fmt != sample_fmt),
{
    device_channels != channels as u16 || device_sample_rate as i32 != sample_rate
        || device_sample_fmt != sample_fmt
}

} // verus!
