//! Audio: chunking converted samples into device-sized packets, interleaving
//! planar samples, and the playback buffer of the output stream.
use vstd::prelude::*;
use crate::buffers::{
    bytes_copy_from_slice, bytes_mut_as_slice, bytes_mut_extend, bytes_mut_len, bytes_mut_new,
    bytes_mut_split_to, bytes_mut_view, bytes_len, bytes_view,
};

verus! {

/// Samples per channel in one device packet.
pub const AUDIO_SAMPLES: usize = 1024;

/// Longest delay, in milliseconds, that the playback buffer may hold.
pub const AUDIO_MAX_DELAY: usize = 50;

/// FFmpeg's `AVSampleFormat` codes.
pub const AV_SAMPLE_FMT_NONE: i32 = -1;
pub const AV_SAMPLE_FMT_U8: i32 = 0;
pub const AV_SAMPLE_FMT_S16: i32 = 1;
pub const AV_SAMPLE_FMT_S32: i32 = 2;
pub const AV_SAMPLE_FMT_FLT: i32 = 3;
pub const AV_SAMPLE_FMT_DBL: i32 = 4;
pub const AV_SAMPLE_FMT_U8P: i32 = 5;
pub const AV_SAMPLE_FMT_S16P: i32 = 6;
pub const AV_SAMPLE_FMT_S32P: i32 = 7;
pub const AV_SAMPLE_FMT_FLTP: i32 = 8;
pub const AV_SAMPLE_FMT_DBLP: i32 = 9;
pub const AV_SAMPLE_FMT_S64: i32 = 10;
pub const AV_SAMPLE_FMT_S64P: i32 = 11;
pub const AV_SAMPLE_FMT_NB: i32 = 12;

/// The formats that the planar-to-interleaved path treats as planar.
pub open spec fn spec_is_planar(fmt: i32) -> bool {
    fmt == AV_SAMPLE_FMT_U8P || fmt == AV_SAMPLE_FMT_S16P || fmt == AV_SAMPLE_FMT_S32P || fmt
        == AV_SAMPLE_FMT_FLTP || fmt == AV_SAMPLE_FMT_DBLP || fmt == AV_SAMPLE_FMT_S64P || fmt
        == AV_SAMPLE_FMT_NB
}

/// Whether samples of this format lie in one plane per channel.
pub fn is_planar_format(sample_fmt: i32) -> (r: bool)
    ensures
        r == spec_is_planar(sample_fmt),
{
    match sample_fmt {
        AV_SAMPLE_FMT_U8P | AV_SAMPLE_FMT_S16P | AV_SAMPLE_FMT_S32P | AV_SAMPLE_FMT_FLTP
        | AV_SAMPLE_FMT_DBLP | AV_SAMPLE_FMT_S64P | AV_SAMPLE_FMT_NB => true,
        _ => false,
    }
}

/// FFmpeg numbers its sample formats in pairs: the packed formats U8, S16,
/// S32, FLT and DBL are codes 0 to 4, their planar forms are the same codes
/// plus 5, and S64 and S64P are 10 and 11.  A packed format is never taken as
/// planar, and its planar form always is.
pub proof fn lemma_planar_forms(f: i32)
    requires
        0 <= f <= 4,
    ensures
        !spec_is_planar(f),
        spec_is_planar((f + 5) as i32),
        !spec_is_planar(AV_SAMPLE_FMT_S64),
        spec_is_planar(AV_SAMPLE_FMT_S64P),
{
}

/// Sample formats of an output device.
#[derive(Clone, Copy, PartialEq, Eq, Structural, Debug)]
pub enum SampleFormat {
    I8,
    I16,
    I32,
    I64,
    U8,
    U16,
    U32,
    U64,
    F32,
    F64,
}

/// The FFmpeg code of a device sample format, where FFmpeg has one for it.
pub open spec fn spec_ffmpeg_format(fmt: SampleFormat) -> Option<i32> {
    match fmt {
        SampleFormat::U8 => Some(AV_SAMPLE_FMT_U8),
        SampleFormat::I16 => Some(AV_SAMPLE_FMT_S16),
        SampleFormat::I32 => Some(AV_SAMPLE_FMT_S32),
        SampleFormat::F32 => Some(AV_SAMPLE_FMT_FLT),
        SampleFormat::F64 => Some(AV_SAMPLE_FMT_DBL),
        _ => None,
    }
}

/// A device format that FFmpeg cannot produce.
#[derive(Clone, Copy, PartialEq, Eq, Structural, Debug)]
pub struct UnsupportedFormat(pub SampleFormat);

/// Maps a device sample format to FFmpeg's code for it.
pub fn cpal_splfmt_to_ffmpeg_splfmt(fmt: SampleFormat) -> (r: Result<i32, UnsupportedFormat>)
    ensures
        spec_ffmpeg_format(fmt) matches Some(code) ==> r == Ok::<i32, UnsupportedFormat>(code),
        spec_ffmpeg_format(fmt) is None ==> r == Err::<i32, UnsupportedFormat>(
            UnsupportedFormat(fmt),
        ),
{
    match fmt {
        SampleFormat::U8 => Ok(AV_SAMPLE_FMT_U8),
        SampleFormat::I16 => Ok(AV_SAMPLE_FMT_S16),
        SampleFormat::I32 => Ok(AV_SAMPLE_FMT_S32),
        SampleFormat::F32 => Ok(AV_SAMPLE_FMT_FLT),
        SampleFormat::F64 => Ok(AV_SAMPLE_FMT_DBL),
        _ => Err(UnsupportedFormat(fmt)),
    }
}

/// A packet of interleaved audio bytes with its presentation time and
/// duration in milliseconds.
pub struct AudioFrame {
    pub idx: usize,
    pub pts: i64,
    pub data: bytes::Bytes,
    pub dur: i64,
}

impl AudioFrame {
    /// A packet holding a copy of `data`.
    pub fn new(idx: usize, pts: i64, dur: i64, data: &[u8]) -> (r: Self)
        ensures
            r.idx == idx,
            r.pts == pts,
            r.dur == dur,
            bytes_view(r.data) == data@,
    {
        AudioFrame { idx, pts, dur, data: bytes_copy_from_slice(data) }
    }
}

/// What the output device plays.
#[derive(Clone, Copy, PartialEq, Eq, Structural, Debug)]
pub struct DeviceFormat {
    pub channels: u16,
    pub bytes_per_sample: usize,
    pub sample_rate: u32,
}

impl DeviceFormat {
    /// Neither divisor of the packet arithmetic is zero and a packet's byte
    /// count fits in `usize`.
    pub open spec fn valid(self) -> bool {
        &&& self.channels > 0
        &&& self.bytes_per_sample > 0
        &&& self.sample_rate > 0
        &&& self.packet_bytes() <= usize::MAX
    }

    /// Bytes in one device packet: `bytes_per_sample * channels * AUDIO_SAMPLES`.
    pub open spec fn packet_bytes(self) -> int {
        self.bytes_per_sample * self.channels * AUDIO_SAMPLES
    }

    /// Milliseconds that one packet lasts: `AUDIO_SAMPLES * 1000 / sample_rate`.
    pub open spec fn packet_duration(self) -> int {
        (AUDIO_SAMPLES * 1000) as int / (self.sample_rate as int)
    }
}

/// Cutting is blind to how the bytes arrive: taking `a` and then `b` into a
/// chunker that holds `cache` hands out, over both calls, the same packets in
/// the same order (packet `k` of the second call is packet `n1 + k` of one
/// call on `a + b`) and keeps the same rest as taking `a + b` at once.
pub proof fn lemma_chunking_ignores_splits(cache: Seq<u8>, a: Seq<u8>, b: Seq<u8>, size: int)
    requires
        size > 0,
    ensures
        ({
            let all1 = cache + a;
            let n1 = (all1.len() as int) / size;
            let all2 = all1.skip(n1 * size) + b;
            let n2 = (all2.len() as int) / size;
            let all = cache + a + b;
            let n = (all.len() as int) / size;
            &&& n == n1 + n2
            &&& forall|k: int|
                0 <= k < n1 ==> #[trigger] all1.subrange(k * size, (k + 1) * size) == all.subrange(
                    k * size,
                    (k + 1) * size,
                )
            &&& forall|k: int|
                0 <= k < n2 ==> #[trigger] all2.subrange(k * size, (k + 1) * size) == all.subrange(
                    (n1 + k) * size,
                    (n1 + k + 1) * size,
                )
            &&& all2.skip(n2 * size) == all.skip(n * size)
        }),
{
    let all1 = cache + a;
    let n1 = (all1.len() as int) / size;
    let all2 = all1.skip(n1 * size) + b;
    let n2 = (all2.len() as int) / size;
    let all = cache + a + b;
    let n = (all.len() as int) / size;
    let l1 = all1.len() as int;
    let lb = b.len() as int;
    assert(0 <= n1 * size <= l1 < n1 * size + size) by (nonlinear_arith)
        requires n1 == l1 / size, size > 0, l1 >= 0;
    assert(all2 =~= all.skip(n1 * size));
    assert(all2.len() == l1 - n1 * size + lb);
    assert(n == n1 + n2) by (nonlinear_arith)
        requires
            n == (l1 + lb) / size,
            n2 == (l1 - n1 * size + lb) / size,
            size > 0,
            lb >= 0,
            0 <= l1 - n1 * size;
    assert forall|k: int| 0 <= k < n1 implies #[trigger] all1.subrange(k * size, (k + 1) * size)
        == all.subrange(k * size, (k + 1) * size) by {
        assert((k + 1) * size <= n1 * size) by (nonlinear_arith)
            requires k < n1, size > 0;
        assert(0 <= k * size) by (nonlinear_arith)
            requires k >= 0, size > 0;
        assert((k + 1) * size <= l1);
        assert((k + 1) * size == k * size + size) by (nonlinear_arith);
        assert(all.len() == l1 + lb);
        assert forall|i: int| 0 <= i < size implies #[trigger] all1.subrange(k * size, (k + 1) * size)[i]
            == all.subrange(k * size, (k + 1) * size)[i] by {
            assert(all[k * size + i] == all1[k * size + i]);
        }
        assert(all1.subrange(k * size, (k + 1) * size) =~= all.subrange(k * size, (k + 1) * size));
    }
    assert forall|k: int| 0 <= k < n2 implies #[trigger] all2.subrange(k * size, (k + 1) * size)
        == all.subrange((n1 + k) * size, (n1 + k + 1) * size) by {
        assert((k + 1) * size <= n2 * size) by (nonlinear_arith)
            requires k < n2, size > 0;
        assert(n2 * size <= all2.len()) by (nonlinear_arith)
            requires n2 == (all2.len() as int) / size, size > 0, all2.len() >= 0;
        assert(0 <= k * size) by (nonlinear_arith)
            requires k >= 0, size > 0;
        assert((n1 + k) * size == n1 * size + k * size) by (nonlinear_arith);
        assert((n1 + k + 1) * size == n1 * size + (k + 1) * size) by (nonlinear_arith);
        assert(all.len() == l1 + lb);
        assert((k + 1) * size == k * size + size) by (nonlinear_arith);
        assert(n1 * size + (k + 1) * size <= all.len());
        assert forall|i: int| 0 <= i < size implies #[trigger] all2.subrange(k * size, (k + 1) * size)[i]
            == all.subrange((n1 + k) * size, (n1 + k + 1) * size)[i] by {
            assert(all2[k * size + i] == all[n1 * size + k * size + i]);
        }
        assert(all2.subrange(k * size, (k + 1) * size) =~= all.subrange(
            (n1 + k) * size,
            (n1 + k + 1) * size,
        ));
    }
    assert(n * size == n1 * size + n2 * size) by (nonlinear_arith)
        requires n == n1 + n2;
    assert(n2 * size <= all2.len()) by (nonlinear_arith)
        requires n2 == (all2.len() as int) / size, size > 0, all2.len() >= 0;
    assert(all2.skip(n2 * size) =~= all.skip(n * size));
}

/// The bytes of a run of packets, one after another.
pub open spec fn packets_bytes(frames: Seq<AudioFrame>) -> Seq<u8>
    decreases frames.len(),
{
    if frames.len() == 0 {
        Seq::empty()
    } else {
        packets_bytes(frames.drop_last()) + bytes_view(frames.last().data)
    }
}

/// Converted audio waiting to fill device packets, and the presentation time
/// of the next packet.
pub struct AudioChunker {
    pub cache: bytes::BytesMut,
    pub pts: Option<i64>,
}

/// The bytes that one call of [`AudioChunker::push`] has to cut into packets.
pub open spec fn pending_bytes(cache: Seq<u8>, samples: Seq<u8>, tail: Option<&[u8]>) -> Seq<u8> {
    match tail {
        Some(t) => cache + samples + t@,
        None => cache + samples,
    }
}

/// [`AudioChunker::push`] may be asked to take these bytes: the format is
/// valid, the pending bytes fit in `isize`, and the time of the packet after
/// the last one cut stays in the 64-bit range.
pub open spec fn push_fits(
    cache: Seq<u8>,
    pts: Option<i64>,
    frame_pts: i64,
    samples: Seq<u8>,
    tail: Option<&[u8]>,
    format: DeviceFormat,
) -> bool {
    let p0 = match pts { Some(p) => p as int, None => frame_pts as int };
    let n = (pending_bytes(cache, samples, tail).len() as int) / format.packet_bytes();
    &&& format.valid()
    &&& pending_bytes(cache, samples, tail).len() <= isize::MAX
    &&& p0 + n * format.packet_duration() <= i64::MAX
}

impl AudioChunker {
    /// An empty chunker with no running time.
    pub fn new() -> (r: Self)
        ensures
            bytes_mut_view(r.cache) == Seq::<u8>::empty(),
            r.pts is None,
    {
        AudioChunker { cache: bytes_mut_new(), pts: None }
    }

    /// Whether [`AudioChunker::push`] may be given these bytes.
    pub fn can_push(&self, frame_pts: i64, samples: &[u8], tail: Option<&[u8]>, format: DeviceFormat) -> (r:
        bool)
        ensures
            r == push_fits(bytes_mut_view(self.cache), self.pts, frame_pts, samples@, tail, format),
    {
        if !format.is_valid() {
            return false;
        }
        let cached = bytes_mut_len(&self.cache);
        let tail_len: usize = match tail {
            Some(t) => t.len(),
            None => 0,
        };
        let total: u128 = (cached as u128) + (samples.len() as u128) + (tail_len as u128);
        proof {
            assert(pending_bytes(bytes_mut_view(self.cache), samples@, tail).len() == total);
        }
        if total > (isize::MAX as u128) {
            return false;
        }
        proof {
            lemma_packet_fits_u128(format.bytes_per_sample, format.channels);
            assert(format.bytes_per_sample * format.channels * AUDIO_SAMPLES > 0) by (nonlinear_arith)
                requires format.bytes_per_sample > 0, format.channels > 0;
        }
        let size: u128 = (format.bytes_per_sample as u128) * (format.channels as u128) * (
        AUDIO_SAMPLES as u128);
        let dur: u128 = (1024000u128) / (format.sample_rate as u128);
        let n: u128 = total / size;
        let p0: i64 = match self.pts {
            Some(p) => p,
            None => frame_pts,
        };
        proof {
            assert(size == format.packet_bytes());
            assert(dur == format.packet_duration());
            assert(n <= total);
            assert(dur <= 1024000);
            assert(n * dur <= 0x7fff_ffff_ffff_ffff * 1024000) by (nonlinear_arith)
                requires n <= 0x7fff_ffff_ffff_ffff, dur <= 1024000;
        }
        let advance: u128 = n * dur;
        let limit: i128 = (i64::MAX as i128) - (p0 as i128);
        (advance as i128) <= limit
    }

    /// Appends one decoded frame's converted samples (and, at the end of the
    /// stream, the resampler's remaining `tail`) and cuts every whole device
    /// packet off the front.  The running time starts at `frame_pts` when none
    /// is kept, advances by one packet duration per packet, and is dropped at
    /// the end of the stream.
    pub fn push(
        &mut self,
        idx: usize,
        frame_pts: i64,
        samples: &[u8],
        tail: Option<&[u8]>,
        format: DeviceFormat,
    ) -> (r: Vec<AudioFrame>)
        requires
            push_fits(bytes_mut_view(old(self).cache), old(self).pts, frame_pts, samples@, tail, format),
        ensures
            ({
                let p0 = match old(self).pts { Some(p) => p as int, None => frame_pts as int };
                let all = pending_bytes(bytes_mut_view(old(self).cache), samples@, tail);
                let size = format.packet_bytes();
                let dur = format.packet_duration();
                let n = (all.len() as int) / size;
                &&& r@.len() == n
                &&& forall|k: int|
                    0 <= k < n ==> {
                        &&& (#[trigger] r@[k]).idx == idx
                        &&& r@[k].pts == p0 + k * dur
                        &&& r@[k].dur == dur
                        &&& bytes_view(r@[k].data) == all.subrange(k * size, (k + 1) * size)
                    }
                &&& bytes_mut_view(final(self).cache) == all.skip(n * size)
                &&& bytes_mut_view(final(self).cache).len() < size
                &&& packets_bytes(r@) + bytes_mut_view(final(self).cache) == all
                &&& final(self).pts == if tail is Some {
                    None::<i64>
                } else {
                    Some((p0 + n * dur) as i64)
                }
            }),
    {
        let ghost p0 = match self.pts { Some(p) => p as int, None => frame_pts as int };
        let ghost all = pending_bytes(bytes_mut_view(self.cache), samples@, tail);
        if self.pts.is_none() {
            self.pts = Some(frame_pts);
        }
        bytes_mut_extend(&mut self.cache, samples);
        match tail {
            Some(t) => {
                bytes_mut_extend(&mut self.cache, t);
            },
            None => {},
        }
        assert(bytes_mut_view(self.cache) =~= all);
        let size: usize = format.bytes_per_sample * (format.channels as usize) * AUDIO_SAMPLES;
        let ghost sz = size as int;
        let ghost n = (all.len() as int) / sz;
        let ghost dur = format.packet_duration();
        proof {
            assert(sz > 0) by (nonlinear_arith)
                requires sz == format.bytes_per_sample * format.channels * AUDIO_SAMPLES,
                    format.bytes_per_sample > 0, format.channels > 0;
        }
        let mut pts: i64 = match self.pts { Some(p) => p, None => frame_pts };
        let mut frames: Vec<AudioFrame> = Vec::new();
        let mut k: usize = 0;
        while bytes_mut_len(&self.cache) >= size
            invariant
                format.valid(),
                sz == size,
                sz == format.packet_bytes(),
                sz > 0,
                n == (all.len() as int) / sz,
                dur == format.packet_duration(),
                p0 + n * dur <= i64::MAX,
                p0 >= i64::MIN,
                all.len() <= isize::MAX,
                k * sz <= all.len(),
                frames@.len() == k,
                pts == p0 + k * dur,
                bytes_mut_view(self.cache) == all.skip(k * sz),
                packets_bytes(frames@) == all.take(k * sz),
                forall|j: int|
                    0 <= j < k ==> {
                        &&& (#[trigger] frames@[j]).idx == idx
                        &&& frames@[j].pts == p0 + j * dur
                        &&& frames@[j].dur == dur
                        &&& bytes_view(frames@[j].data) == all.subrange(j * sz, (j + 1) * sz)
                    },
            decreases all.len() - k * sz,
        {
            proof {
                assert((k + 1) * sz == k * sz + sz) by (nonlinear_arith);
                assert(all.skip(k * sz).len() == all.len() - k * sz);
            }
            let packet = bytes_mut_split_to(&mut self.cache, size);
            let data_samples: usize = size / (format.channels as usize) / format.bytes_per_sample;
            proof {
                assert(data_samples == AUDIO_SAMPLES) by (nonlinear_arith)
                    requires
                        data_samples == (size as int) / (format.channels as int) / (
                        format.bytes_per_sample as int),
                        size == format.bytes_per_sample * format.channels * AUDIO_SAMPLES,
                        format.bytes_per_sample > 0,
                        format.channels > 0;
                assert((k + 1) * sz <= all.len());
                assert(k + 1 <= n) by (nonlinear_arith)
                    requires (k + 1) * sz <= all.len(), n == (all.len() as int) / sz, sz > 0;
                assert(dur >= 0);
                assert((k + 1) * dur <= n * dur) by (nonlinear_arith)
                    requires k + 1 <= n, dur >= 0;
                assert(all.skip(k * sz).take(sz) =~= all.subrange(k * sz, (k + 1) * sz));
                assert(all.skip(k * sz).skip(sz) =~= all.skip((k + 1) * sz));
            }
            let data_duration: i64 = ((data_samples as u64) * 1000 / (format.sample_rate as u64)) as i64;
            proof {
                assert(data_duration == dur);
                assert(k + 1 <= (k + 1) * sz) by (nonlinear_arith)
                    requires sz >= 1, k >= 0;
                assert((k + 1) * dur == k * dur + dur) by (nonlinear_arith);
                assert(k * dur >= 0) by (nonlinear_arith)
                    requires k >= 0, dur >= 0;
            }
            let slice = bytes_mut_as_slice(&packet);
            let ghost before = frames@;
            frames.push(AudioFrame::new(idx, pts, data_duration, slice));
            proof {
                assert(frames@.drop_last() =~= before);
                assert(all.take(k * sz) + all.subrange(k * sz, (k + 1) * sz) =~= all.take(
                    (k + 1) * sz,
                ));
            }
            pts = pts + data_duration;
            k = k + 1;
            proof {
                assert((k as int) * sz == (k - 1) * sz + sz) by (nonlinear_arith);
                assert((k as int) * dur == (k - 1) * dur + dur) by (nonlinear_arith);
            }
        }
        proof {
            assert(k == n) by (nonlinear_arith)
                requires k * sz <= all.len(), all.len() - k * sz < sz, n == (all.len() as int) / sz, sz > 0;
            assert(all.take(k * sz) + all.skip(k * sz) =~= all);
        }
        if tail.is_some() {
            self.pts = None;
        } else {
            self.pts = Some(pts);
        }
        frames
    }
}

/// Where the planar path reads byte `k` of sample `s` of channel `c`: plane `c`,
/// at `s * bytes_per_sample + k` (each plane holds one channel's samples).
pub open spec fn planar_src(bytes_per_sample: int, s: int, k: int) -> int {
    s * bytes_per_sample + k
}

/// Where the interleaved output holds byte `k` of sample `s` of channel `c`.
pub open spec fn interleaved_dst(channels: int, bytes_per_sample: int, s: int, c: int, k: int) -> int {
    (s * channels + c) * bytes_per_sample + k
}

proof fn lemma_dst_below(ch: int, bps: int, s: int, c: int, k: int, s2: int, c2: int, k2: int)
    requires
        0 <= s && 0 <= c < ch && 0 <= k < bps,
        0 <= s2 && 0 <= c2 < ch && 0 <= k2 < bps,
        s < s2 || (s == s2 && c < c2) || (s == s2 && c == c2 && k < k2),
    ensures
        interleaved_dst(ch, bps, s, c, k) < interleaved_dst(ch, bps, s2, c2, k2),
{
    if s < s2 {
        assert((s * ch + c) * bps + k < (s2 * ch) * bps) by (nonlinear_arith)
            requires 0 <= c < ch, 0 <= k < bps, 0 <= s < s2;
        assert((s2 * ch) * bps <= (s2 * ch + c2) * bps + k2) by (nonlinear_arith)
            requires 0 <= c2, 0 <= k2, 0 <= s2, ch >= 0, bps >= 0;
    } else if c < c2 {
        assert((s * ch + c) * bps + k < (s * ch + c2) * bps) by (nonlinear_arith)
            requires 0 <= k < bps, c < c2;
    }
}

/// Rearranges planar samples into interleaved order: byte `k` of sample `s`
/// of channel `c` moves to `(s * channels + c) * bytes_per_sample + k`, read
/// from plane `c` at `s * bytes_per_sample + k`.
pub fn interleave_planar(planes: &Vec<Vec<u8>>, nb_samples: usize, bytes_per_sample: usize) -> (out:
    Vec<u8>)
    requires
        nb_samples * planes@.len() * bytes_per_sample <= usize::MAX,
        forall|c: int|
            0 <= c < planes@.len() ==> nb_samples * bytes_per_sample <= (#[trigger] planes@[c])@.len(),
    ensures
        out@.len() == nb_samples * planes@.len() * bytes_per_sample,
        forall|s: int, c: int, k: int|
            0 <= s < nb_samples && 0 <= c < planes@.len() && 0 <= k < bytes_per_sample
                ==> #[trigger] out@[interleaved_dst(planes@.len() as int, bytes_per_sample as int, s, c, k)]
                == planes@[c]@[planar_src(bytes_per_sample as int, s, k)],
{
    let channels = planes.len();
    let ghost ch = channels as int;
    let ghost nb = nb_samples as int;
    let ghost bps = bytes_per_sample as int;
    let mut out: Vec<u8> = Vec::new();
    let mut s: usize = 0;
    while s < nb_samples
        invariant
            channels == planes@.len(),
            ch == channels,
            nb == nb_samples,
            bps == bytes_per_sample,
            nb * ch * bps <= usize::MAX,
            forall|c: int|
                0 <= c < ch ==> nb * bps <= (#[trigger] planes@[c])@.len(),
            s <= nb,
            out@.len() == s * ch * bps,
            forall|s2: int, c: int, k: int|
                0 <= s2 < s && 0 <= c < ch && 0 <= k < bps ==> #[trigger] out@[interleaved_dst(
                    ch,
                    bps,
                    s2,
                    c,
                    k,
                )] == planes@[c]@[planar_src(bps, s2, k)],
        decreases nb - s,
    {
        let mut c: usize = 0;
        while c < channels
            invariant
                channels == planes@.len(),
                ch == channels,
                nb == nb_samples,
                bps == bytes_per_sample,
                nb * ch * bps <= usize::MAX,
                forall|c: int|
                    0 <= c < ch ==> nb * bps <= (#[trigger] planes@[c])@.len(),
                s < nb,
                c <= ch,
                out@.len() == (s * ch + c) * bps,
                forall|s2: int, c2: int, k: int|
                    ((0 <= s2 < s && 0 <= c2 < ch) || (s2 == s && 0 <= c2 < c)) && 0 <= k < bps
                        ==> #[trigger] out@[interleaved_dst(ch, bps, s2, c2, k)]
                        == planes@[c2]@[planar_src(bps, s2, k)],
            decreases ch - c,
        {
            let mut k: usize = 0;
            while k < bytes_per_sample
                invariant
                    channels == planes@.len(),
                    ch == channels,
                    nb == nb_samples,
                    bps == bytes_per_sample,
                    nb * ch * bps <= usize::MAX,
                    forall|c: int|
                        0 <= c < ch ==> nb * bps <= (#[trigger] planes@[c])@.len(),
                    s < nb,
                    c < ch,
                    k <= bps,
                    out@.len() == (s * ch + c) * bps + k,
                    forall|s2: int, c2: int, k2: int|
                        (((0 <= s2 < s && 0 <= c2 < ch) || (s2 == s && 0 <= c2 < c)) && 0 <= k2
                            < bps) || (s2 == s && c2 == c && 0 <= k2 < k)
                            ==> #[trigger] out@[interleaved_dst(ch, bps, s2, c2, k2)]
                            == planes@[c2]@[planar_src(bps, s2, k2)],
                decreases bps - k,
            {
                proof {
                    assert(planar_src(bps, s as int, k as int) < nb * bps)
                        by (nonlinear_arith)
                        requires 0 <= s < nb, 0 <= k < bps, 0 <= c;
                    assert(nb * bps <= nb * ch * bps) by (nonlinear_arith)
                        requires nb >= 0, bps >= 0, ch >= 1;
                    assert(0 <= s * bps) by (nonlinear_arith)
                        requires s >= 0, bps >= 0;
                    assert(out@.len() + 1 <= nb * ch * bps) by (nonlinear_arith)
                        requires out@.len() == (s * ch + c) * bps + k, s < nb, c < ch, k < bps,
                            s >= 0, c >= 0, k >= 0;
                }
                let plane = &planes[c];
                let plane_len = plane.len();
                proof {
                    assert(nb * bps <= planes@[c as int]@.len());
                    assert(plane_len == planes@[c as int]@.len());
                }
                let src = s * bytes_per_sample + k;
                let byte = plane[src];
                let ghost before = out@;
                out.push(byte);
                proof {
                    assert forall|s2: int, c2: int, k2: int|
                        (((0 <= s2 < s && 0 <= c2 < ch) || (s2 == s && 0 <= c2 < c)) && 0 <= k2
                            < bps) || (s2 == s && c2 == c && 0 <= k2 <= k)
                            implies #[trigger] out@[interleaved_dst(ch, bps, s2, c2, k2)]
                            == planes@[c2]@[planar_src(bps, s2, k2)] by {
                        if s2 == s && c2 == c && k2 == k {
                        } else {
                            lemma_dst_below(ch, bps, s2, c2, k2, s as int, c as int, k as int);
                        }
                    }
                }
                k = k + 1;
            }
            proof {
                assert((s * ch + c) * bps + bps == (s * ch + c + 1) * bps) by (nonlinear_arith);
            }
            c = c + 1;
        }
        proof {
            assert((s * ch + ch) * bps == (s + 1) * ch * bps) by (nonlinear_arith);
        }
        s = s + 1;
    }
    out
}

/// Bytes that the playback buffer may hold before it drops its oldest part:
/// `AUDIO_MAX_DELAY * sample_rate * bytes_per_sample * channels / 1000`.
pub fn playback_threshold(sample_rate: u32, bytes_per_sample: usize, channels: u16) -> (r: usize)
    requires
        AUDIO_MAX_DELAY * sample_rate * bytes_per_sample * channels <= usize::MAX,
    ensures
        r == AUDIO_MAX_DELAY * sample_rate * bytes_per_sample * channels / 1000,
{
    proof {
        let a = AUDIO_MAX_DELAY * sample_rate;
        let b = a * bytes_per_sample;
        assert(a <= b || bytes_per_sample == 0) by (nonlinear_arith)
            requires a >= 0, b == a * bytes_per_sample, bytes_per_sample >= 0;
        assert(b <= b * channels || channels == 0) by (nonlinear_arith)
            requires b >= 0, channels >= 0;
        if bytes_per_sample == 0 || channels == 0 {
            assert(AUDIO_MAX_DELAY * sample_rate * bytes_per_sample * channels == 0) by (
            nonlinear_arith)
                requires bytes_per_sample == 0 || channels == 0;
        }
    }
    if bytes_per_sample == 0 || channels == 0 {
        return 0;
    }
    AUDIO_MAX_DELAY * (sample_rate as usize) * bytes_per_sample * (channels as usize) / 1000
}

/// What the playback buffer keeps after taking in `incoming`: everything, or,
/// once it holds more than `threshold` samples, what follows its first
/// `threshold` samples.
pub open spec fn kept_samples<T>(cache: Seq<T>, incoming: Option<Vec<T>>, threshold: int) -> Seq<T> {
    let grown = match incoming {
        Some(v) => cache + v@,
        None => cache,
    };
    if grown.len() > threshold {
        grown.skip(threshold)
    } else {
        grown
    }
}

/// One callback of the output stream: takes in the newest received samples,
/// trims the buffer to the delay limit, hands out up to `output_len` samples
/// from its front and pads the rest of the output with `silence`.
pub fn fill_playback<T: Copy>(
    cache: &mut Vec<T>,
    incoming: Option<Vec<T>>,
    threshold: usize,
    output_len: usize,
    silence: T,
) -> (out: Vec<T>)
    requires
        match incoming {
            Some(v) => old(cache)@.len() + v@.len() <= usize::MAX,
            None => true,
        },
    ensures
        ({
            let kept = kept_samples(old(cache)@, incoming, threshold as int);
            let actual = if output_len < kept.len() { output_len as int } else { kept.len() as int };
            &&& out@.len() == output_len
            &&& forall|i: int| 0 <= i < actual ==> out@[i] == kept[i]
            &&& forall|i: int| actual <= i < output_len ==> out@[i] == silence
            &&& final(cache)@ == kept.skip(actual)
        }),
{
    let ghost kept = kept_samples(cache@, incoming, threshold as int);
    match incoming {
        Some(mut data) => {
            cache.append(&mut data);
        },
        None => {},
    }
    if cache.len() > threshold {
        let tail = cache.split_off(threshold);
        *cache = tail;
    }
    assert(cache@ =~= kept);
    let actual_len = if output_len < cache.len() { output_len } else { cache.len() };
    let rest = cache.split_off(actual_len);
    let mut out: Vec<T> = Vec::new();
    let mut i: usize = 0;
    while i < output_len
        invariant
            cache@ == kept.subrange(0, actual_len as int),
            actual_len <= output_len,
            actual_len <= kept.len(),
            i <= output_len,
            out@.len() == i,
            forall|j: int| 0 <= j < i && j < actual_len ==> out@[j] == kept[j],
            forall|j: int| actual_len <= j < i ==> out@[j] == silence,
        decreases output_len - i,
    {
        if i >= actual_len {
            out.push(silence);
        } else {
            out.push(cache[i]);
        }
        i = i + 1;
    }
    *cache = rest;
    assert(cache@ =~= kept.skip(actual_len as int));
    out
}


/// Bytes of one sample of an FFmpeg sample format (FFmpeg's
/// `av_get_bytes_per_sample`); `None` for a code that names no format.
pub open spec fn spec_bytes_per_sample(fmt: i32) -> Option<usize> {
    if fmt == AV_SAMPLE_FMT_U8 || fmt == AV_SAMPLE_FMT_U8P {
        Some(1)
    } else if fmt == AV_SAMPLE_FMT_S16 || fmt == AV_SAMPLE_FMT_S16P {
        Some(2)
    } else if fmt == AV_SAMPLE_FMT_S32 || fmt == AV_SAMPLE_FMT_S32P || fmt == AV_SAMPLE_FMT_FLT
        || fmt == AV_SAMPLE_FMT_FLTP {
        Some(4)
    } else if fmt == AV_SAMPLE_FMT_DBL || fmt == AV_SAMPLE_FMT_DBLP || fmt == AV_SAMPLE_FMT_S64
        || fmt == AV_SAMPLE_FMT_S64P {
        Some(8)
    } else {
        None
    }
}

/// A packed sample format and its planar form have the same sample size
/// (codes `f` and `f + 5` for `f` in 0 to 4, and S64 with S64P), and every
/// FFmpeg sample format has a size.
pub proof fn lemma_planar_form_same_size(f: i32)
    requires
        0 <= f <= 4,
    ensures
        spec_bytes_per_sample(f) is Some,
        spec_bytes_per_sample(f) == spec_bytes_per_sample((f + 5) as i32),
        spec_bytes_per_sample(AV_SAMPLE_FMT_S64) is Some,
        spec_bytes_per_sample(AV_SAMPLE_FMT_S64) == spec_bytes_per_sample(AV_SAMPLE_FMT_S64P),
{
}

/// The sample size of a device format is the size of the device's sample
/// type: one byte for `u8`, two for `i16` and four for `i32`; 32-bit float
/// samples are as wide as 32-bit integer samples, and 64-bit float samples as
/// wide as 64-bit integer ones.
pub proof fn lemma_device_sample_sizes()
    ensures
        spec_ffmpeg_format(SampleFormat::U8) matches Some(c) && spec_bytes_per_sample(c) matches Some(
            b,
        ) && b == vstd::layout::size_of::<u8>(),
        spec_ffmpeg_format(SampleFormat::I16) matches Some(c) && spec_bytes_per_sample(c) matches Some(
            b,
        ) && b == vstd::layout::size_of::<i16>(),
        spec_ffmpeg_format(SampleFormat::I32) matches Some(c) && spec_bytes_per_sample(c) matches Some(
            b,
        ) && b == vstd::layout::size_of::<i32>(),
        spec_ffmpeg_format(SampleFormat::F32) matches Some(c) && spec_bytes_per_sample(c)
            == spec_bytes_per_sample(AV_SAMPLE_FMT_S32),
        spec_ffmpeg_format(SampleFormat::F64) matches Some(c) && spec_bytes_per_sample(c) matches Some(
            b,
        ) && b == vstd::layout::size_of::<i64>(),
{
    broadcast use vstd::layout::layout_of_primitives;

    assert(vstd::layout::size_of::<u8>() == 1);
    assert(vstd::layout::size_of::<i16>() == 2);
    assert(vstd::layout::size_of::<i32>() == 4);
    assert(vstd::layout::size_of::<i64>() == 8);
}

/// Bytes of one sample of `sample_fmt`, where the code names a format.
pub fn get_bytes_per_sample(sample_fmt: i32) -> (r: Option<usize>)
    ensures
        r == spec_bytes_per_sample(sample_fmt),
{
    match sample_fmt {
        AV_SAMPLE_FMT_U8 | AV_SAMPLE_FMT_U8P => Some(1),
        AV_SAMPLE_FMT_S16 | AV_SAMPLE_FMT_S16P => Some(2),
        AV_SAMPLE_FMT_S32 | AV_SAMPLE_FMT_S32P | AV_SAMPLE_FMT_FLT | AV_SAMPLE_FMT_FLTP => Some(4),
        AV_SAMPLE_FMT_DBL | AV_SAMPLE_FMT_DBLP | AV_SAMPLE_FMT_S64 | AV_SAMPLE_FMT_S64P => Some(8),
        _ => None,
    }
}

/// The channel layout that the resampler is given for a channel count.
#[derive(Clone, Copy, PartialEq, Eq, Structural, Debug)]
pub enum ChannelLayout {
    Mono,
    Stereo,
    /// 3.0: left, right, centre.
    Surround,
    /// 4.0: front left and right, back left and right.
    Quad,
    /// 5.0.
    FivePointZero,
    /// 5.1.
    FivePointOne,
    /// 6.1, the common choice for seven channels.
    SixPointOne,
    /// 7.1.
    SevenPointOne,
    /// FFmpeg's default order for this many channels.
    Default(i32),
}

/// The layout named for one to eight channels; FFmpeg's default order otherwise.
pub open spec fn spec_channel_layout(channels: i32) -> ChannelLayout {
    if channels == 1 {
        ChannelLayout::Mono
    } else if channels == 2 {
        ChannelLayout::Stereo
    } else if channels == 3 {
        ChannelLayout::Surround
    } else if channels == 4 {
        ChannelLayout::Quad
    } else if channels == 5 {
        ChannelLayout::FivePointZero
    } else if channels == 6 {
        ChannelLayout::FivePointOne
    } else if channels == 7 {
        ChannelLayout::SixPointOne
    } else if channels == 8 {
        ChannelLayout::SevenPointOne
    } else {
        ChannelLayout::Default(channels)
    }
}

/// The layout to resample into for a device with `channels` channels.
pub fn get_channel_layout_for_channels(channels: i32) -> (r: ChannelLayout)
    ensures
        r == spec_channel_layout(channels),
{
    match channels {
        1 => ChannelLayout::Mono,
        2 => ChannelLayout::Stereo,
        3 => ChannelLayout::Surround,
        4 => ChannelLayout::Quad,
        5 => ChannelLayout::FivePointZero,
        6 => ChannelLayout::FivePointOne,
        7 => ChannelLayout::SixPointOne,
        8 => ChannelLayout::SevenPointOne,
        _ => ChannelLayout::Default(channels),
    }
}

/// Why an output device's format cannot be packetised.
#[derive(Clone, Copy, PartialEq, Eq, Structural, Debug)]
pub enum DeviceFormatError {
    /// FFmpeg has no code for the device's sample format.
    Unsupported(SampleFormat),
    /// The device reports no channels or a zero sample rate.
    Empty,
    /// One packet's byte count does not fit in `usize`.
    TooLarge,
}

proof fn lemma_packet_fits_u128(bytes_per_sample: usize, channels: u16)
    ensures
        bytes_per_sample * channels <= u128::MAX,
        bytes_per_sample * channels * AUDIO_SAMPLES <= u128::MAX,
{
    assert(bytes_per_sample * channels <= 0x1_0000_0000_0000_0000 * 0x1_0000) by (nonlinear_arith)
        requires bytes_per_sample < 0x1_0000_0000_0000_0000, channels < 0x1_0000, bytes_per_sample >= 0,
            channels >= 0;
    assert(bytes_per_sample * channels * 1024 <= 0x1_0000_0000_0000_0000 * 0x1_0000 * 1024) by (
    nonlinear_arith)
        requires bytes_per_sample * channels <= 0x1_0000_0000_0000_0000 * 0x1_0000;
}

impl DeviceFormat {
    /// The packet format of a device with `channels` channels at `sample_rate`
    /// samples per second in `fmt`: the sample size is that of FFmpeg's code for
    /// `fmt`.  The format is checked for unsupported sample formats first, then
    /// for a device without channels or rate, then for packet size.
    pub fn for_device(channels: u16, sample_rate: u32, fmt: SampleFormat) -> (r: Result<
        DeviceFormat,
        DeviceFormatError,
    >)
        ensures
            spec_ffmpeg_format(fmt) is None ==> r == Err::<DeviceFormat, DeviceFormatError>(
                DeviceFormatError::Unsupported(fmt),
            ),
            spec_ffmpeg_format(fmt) matches Some(code) ==> {
                let f = DeviceFormat {
                    channels,
                    bytes_per_sample: spec_bytes_per_sample(code)->0,
                    sample_rate,
                };
                &&& spec_bytes_per_sample(code) is Some
                &&& (channels == 0 || sample_rate == 0) ==> r
                    == Err::<DeviceFormat, DeviceFormatError>(DeviceFormatError::Empty)
                &&& (channels > 0 && sample_rate > 0 && f.packet_bytes() > usize::MAX) ==> r
                    == Err::<DeviceFormat, DeviceFormatError>(DeviceFormatError::TooLarge)
                &&& (channels > 0 && sample_rate > 0 && f.packet_bytes() <= usize::MAX) ==> r
                    == Ok::<DeviceFormat, DeviceFormatError>(f)
            },
            r matches Ok(f) ==> f.valid(),
    {
        let code = match cpal_splfmt_to_ffmpeg_splfmt(fmt) {
            Ok(c) => c,
            Err(_) => {
                return Err(DeviceFormatError::Unsupported(fmt));
            },
        };
        let bytes_per_sample = match get_bytes_per_sample(code) {
            Some(b) => b,
            None => {
                return Err(DeviceFormatError::Unsupported(fmt));
            },
        };
        if channels == 0 || sample_rate == 0 {
            return Err(DeviceFormatError::Empty);
        }
        proof {
            lemma_packet_fits_u128(bytes_per_sample, channels);
        }
        let packet = (bytes_per_sample as u128) * (channels as u128) * (AUDIO_SAMPLES as u128);
        if packet > (usize::MAX as u128) {
            return Err(DeviceFormatError::TooLarge);
        }
        Ok(DeviceFormat { channels, bytes_per_sample, sample_rate })
    }

    /// Whether [`AudioChunker::push`] may be given this format.
    pub fn is_valid(&self) -> (r: bool)
        ensures
            r == self.valid(),
    {
        if self.channels == 0 || self.bytes_per_sample == 0 || self.sample_rate == 0 {
            return false;
        }
        proof {
            lemma_packet_fits_u128(self.bytes_per_sample, self.channels);
        }
        let packet = (self.bytes_per_sample as u128) * (self.channels as u128) * (
        AUDIO_SAMPLES as u128);
        packet <= (usize::MAX as u128)
    }
}

/// Samples handed to playback; an empty packet marks the end of the stream,
/// where the timeline restarts.
pub struct GluAudioData {
    pub data: bytes::Bytes,
    pub pts: i64,
}

impl GluAudioData {
    pub fn new(data: bytes::Bytes, pts: i64) -> (r: Self)
        ensures
            r.data == data,
            r.pts == pts,
    {
        GluAudioData { data, pts }
    }

    /// Whether this packet marks the end of the stream.
    pub fn is_end_of_stream(&self) -> (r: bool)
        ensures
            r == (bytes_view(self.data).len() == 0),
    {
        bytes_len(&self.data) == 0
    }
}

} // verus!
