//! The player's bookkeeping: stream information, the timeline parameters taken
//! from it, the queue of aligned frame sets waiting to be drawn, and the
//! checks and status codes of its C interface.
use vstd::prelude::*;
use crate::sync::{aligned_set, CudaFrame};

verus! {

/// A rational number as FFmpeg keeps it (`AVRational`).
#[derive(PartialEq, Eq, Structural, Debug, Clone, Copy)]
pub struct Rational {
    pub num: i32,
    pub den: i32,
}

/// What a decoder reports of its stream.
#[derive(PartialEq, Eq, Structural, Debug, Clone, Copy)]
pub struct GluResourceStatInfo {
    pub width: usize,
    pub height: usize,
    pub framerate: Option<Rational>,
    pub pix_fmt: Option<i32>,
    pub video_duration: Option<i64>,
    pub audio_duration: Option<i64>,
    pub frames: Option<usize>,
    pub samplerate: Option<i32>,
    pub channels: Option<i32>,
    pub sample_fmt: Option<i32>,
}

impl GluResourceStatInfo {
    pub fn new(
        width: usize,
        height: usize,
        framerate: Option<Rational>,
        pix_fmt: Option<i32>,
        video_duration: Option<i64>,
        audio_duration: Option<i64>,
        frames: Option<usize>,
        samplerate: Option<i32>,
        channels: Option<i32>,
        sample_fmt: Option<i32>,
    ) -> (r: Self)
        ensures
            r == (GluResourceStatInfo {
                width,
                height,
                framerate,
                pix_fmt,
                video_duration,
                audio_duration,
                frames,
                samplerate,
                channels,
                sample_fmt,
            }),
    {
        GluResourceStatInfo {
            width,
            height,
            framerate,
            pix_fmt,
            video_duration,
            audio_duration,
            frames,
            samplerate,
            channels,
            sample_fmt,
        }
    }
}

/// The timeline's parameters, each taken from the first stream that reports it.
#[derive(PartialEq, Eq, Structural, Debug, Clone, Copy)]
pub struct TimelineParams {
    pub total_frames: usize,
    pub framerate: Rational,
    pub samplerate: Option<i32>,
}

/// A parameter that no stream reports.
#[derive(PartialEq, Eq, Structural, Debug, Clone, Copy)]
pub enum TimelineError {
    NoFramerate,
    NoFrameCount,
}

/// `x` is the first `Some` of `s` at index `i`.
pub open spec fn first_some_at<T>(s: Seq<Option<T>>, i: int, x: T) -> bool {
    &&& 0 <= i < s.len()
    &&& s[i] == Some(x)
    &&& forall|j: int| 0 <= j < i ==> (#[trigger] s[j]) is None
}

/// The first value that `s` holds, if any.
pub open spec fn first_some<T>(s: Seq<Option<T>>) -> Option<T> {
    if exists|i: int, x: T| first_some_at(s, i, x) {
        let (i, x) = choose|i: int, x: T| first_some_at(s, i, x);
        Some(x)
    } else {
        None
    }
}

proof fn lemma_first_some_unique<T>(s: Seq<Option<T>>, i: int, x: T)
    requires
        first_some_at(s, i, x),
    ensures
        first_some(s) == Some(x),
{
    let (i2, x2) = choose|i2: int, x2: T| first_some_at(s, i2, x2);
    if i2 < i {
        assert(s[i2] is None);
    } else if i < i2 {
        assert(s[i] is None);
    }
}

proof fn lemma_first_none<T>(s: Seq<Option<T>>)
    requires
        forall|j: int| 0 <= j < s.len() ==> (#[trigger] s[j]) is None,
    ensures
        first_some(s) is None,
{
    if exists|i: int, x: T| first_some_at(s, i, x) {
        let (i, x) = choose|i: int, x: T| first_some_at(s, i, x);
        assert(s[i] is None);
    }
}

/// The reported frame counts, in stream order.
pub open spec fn frame_counts(infos: Seq<GluResourceStatInfo>) -> Seq<Option<usize>> {
    Seq::new(infos.len(), |i: int| infos[i].frames)
}

/// The reported frame rates, in stream order.
pub open spec fn framerates(infos: Seq<GluResourceStatInfo>) -> Seq<Option<Rational>> {
    Seq::new(infos.len(), |i: int| infos[i].framerate)
}

/// The reported sample rates, in stream order.
pub open spec fn samplerates(infos: Seq<GluResourceStatInfo>) -> Seq<Option<i32>> {
    Seq::new(infos.len(), |i: int| infos[i].samplerate)
}

/// First `Some` of one field over the streams, with its proof obligations.
fn first_frames(infos: &Vec<GluResourceStatInfo>) -> (r: Option<usize>)
    ensures
        r == first_some(frame_counts(infos@)),
{
    let ghost s = frame_counts(infos@);
    let mut i: usize = 0;
    while i < infos.len()
        invariant
            s == frame_counts(infos@),
            i <= infos@.len(),
            forall|j: int| 0 <= j < i ==> (#[trigger] s[j]) is None,
        decreases infos@.len() - i,
    {
        if let Some(x) = infos[i].frames {
            proof {
                lemma_first_some_unique(s, i as int, x);
            }
            return Some(x);
        }
        i = i + 1;
    }
    proof {
        lemma_first_none(s);
    }
    None
}

fn first_framerate(infos: &Vec<GluResourceStatInfo>) -> (r: Option<Rational>)
    ensures
        r == first_some(framerates(infos@)),
{
    let ghost s = framerates(infos@);
    let mut i: usize = 0;
    while i < infos.len()
        invariant
            s == framerates(infos@),
            i <= infos@.len(),
            forall|j: int| 0 <= j < i ==> (#[trigger] s[j]) is None,
        decreases infos@.len() - i,
    {
        if let Some(x) = infos[i].framerate {
            proof {
                lemma_first_some_unique(s, i as int, x);
            }
            return Some(x);
        }
        i = i + 1;
    }
    proof {
        lemma_first_none(s);
    }
    None
}

fn first_samplerate(infos: &Vec<GluResourceStatInfo>) -> (r: Option<i32>)
    ensures
        r == first_some(samplerates(infos@)),
{
    let ghost s = samplerates(infos@);
    let mut i: usize = 0;
    while i < infos.len()
        invariant
            s == samplerates(infos@),
            i <= infos@.len(),
            forall|j: int| 0 <= j < i ==> (#[trigger] s[j]) is None,
        decreases infos@.len() - i,
    {
        if let Some(x) = infos[i].samplerate {
            proof {
                lemma_first_some_unique(s, i as int, x);
            }
            return Some(x);
        }
        i = i + 1;
    }
    proof {
        lemma_first_none(s);
    }
    None
}

/// The timeline's frame count, frame rate and sample rate, each from the
/// first stream that reports it; a missing frame rate is reported before a
/// missing frame count.
pub fn timeline_parameters(infos: &Vec<GluResourceStatInfo>) -> (r: Result<TimelineParams, TimelineError>)
    ensures
        first_some(framerates(infos@)) is None ==> r == Err::<TimelineParams, TimelineError>(
            TimelineError::NoFramerate,
        ),
        first_some(framerates(infos@)) is Some && first_some(frame_counts(infos@)) is None ==> r
            == Err::<TimelineParams, TimelineError>(TimelineError::NoFrameCount),
        first_some(framerates(infos@)) matches Some(fr) ==> (first_some(frame_counts(infos@))
            matches Some(n) ==> r == Ok::<TimelineParams, TimelineError>(
            TimelineParams { total_frames: n, framerate: fr, samplerate: first_some(samplerates(infos@)) },
        )),
{
    let total_frames = first_frames(infos);
    let framerate = first_framerate(infos);
    let samplerate = first_samplerate(infos);
    let framerate = match framerate {
        Some(f) => f,
        None => {
            return Err(TimelineError::NoFramerate);
        },
    };
    let total_frames = match total_frames {
        Some(n) => n,
        None => {
            return Err(TimelineError::NoFrameCount);
        },
    };
    Ok(TimelineParams { total_frames, framerate, samplerate })
}

/// What the next draw does with the queue of aligned frame sets.
pub enum DrawPlan<B> {
    /// Nothing is queued.
    Empty,
    /// The oldest set does not hold one frame per video: it goes back to the
    /// decoders and the draw fails.
    Mismatch(Vec<CudaFrame<B>>),
    /// The oldest set, to be drawn and then handed back to the decoders.
    Draw(Vec<CudaFrame<B>>),
}

/// Aligned frame sets that the player has loaded and not drawn yet, oldest first.
pub struct PlayerCache<B> {
    pub cache: Vec<Vec<CudaFrame<B>>>,
}

impl<B> PlayerCache<B> {
    pub fn new() -> (r: Self)
        ensures
            r.cache@.len() == 0,
    {
        PlayerCache { cache: Vec::new() }
    }

    /// Queues the set that the alignment loop delivered, if any, and answers
    /// the number of queued sets (as a C `int`).
    pub fn load_frames(&mut self, data: Option<Vec<CudaFrame<B>>>) -> (r: i32)
        ensures
            final(self).cache@ == match data {
                Some(d) => old(self).cache@.push(d),
                None => old(self).cache@,
            },
            r == final(self).cache@.len() as i32,
    {
        if let Some(d) = data {
            self.cache.push(d);
        }
        self.cache.len() as i32
    }

    /// Takes the oldest set off the queue for drawing `nb_videos` videos.
    pub fn take_for_draw(&mut self, nb_videos: usize) -> (r: DrawPlan<B>)
        ensures
            old(self).cache@.len() == 0 ==> r is Empty && final(self).cache@ == old(self).cache@,
            old(self).cache@.len() > 0 ==> {
                &&& final(self).cache@ == old(self).cache@.drop_first()
                &&& if old(self).cache@[0]@.len() == nb_videos {
                    r matches DrawPlan::Draw(set) && set == old(self).cache@[0]
                } else {
                    r matches DrawPlan::Mismatch(set) && set == old(self).cache@[0]
                }
            },
    {
        if self.cache.len() == 0 {
            return DrawPlan::Empty;
        }
        let item = self.cache.remove(0);
        assert(self.cache@ =~= old(self).cache@.drop_first());
        if item.len() != nb_videos {
            DrawPlan::Mismatch(item)
        } else {
            DrawPlan::Draw(item)
        }
    }
}

/// Every queued group holds one frame per video, all at one time.
pub open spec fn all_aligned<B>(groups: Seq<Vec<CudaFrame<B>>>, nb_videos: nat) -> bool {
    forall|i: int| 0 <= i < groups.len() ==> aligned_set((#[trigger] groups[i])@, nb_videos)
}

/// The player's queue stays aligned: where every queued group and the set
/// being loaded hold one frame per video at one time, so does every group
/// after [`PlayerCache::load_frames`]; and taking the oldest group off for
/// drawing ([`PlayerCache::take_for_draw`]) leaves the others aligned.
pub proof fn lemma_cache_stays_aligned<B>(
    before: Seq<Vec<CudaFrame<B>>>,
    data: Option<Vec<CudaFrame<B>>>,
    nb_videos: nat,
)
    requires
        all_aligned(before, nb_videos),
        data matches Some(d) ==> aligned_set(d@, nb_videos),
    ensures
        all_aligned(
            match data {
                Some(d) => before.push(d),
                None => before,
            },
            nb_videos,
        ),
        before.len() > 0 ==> all_aligned(before.drop_first(), nb_videos),
{
    if let Some(d) = data {
        let after = before.push(d);
        assert forall|i: int| 0 <= i < after.len() implies aligned_set((#[trigger] after[i])@, nb_videos) by {
            if i < before.len() {
                assert(after[i] == before[i]);
            }
        }
    }
    if before.len() > 0 {
        let rest = before.drop_first();
        assert forall|i: int| 0 <= i < rest.len() implies aligned_set((#[trigger] rest[i])@, nb_videos) by {
            assert(rest[i] == before[i + 1]);
        }
    }
}

/// The widths and heights that `get_ratios` writes for the caller, who made
/// room for `length` entries: the error code `-2` where more streams play than
/// there is room for.  The entries are C `int`s (`as i32`).
pub fn ratio_table(ratios: &Vec<(usize, usize)>, length: i32) -> (r: Result<(Vec<i32>, Vec<i32>), i32>)
    requires
        length >= 0,
        ratios@.len() >= length,
    ensures
        ratios@.len() > length ==> r == Err::<(Vec<i32>, Vec<i32>), i32>(-2i32),
        ratios@.len() == length ==> (r matches Ok((w, h)) && w@.len() == length && h@.len()
            == length && forall|i: int|
            0 <= i < length ==> w@[i] == ratios@[i].0 as i32 && h@[i] == ratios@[i].1 as i32),
{
    let n = length as usize;
    if ratios.len() > n {
        return Err(-2);
    }
    let mut widths: Vec<i32> = Vec::new();
    let mut heights: Vec<i32> = Vec::new();
    let mut i: usize = 0;
    while i < n
        invariant
            n == length,
            ratios@.len() == n,
            i <= n,
            widths@.len() == i,
            heights@.len() == i,
            forall|j: int|
                0 <= j < i ==> widths@[j] == ratios@[j].0 as i32 && heights@[j] == ratios@[j].1 as i32,
        decreases n - i,
    {
        widths.push(ratios[i].0 as i32);
        heights.push(ratios[i].1 as i32);
        i = i + 1;
    }
    Ok((widths, heights))
}

/// Textures can be bound when there is one for every video; more textures
/// than videos is an error.  (Fewer textures than videos is left out: the
/// binding would read past the caller's list.)
pub fn texture_count_ok(nb_videos: usize, nb_textures: usize) -> (r: bool)
    requires
        nb_textures >= nb_videos,
    ensures
        r == (nb_textures == nb_videos),
{
    !(nb_videos < nb_textures)
}

/// The status code of a C-interface call: `-1` where the player could not be
/// locked, `-2` where the operation failed, `0` otherwise.
pub fn status_code(locked: bool, succeeded: bool) -> (r: i32)
    ensures
        !locked ==> r == -1,
        locked && !succeeded ==> r == -2,
        locked && succeeded ==> r == 0,
{
    if !locked {
        -1
    } else if !succeeded {
        -2
    } else {
        0
    }
}

/// A size given through the C interface: positive values count, others mean "unset".
pub fn positive_dimension(x: i32) -> (r: Option<usize>)
    ensures
        x > 0 ==> r == Some(x as usize),
        x <= 0 ==> r is None,
{
    if x > 0 {
        Some(x as usize)
    } else {
        None
    }
}

/// Which size of a raw NV12 picture is missing.
#[derive(PartialEq, Eq, Structural, Debug, Clone, Copy)]
pub enum MissingSize {
    Width,
    Height,
}

/// A raw NV12 picture needs both sizes given; the width is checked first.
pub fn raw_nv12_size(width: Option<usize>, height: Option<usize>) -> (r: Result<(usize, usize), MissingSize>)
    ensures
        width is None ==> r == Err::<(usize, usize), MissingSize>(MissingSize::Width),
        width is Some && height is None ==> r == Err::<(usize, usize), MissingSize>(
            MissingSize::Height,
        ),
        width matches Some(w) ==> (height matches Some(h) ==> r == Ok::<(usize, usize), MissingSize>(
            (w, h),
        )),
{
    let w = match width {
        Some(w) => w,
        None => {
            return Err(MissingSize::Width);
        },
    };
    let h = match height {
        Some(h) => h,
        None => {
            return Err(MissingSize::Height);
        },
    };
    Ok((w, h))
}

} // verus!
