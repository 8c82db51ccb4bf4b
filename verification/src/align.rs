//! The bookkeeping of the alignment loop: what it keeps between rounds, how a
//! received event changes it, when collection is forced, and when the
//! timeline restarts.
use vstd::prelude::*;
use crate::audio::AudioFrame;
use crate::state::GluResourceState;
use crate::sync::CudaFrame;

verus! {

/// Frames a decoder may have in flight; a queue this long means the decoder waits.
pub const CHANNEL_SIZE: usize = 10;

/// What a decoder hands to the alignment loop.
pub enum DecodedFrame<B> {
    Video(CudaFrame<B>),
    Audio(AudioFrame),
    EOF(usize),
}

/// The loop's end-of-stream test: as many end-of-stream marks as streams, and
/// at least one of the streams among them.
pub open spec fn spec_all_eof(eof: Seq<usize>, keys: Seq<usize>) -> bool {
    &&& keys.len() == eof.len()
    &&& exists|i: int| 0 <= i < keys.len() && eof.contains(#[trigger] keys[i])
}

/// The end-of-stream test does not depend on the order in which the marks
/// arrived: any reordering of the marks gives the same answer.
pub proof fn lemma_all_eof_ignores_order(eof: Seq<usize>, reordered: Seq<usize>, keys: Seq<usize>)
    requires
        reordered.to_multiset() == eof.to_multiset(),
    ensures
        spec_all_eof(reordered, keys) == spec_all_eof(eof, keys),
{
    broadcast use vstd::seq_lib::group_to_multiset_ensures;

    vstd::seq_lib::to_multiset_len(reordered);
    vstd::seq_lib::to_multiset_len(eof);
    assert forall|k: usize| reordered.contains(k) <==> eof.contains(k) by {
        vstd::seq_lib::to_multiset_contains(reordered, k);
        vstd::seq_lib::to_multiset_contains(eof, k);
    }
    if spec_all_eof(eof, keys) {
        let i = choose|i: int| 0 <= i < keys.len() && eof.contains(#[trigger] keys[i]);
        assert(reordered.contains(keys[i]));
    }
    if spec_all_eof(reordered, keys) {
        let i = choose|i: int| 0 <= i < keys.len() && reordered.contains(#[trigger] keys[i]);
        assert(eof.contains(keys[i]));
    }
}

/// Once every one of the (at least one) streams has sent its end-of-stream
/// mark, in whatever order, the end-of-stream test answers `true`.
pub proof fn lemma_all_eof_when_every_stream_ended(eof: Seq<usize>, keys: Seq<usize>)
    requires
        keys.len() > 0,
        eof.to_multiset() == keys.to_multiset(),
    ensures
        spec_all_eof(eof, keys),
{
    broadcast use vstd::seq_lib::group_to_multiset_ensures;

    vstd::seq_lib::to_multiset_len(eof);
    vstd::seq_lib::to_multiset_len(keys);
    assert(keys.contains(keys[0]));
    vstd::seq_lib::to_multiset_contains(keys, keys[0]);
    vstd::seq_lib::to_multiset_contains(eof, keys[0]);
    assert(eof.contains(keys[0]));
}

impl<B> DecodedFrame<B> {
    /// Whether every stream has reported its end, as the loop tests it.
    pub fn all_eof(eof: &[usize], keys: &[usize]) -> (r: bool)
        ensures
            r == spec_all_eof(eof@, keys@),
    {
        if keys.len() != eof.len() {
            return false;
        }
        let mut i: usize = 0;
        while i < keys.len()
            invariant
                keys@.len() == eof@.len(),
                i <= keys@.len(),
                forall|m: int| 0 <= m < i ==> !eof@.contains(#[trigger] keys@[m]),
            decreases keys@.len() - i,
        {
            let key = keys[i];
            let mut j: usize = 0;
            while j < eof.len()
                invariant
                    keys@.len() == eof@.len(),
                    i < keys@.len(),
                    key == keys@[i as int],
                    j <= eof@.len(),
                    forall|m: int| 0 <= m < j ==> eof@[m] != key,
                decreases eof@.len() - j,
            {
                if eof[j] == key {
                    assert(eof@.contains(keys@[i as int]));
                    return true;
                }
                j = j + 1;
            }
            i = i + 1;
        }
        false
    }
}

/// What one round of the alignment loop does with its clock.
#[derive(PartialEq, Eq, Structural, Debug, Clone, Copy)]
pub enum ClockStep {
    /// The player stopped or is gone: the loop ends.
    Quit,
    /// The player is paused: the round waits, first noting when the pause
    /// began (`mark_pause`) where no pause is noted yet.
    Wait { mark_pause: bool },
    /// The first playing round: the clock starts now; a noted pause is kept.
    Start,
    /// Playing again after a noted pause: the clock's start moves on by the
    /// pause's length and the note is cleared.
    Resume,
    /// Playing on.
    Run,
}

/// The clock decision of a round, from whether the thread must quit, the
/// playback state it read, whether the clock has started and whether a pause
/// is noted.
pub fn clock_step(quit: bool, state: GluResourceState, started: bool, pause_noted: bool) -> (r: ClockStep)
    ensures
        quit ==> r == ClockStep::Quit,
        !quit && state == GluResourceState::Pause ==> r == (ClockStep::Wait { mark_pause: !pause_noted }),
        !quit && state != GluResourceState::Pause && !started ==> r == ClockStep::Start,
        !quit && state != GluResourceState::Pause && started && pause_noted ==> r == ClockStep::Resume,
        !quit && state != GluResourceState::Pause && started && !pause_noted ==> r == ClockStep::Run,
{
    if quit {
        ClockStep::Quit
    } else if state == GluResourceState::Pause {
        ClockStep::Wait { mark_pause: !pause_noted }
    } else if !started {
        ClockStep::Start
    } else if pause_noted {
        ClockStep::Resume
    } else {
        ClockStep::Run
    }
}

/// What the alignment loop keeps between rounds.
pub struct AlignState<B> {
    /// One queue of decoded frames per stream, indexed by stream.
    pub video_cache: Vec<Vec<CudaFrame<B>>>,
    /// The streams' identifiers, `0..n`.
    pub keys: Vec<usize>,
    pub audio_cache: Vec<AudioFrame>,
    /// Time of the first frame that set the timeline's origin.
    pub start_pts: Option<i64>,
    /// Latest drift between audio time and the clock.
    pub clock: Option<i64>,
    /// Streams that reported their end.
    pub eof: Vec<usize>,
    /// Frame sets handed on since the timeline started.
    pub frames: usize,
    /// Whether an audio stream drives the clock.
    pub has_audio: bool,
}

/// Some video queue is full.
pub open spec fn some_queue_full<B>(cache: Seq<Vec<CudaFrame<B>>>) -> bool {
    exists|k: int| 0 <= k < cache.len() && (#[trigger] cache[k])@.len() >= CHANNEL_SIZE
}

/// Some video queue is empty.
pub open spec fn some_queue_empty<B>(cache: Seq<Vec<CudaFrame<B>>>) -> bool {
    exists|k: int| 0 <= k < cache.len() && (#[trigger] cache[k])@.len() == 0
}

impl<B> AlignState<B> {
    /// The state before anything is received: one empty queue per stream.
    pub fn new(nb_streams: usize, has_audio: bool) -> (r: Self)
        ensures
            r.video_cache@.len() == nb_streams,
            forall|k: int| 0 <= k < nb_streams ==> (#[trigger] r.video_cache@[k])@.len() == 0,
            r.keys@.len() == nb_streams,
            forall|k: int| 0 <= k < nb_streams ==> #[trigger] r.keys@[k] == k,
            r.audio_cache@.len() == 0,
            r.start_pts is None,
            r.clock is None,
            r.eof@.len() == 0,
            r.frames == 0,
            r.has_audio == has_audio,
    {
        let mut video_cache: Vec<Vec<CudaFrame<B>>> = Vec::new();
        let mut keys: Vec<usize> = Vec::new();
        let mut i: usize = 0;
        while i < nb_streams
            invariant
                i <= nb_streams,
                video_cache@.len() == i,
                keys@.len() == i,
                forall|k: int| 0 <= k < i ==> (#[trigger] video_cache@[k])@.len() == 0,
                forall|k: int| 0 <= k < i ==> #[trigger] keys@[k] == k,
            decreases nb_streams - i,
        {
            video_cache.push(Vec::new());
            keys.push(i);
            i = i + 1;
        }
        AlignState {
            video_cache,
            keys,
            audio_cache: Vec::new(),
            start_pts: None,
            clock: None,
            eof: Vec::new(),
            frames: 0,
            has_audio,
        }
    }

    /// Whether every stream has reported its end.
    pub open spec fn spec_all_eof(self) -> bool {
        spec_all_eof(self.eof@, self.keys@)
    }

    /// Takes in what the decoders sent in one round (`None`: nothing arrived in
    /// time) and answers whether collection must be forced: with an audio
    /// clock, no audio waiting, some video queue full and every stream at its
    /// end, decoding has stalled and frames are released regardless of time.
    pub fn receive(&mut self, event: Option<DecodedFrame<B>>) -> (force_send: bool)
        ensures
            final(self).keys == old(self).keys,
            final(self).has_audio == old(self).has_audio,
            final(self).clock == old(self).clock,
            final(self).frames == old(self).frames,
            match event {
                Some(DecodedFrame::Video(v)) => {
                    &&& !force_send
                    &&& final(self).start_pts == if !old(self).has_audio && old(self).start_pts is None {
                        Some(v.pts)
                    } else {
                        old(self).start_pts
                    }
                    &&& final(self).video_cache@.len() == old(self).video_cache@.len()
                    &&& forall|k: int|
                        0 <= k < old(self).video_cache@.len() ==> (#[trigger] final(self).video_cache@[k])@
                            == if k == v.idx {
                            old(self).video_cache@[k]@.push(v)
                        } else {
                            old(self).video_cache@[k]@
                        }
                    &&& final(self).audio_cache@ == old(self).audio_cache@
                    &&& final(self).eof@ == old(self).eof@
                },
                Some(DecodedFrame::Audio(a)) => {
                    &&& !force_send
                    &&& final(self).start_pts == if old(self).start_pts is None {
                        Some(a.pts)
                    } else {
                        old(self).start_pts
                    }
                    &&& final(self).video_cache@ == old(self).video_cache@
                    &&& final(self).audio_cache@ == old(self).audio_cache@.push(a)
                    &&& final(self).eof@ == old(self).eof@
                },
                Some(DecodedFrame::EOF(idx)) => {
                    &&& !force_send
                    &&& final(self).start_pts == old(self).start_pts
                    &&& final(self).video_cache@ == old(self).video_cache@
                    &&& final(self).audio_cache@ == old(self).audio_cache@
                    &&& final(self).eof@ == old(self).eof@.push(idx)
                },
                None => {
                    &&& force_send == (old(self).has_audio && old(self).audio_cache@.len() == 0
                        && some_queue_full(old(self).video_cache@) && old(self).spec_all_eof())
                    &&& final(self).start_pts == old(self).start_pts
                    &&& final(self).video_cache@ == old(self).video_cache@
                    &&& final(self).audio_cache@ == old(self).audio_cache@
                    &&& final(self).eof@ == old(self).eof@
                },
            },
    {
        match event {
            Some(DecodedFrame::Video(v)) => {
                if !self.has_audio && self.start_pts.is_none() {
                    self.start_pts = Some(v.pts);
                }
                let idx = v.idx;
                if idx < self.video_cache.len() {
                    let ghost before = self.video_cache@;
                    let mut rest: Vec<Vec<CudaFrame<B>>> = Vec::new();
                    std::mem::swap(&mut self.video_cache, &mut rest);
                    let mut queue = rest.remove(idx);
                    queue.push(v);
                    rest.insert(idx, queue);
                    std::mem::swap(&mut self.video_cache, &mut rest);
                    proof {
                        assert forall|k: int| 0 <= k < before.len() implies (
                        #[trigger] self.video_cache@[k])@ == if k == idx {
                            before[k]@.push(v)
                        } else {
                            before[k]@
                        } by {
                            if k < idx {
                                assert(self.video_cache@[k] == before[k]);
                            } else if k > idx {
                                assert(self.video_cache@[k] == before[k]);
                            }
                        }
                    }
                }
                false
            },
            Some(DecodedFrame::Audio(a)) => {
                if self.start_pts.is_none() {
                    self.start_pts = Some(a.pts);
                }
                self.audio_cache.push(a);
                false
            },
            Some(DecodedFrame::EOF(idx)) => {
                self.eof.push(idx);
                false
            },
            None => {
                if !self.has_audio || self.audio_cache.len() != 0 {
                    return false;
                }
                let mut full = false;
                let mut k: usize = 0;
                while k < self.video_cache.len()
                    invariant
                        k <= self.video_cache@.len(),
                        full <==> exists|m: int|
                            0 <= m < k && (#[trigger] self.video_cache@[m])@.len() >= CHANNEL_SIZE,
                    decreases self.video_cache@.len() - k,
                {
                    if self.video_cache[k].len() >= CHANNEL_SIZE {
                        full = true;
                    }
                    k = k + 1;
                }
                full && DecodedFrame::<B>::all_eof(self.eof.as_slice(), self.keys.as_slice())
            },
        }
    }

    /// The timeline restarts when every stream has reported its end, no audio
    /// is waiting and some video queue has run empty.
    pub fn should_reset(&self) -> (r: bool)
        ensures
            r == (self.spec_all_eof() && self.audio_cache@.len() == 0 && some_queue_empty(
                self.video_cache@,
            )),
    {
        if !DecodedFrame::<B>::all_eof(self.eof.as_slice(), self.keys.as_slice()) {
            return false;
        }
        if self.audio_cache.len() != 0 {
            return false;
        }
        let mut k: usize = 0;
        while k < self.video_cache.len()
            invariant
                self.spec_all_eof(),
                self.audio_cache@.len() == 0,
                k <= self.video_cache@.len(),
                forall|m: int| 0 <= m < k ==> (#[trigger] self.video_cache@[m])@.len() != 0,
            decreases self.video_cache@.len() - k,
        {
            if self.video_cache[k].len() == 0 {
                assert(self.video_cache@[k as int]@.len() == 0);
                return true;
            }
            k = k + 1;
        }
        false
    }

    /// Restarts the timeline: its origin is forgotten, the set count starts
    /// over and the end-of-stream marks are cleared; queued frames stay.
    pub fn reset(&mut self)
        ensures
            final(self).start_pts is None,
            final(self).frames == 0,
            final(self).eof@.len() == 0,
            final(self).video_cache@ == old(self).video_cache@,
            final(self).audio_cache@ == old(self).audio_cache@,
            final(self).keys == old(self).keys,
            final(self).clock == old(self).clock,
            final(self).has_audio == old(self).has_audio,
    {
        self.start_pts = None;
        self.frames = 0;
        self.eof.clear();
    }

    /// A timeline that has just restarted cannot restart again before the
    /// streams report their ends anew: after [`AlignState::reset`] clears the
    /// end-of-stream marks, not every stream has ended, so
    /// [`AlignState::should_reset`] answers `false`.
    pub proof fn lemma_restart_needs_new_ends(s: AlignState<B>)
        requires
            s.eof@.len() == 0,
        ensures
            !s.spec_all_eof(),
    {
    }

    /// Counts one frame set handed on.
    pub fn record_sent(&mut self)
        requires
            old(self).frames < usize::MAX,
        ensures
            final(self).frames == old(self).frames + 1,
            final(self).video_cache@ == old(self).video_cache@,
            final(self).audio_cache@ == old(self).audio_cache@,
            final(self).eof@ == old(self).eof@,
            final(self).start_pts == old(self).start_pts,
    {
        self.frames = self.frames + 1;
    }
}

} // verus!
