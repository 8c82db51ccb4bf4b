//! Alignment of decoded frames across several video streams on a looping
//! timeline: which queued frames are due, which form a complete set (one frame
//! of every stream at the same presentation time), and which audio packets
//! are due for playback.
use vstd::prelude::*;
use crate::audio::AudioFrame;
use vstd::multiset::Multiset;

verus! {

/// The standard library's monotonic clock reading.
#[verifier::external_type_specification]
#[verifier::external_body]
pub struct ExInstant(std::time::Instant);

/// Calls `Instant::elapsed`.  Nothing is claimed of the result: it is a clock reading.
#[verifier::external_body]
fn instant_elapsed(start: &std::time::Instant) -> std::time::Duration {
    start.elapsed()
}

/// Calls `Duration::as_millis`.  Nothing is claimed of the result.
#[verifier::external_body]
fn duration_as_millis(d: &std::time::Duration) -> u128 {
    d.as_millis()
}

/// Milliseconds since `start`, as the timeline counts them (`as_millis() as i64`).
fn elapsed_ms(start: &std::time::Instant) -> i64 {
    let d = instant_elapsed(start);
    duration_as_millis(&d) as i64
}

/// A decoded RGBA frame of one stream, with its presentation time in
/// milliseconds (`-1` until a picture has been decoded into it); `buffer` is
/// the device memory that holds the picture.
pub struct CudaFrame<B> {
    pub idx: usize,
    pub pts: i64,
    pub buffer: B,
    pub width: usize,
    pub height: usize,
}

impl<B> CudaFrame<B> {
    /// A frame of stream `idx` that holds no picture yet.
    pub fn new(idx: usize, width: usize, height: usize, buffer: B) -> (r: Self)
        ensures
            r.idx == idx,
            r.pts == -1,
            r.width == width,
            r.height == height,
            r.buffer == buffer,
    {
        CudaFrame { idx, pts: -1, buffer, width, height }
    }
}

/// `t / 2` as integer division rounds it: toward zero.
pub open spec fn half_toward_zero(t: int) -> int {
    if t >= 0 {
        t / 2
    } else {
        -((-t) / 2)
    }
}

pub open spec fn abs(x: int) -> int {
    if x < 0 {
        -x
    } else {
        x
    }
}

/// `pts` comes before `other` on a timeline that loops every `total_duration`
/// milliseconds: times less than half a loop apart compare as numbers; times
/// further apart are taken to lie in different loops, so `pts` is earlier only
/// when it lies a whole loop beyond `other`.  (A negative half loop never
/// counts as a gap: the times then compare as numbers.)
pub open spec fn spec_earlier(pts: int, other: int, total_duration: int) -> bool {
    let gap = half_toward_zero(total_duration);
    if gap < 0 || abs(pts - other) < gap {
        pts < other
    } else {
        pts > other + total_duration
    }
}

/// The inputs on which the comparison's integer arithmetic stays in range.
pub open spec fn earlier_defined(pts: i64, other: i64, total_duration: i64) -> bool {
    let d = pts - other;
    let gap = half_toward_zero(total_duration as int);
    &&& i64::MIN < d <= i64::MAX
    &&& !(gap < 0 || abs(d) < gap) ==> i64::MIN <= other + total_duration <= i64::MAX
}

/// Whether `pts` comes before `other` on a timeline that loops every
/// `total_duration` milliseconds.
pub fn earlier(pts: i64, other: i64, total_duration: i64) -> (r: bool)
    requires
        earlier_defined(pts, other, total_duration),
    ensures
        r == spec_earlier(pts as int, other as int, total_duration as int),
{
    let gap = total_duration / 2;
    let d = pts - other;
    let distance: u64 = if d < 0 { (0 - d) as u64 } else { d as u64 };
    // A negative gap, read as an unsigned 64-bit number, exceeds every distance.
    if gap < 0 || distance < (gap as u64) {
        return pts < other;
    }
    pts > other + total_duration
}

/// Decides whether [`earlier`] may be asked about these inputs.
fn earlier_is_defined(pts: i64, other: i64, total_duration: i64) -> (r: bool)
    ensures
        r == earlier_defined(pts, other, total_duration),
{
    let d: i128 = (pts as i128) - (other as i128);
    if d <= (i64::MIN as i128) || d > (i64::MAX as i128) {
        return false;
    }
    let gap = total_duration / 2;
    let distance: i128 = if d < 0 { 0 - d } else { d };
    if gap < 0 || distance < (gap as i128) {
        return true;
    }
    let sum: i128 = (other as i128) + (total_duration as i128);
    (i64::MIN as i128) <= sum && sum <= (i64::MAX as i128)
}

/// A time is never earlier than itself, and of two times at most one is
/// earlier than the other, on any timeline of non-negative length.
pub proof fn lemma_earlier_strict(a: int, b: int, total_duration: int)
    requires
        total_duration >= 0,
    ensures
        !spec_earlier(a, a, total_duration),
        !(spec_earlier(a, b, total_duration) && spec_earlier(b, a, total_duration)),
{
}

/// The key by which queued heads are ranked: times in the first half of the
/// loop are ranked as if they lay half a loop later.
pub open spec fn order_key(pts: i64, total_duration: i64) -> int {
    let half = half_toward_zero(total_duration as int);
    if pts < half {
        pts + half
    } else {
        pts as int
    }
}

/// The presentation time of the frame at the front of queue `k`.
pub open spec fn head_pts<B>(cache: Seq<Vec<CudaFrame<B>>>, k: int) -> i64 {
    cache[k]@[0].pts
}

/// Every stream has a queue and every queue holds a frame.
pub open spec fn heads_ready<B>(cache: Seq<Vec<CudaFrame<B>>>) -> bool {
    &&& cache.len() > 0
    &&& forall|k: int| 0 <= k < cache.len() ==> (#[trigger] cache[k])@.len() > 0
}

/// Queue `k` holds the earliest decoded head: its head carries a time, no
/// head with a time ranks lower, and every queue before it ranks higher.
pub open spec fn is_earliest<B>(cache: Seq<Vec<CudaFrame<B>>>, total_duration: i64, k: int) -> bool {
    &&& 0 <= k < cache.len()
    &&& head_pts(cache, k) >= 0
    &&& forall|j: int|
        0 <= j < cache.len() && head_pts(cache, j) >= 0 ==> order_key(head_pts(cache, k), total_duration)
            <= #[trigger] order_key(head_pts(cache, j), total_duration)
    &&& forall|j: int|
        0 <= j < k && head_pts(cache, j) >= 0 ==> order_key(head_pts(cache, k), total_duration)
            < #[trigger] order_key(head_pts(cache, j), total_duration)
}

/// The earliest queue, where the heads are ready and one carries a time.
pub open spec fn spec_earliest<B>(cache: Seq<Vec<CudaFrame<B>>>, total_duration: i64) -> Option<int> {
    if heads_ready(cache) && exists|k: int| is_earliest(cache, total_duration, k) {
        Some(choose|k: int| is_earliest(cache, total_duration, k))
    } else {
        None
    }
}

proof fn lemma_earliest_unique<B>(cache: Seq<Vec<CudaFrame<B>>>, total_duration: i64, k1: int, k2: int)
    requires
        is_earliest(cache, total_duration, k1),
        is_earliest(cache, total_duration, k2),
    ensures
        k1 == k2,
{
    if k1 < k2 {
        assert(order_key(head_pts(cache, k2), total_duration) < order_key(
            head_pts(cache, k1),
            total_duration,
        ));
    } else if k2 < k1 {
        assert(order_key(head_pts(cache, k1), total_duration) < order_key(
            head_pts(cache, k2),
            total_duration,
        ));
    }
}

/// The time and queue of the earliest decoded head: `None` where a queue is
/// missing or empty, or where no head carries a time.
pub fn earliest_pts<B>(total_duration: i64, video_cache: &Vec<Vec<CudaFrame<B>>>) -> (r: Option<(i64, usize)>)
    ensures
        r is None <==> spec_earliest(video_cache@, total_duration) is None,
        r matches Some((p, k)) ==> spec_earliest(video_cache@, total_duration) == Some(k as int)
            && p == head_pts(video_cache@, k as int),
{
    let n = video_cache.len();
    if n == 0 {
        return None;
    }
    let mut i: usize = 0;
    while i < n
        invariant
            n == video_cache@.len(),
            i <= n,
            forall|k: int| 0 <= k < i ==> (#[trigger] video_cache@[k])@.len() > 0,
        decreases n - i,
    {
        if video_cache[i].len() == 0 {
            assert(!heads_ready(video_cache@));
            return None;
        }
        i = i + 1;
    }
    assert(heads_ready(video_cache@));
    let half = total_duration / 2;
    let mut best: Option<(i64, usize, i64)> = None;
    let mut j: usize = 0;
    while j < n
        invariant
            n == video_cache@.len(),
            heads_ready(video_cache@),
            half == half_toward_zero(total_duration as int),
            j <= n,
            match best {
                None => forall|k: int| 0 <= k < j ==> head_pts(video_cache@, k) < 0,
                Some((p, k, key)) => {
                    &&& 0 <= k < j
                    &&& p == head_pts(video_cache@, k as int)
                    &&& p >= 0
                    &&& key == order_key(p, total_duration)
                    &&& forall|m: int|
                        0 <= m < j && head_pts(video_cache@, m) >= 0 ==> key <= #[trigger] order_key(
                            head_pts(video_cache@, m),
                            total_duration,
                        )
                    &&& forall|m: int|
                        0 <= m < k && head_pts(video_cache@, m) >= 0 ==> key < #[trigger] order_key(
                            head_pts(video_cache@, m),
                            total_duration,
                        )
                },
            },
        decreases n - j,
    {
        let pts = video_cache[j][0].pts;
        if pts >= 0 {
            let key: i64 = if pts < half { pts + half } else { pts };
            match best {
                None => {
                    best = Some((pts, j, key));
                },
                Some((_, _, best_key)) => {
                    if key < best_key {
                        best = Some((pts, j, key));
                    }
                },
            }
        }
        j = j + 1;
    }
    match best {
        None => {
            assert forall|k: int| !is_earliest(video_cache@, total_duration, k) by {}
            None
        },
        Some((p, k, _)) => {
            assert(is_earliest(video_cache@, total_duration, k as int));
            let ghost chosen = choose|m: int| is_earliest(video_cache@, total_duration, m);
            proof {
                lemma_earliest_unique(video_cache@, total_duration, chosen, k as int);
            }
            Some((p, k))
        },
    }
}

/// Why a collection round stopped.
#[derive(Clone, Copy, PartialEq, Eq, Structural, Debug)]
pub enum StopReason {
    /// The cache does not hold one queue per stream.
    Misaligned,
    /// A queue is empty, or no head carries a time.
    NothingQueued,
    /// The earliest head lies before the start of the timeline (the
    /// pipeline treats this as a fatal inconsistency).
    StartAfterEarliest { start_pts: i64, pts: i64 },
    /// The timeline arithmetic would leave the 64-bit range.
    Overflow,
    /// The earliest head is not yet due.
    NotDue,
}

/// One round of frame collection.
pub enum CollectStep<B> {
    Stop(StopReason),
    /// One frame of every stream, all with the earliest time.
    Complete(Vec<CudaFrame<B>>),
    /// The heads with the earliest time, fewer than one per stream.
    Incomplete(Vec<CudaFrame<B>>),
}

/// The heads, in queue order, whose time is `pts`.
pub open spec fn due_at<B>(cache: Seq<Vec<CudaFrame<B>>>, pts: i64) -> Seq<CudaFrame<B>>
    decreases cache.len(),
{
    if cache.len() == 0 {
        Seq::empty()
    } else {
        let prev = due_at(cache.drop_last(), pts);
        if cache.last()@[0].pts == pts {
            prev.push(cache.last()@[0])
        } else {
            prev
        }
    }
}

/// `new` is `old` with the head of every queue whose head has time `pts` removed.
pub open spec fn advanced<B>(old: Seq<Vec<CudaFrame<B>>>, new: Seq<Vec<CudaFrame<B>>>, pts: i64) -> bool {
    &&& new.len() == old.len()
    &&& forall|j: int|
        0 <= j < old.len() ==> (#[trigger] new[j])@ == if old[j]@[0].pts == pts {
            old[j]@.drop_first()
        } else {
            old[j]@
        }
}

/// The number of frames queued in all queues together.
pub open spec fn frames_in<B>(cache: Seq<Vec<CudaFrame<B>>>) -> nat
    decreases cache.len(),
{
    if cache.len() == 0 {
        0
    } else {
        frames_in(cache.drop_last()) + cache.last()@.len()
    }
}

/// The timeline arithmetic of a round with earliest time `pts` stays in range.
pub open spec fn timeline_defined(pts: i64, start_pts: i64, local_pts: i64, total_duration: i64, force_send: bool) -> bool {
    &&& pts - start_pts <= i64::MAX
    &&& force_send || earlier_defined(local_pts, (pts - start_pts) as i64, total_duration)
}

proof fn lemma_due_at<B>(cache: Seq<Vec<CudaFrame<B>>>, pts: i64)
    requires
        forall|k: int| 0 <= k < cache.len() ==> (#[trigger] cache[k])@.len() > 0,
    ensures
        due_at(cache, pts).len() <= cache.len(),
        forall|i: int| 0 <= i < due_at(cache, pts).len() ==> (#[trigger] due_at(cache, pts)[i]).pts == pts,
        (exists|k: int| 0 <= k < cache.len() && #[trigger] head_pts(cache, k) == pts) ==> due_at(cache, pts).len() > 0,
        due_at(cache, pts).len() == cache.len() ==> forall|k: int|
            0 <= k < cache.len() ==> #[trigger] due_at(cache, pts)[k] == cache[k]@[0],
    decreases cache.len(),
{
    if cache.len() > 0 {
        let prev = cache.drop_last();
        assert forall|k: int| 0 <= k < prev.len() implies (#[trigger] prev[k])@.len() > 0 by {
            assert(prev[k] == cache[k]);
        }
        lemma_due_at(prev, pts);
        if exists|k: int| 0 <= k < cache.len() && #[trigger] head_pts(cache, k) == pts {
            let k = choose|k: int| 0 <= k < cache.len() && #[trigger] head_pts(cache, k) == pts;
            if k < cache.len() - 1 {
                assert(head_pts(prev, k) == pts);
            }
        }
        if due_at(cache, pts).len() == cache.len() {
            lemma_due_at_full(cache, pts);
        }
    }
}

proof fn lemma_due_at_full<B>(cache: Seq<Vec<CudaFrame<B>>>, pts: i64)
    requires
        cache.len() > 0,
        forall|k: int| 0 <= k < cache.len() ==> (#[trigger] cache[k])@.len() > 0,
        due_at(cache, pts).len() == cache.len(),
        due_at(cache.drop_last(), pts).len() <= cache.drop_last().len(),
        due_at(cache.drop_last(), pts).len() == cache.drop_last().len() ==> forall|k: int|
            0 <= k < cache.drop_last().len() ==> #[trigger] due_at(cache.drop_last(), pts)[k]
                == cache.drop_last()[k]@[0],
    ensures
        forall|k: int| 0 <= k < cache.len() ==> #[trigger] due_at(cache, pts)[k] == cache[k]@[0],
{
    let prev = cache.drop_last();
    if cache.last()@[0].pts != pts {
        assert(due_at(cache, pts) == due_at(prev, pts));
        assert(false);
    }
    assert(due_at(cache, pts) == due_at(prev, pts).push(cache.last()@[0]));
    assert forall|k: int| 0 <= k < cache.len() implies #[trigger] due_at(cache, pts)[k]
        == cache[k]@[0] by {
        if k < cache.len() - 1 {
            assert(prev[k] == cache[k]);
            assert(due_at(prev, pts)[k] == prev[k]@[0]);
        }
    }
}

proof fn lemma_frames_advanced<B>(old: Seq<Vec<CudaFrame<B>>>, new: Seq<Vec<CudaFrame<B>>>, pts: i64)
    requires
        advanced(old, new, pts),
        forall|k: int| 0 <= k < old.len() ==> (#[trigger] old[k])@.len() > 0,
    ensures
        frames_in(new) + due_at(old, pts).len() == frames_in(old),
    decreases old.len(),
{
    if old.len() > 0 {
        let po = old.drop_last();
        let pn = new.drop_last();
        assert forall|j: int| 0 <= j < po.len() implies (#[trigger] pn[j])@ == if po[j]@[0].pts == pts {
            po[j]@.drop_first()
        } else {
            po[j]@
        } by {
            assert(pn[j] == new[j]);
            assert(po[j] == old[j]);
        }
        assert forall|k: int| 0 <= k < po.len() implies (#[trigger] po[k])@.len() > 0 by {
            assert(po[k] == old[k]);
        }
        lemma_frames_advanced(po, pn, pts);
        assert(new.last() == new[new.len() - 1]);
    }
}

/// One round of collection: finds the earliest head and, when it is due at
/// `local_pts` (or `force_send` holds), takes off every head with that time.
pub fn collect_step<B>(
    video_cache: &mut Vec<Vec<CudaFrame<B>>>,
    nb_streams: usize,
    start_pts: i64,
    local_pts: i64,
    total_duration: i64,
    force_send: bool,
) -> (r: CollectStep<B>)
    ensures
        old(video_cache)@.len() != nb_streams ==> r == CollectStep::<B>::Stop(StopReason::Misaligned)
            && final(video_cache)@ == old(video_cache)@,
        old(video_cache)@.len() == nb_streams && spec_earliest(old(video_cache)@, total_duration)
            is None ==> r == CollectStep::<B>::Stop(StopReason::NothingQueued) && final(video_cache)@
            == old(video_cache)@,
        old(video_cache)@.len() == nb_streams ==> (spec_earliest(old(video_cache)@, total_duration)
            matches Some(k) ==> {
            let pts = head_pts(old(video_cache)@, k);
            if pts < start_pts {
                r == CollectStep::<B>::Stop(StopReason::StartAfterEarliest { start_pts, pts })
                    && final(video_cache)@ == old(video_cache)@
            } else if !timeline_defined(pts, start_pts, local_pts, total_duration, force_send) {
                r == CollectStep::<B>::Stop(StopReason::Overflow) && final(video_cache)@ == old(
                    video_cache,
                )@
            } else if !force_send && spec_earlier(
                local_pts as int,
                pts - start_pts,
                total_duration as int,
            ) {
                r == CollectStep::<B>::Stop(StopReason::NotDue) && final(video_cache)@ == old(
                    video_cache,
                )@
            } else {
                &&& advanced(old(video_cache)@, final(video_cache)@, pts)
                &&& match r {
                    CollectStep::Complete(items) => items@ == due_at(old(video_cache)@, pts)
                        && items@.len() == nb_streams && forall|j: int|
                        0 <= j < nb_streams ==> (#[trigger] items@[j]) == old(video_cache)@[j]@[0]
                            && items@[j].pts == pts,
                    CollectStep::Incomplete(items) => items@ == due_at(old(video_cache)@, pts)
                        && 0 < items@.len() < nb_streams,
                    CollectStep::Stop(_) => false,
                }
            }
        }),
{
    if video_cache.len() != nb_streams {
        return CollectStep::Stop(StopReason::Misaligned);
    }
    let (pts, k) = match earliest_pts(total_duration, video_cache) {
        Some(found) => found,
        None => {
            return CollectStep::Stop(StopReason::NothingQueued);
        },
    };
    if pts < start_pts {
        return CollectStep::Stop(StopReason::StartAfterEarliest { start_pts, pts });
    }
    let in_range = (pts as i128) - (start_pts as i128) <= (i64::MAX as i128);
    if !in_range {
        return CollectStep::Stop(StopReason::Overflow);
    }
    let actual = pts - start_pts;
    if !force_send {
        if !earlier_is_defined(local_pts, actual, total_duration) {
            return CollectStep::Stop(StopReason::Overflow);
        }
        if earlier(local_pts, actual, total_duration) {
            return CollectStep::Stop(StopReason::NotDue);
        }
    }
    let ghost old_cache = video_cache@;
    proof {
        lemma_due_at(old_cache, pts);
        assert(head_pts(old_cache, k as int) == pts);
    }
    let mut rest: Vec<Vec<CudaFrame<B>>> = Vec::new();
    std::mem::swap(video_cache, &mut rest);
    let mut items: Vec<CudaFrame<B>> = Vec::new();
    let mut j: usize = 0;
    while rest.len() > 0
        invariant
            old_cache.len() == nb_streams,
            heads_ready(old_cache),
            j + rest@.len() == old_cache.len(),
            rest@ == old_cache.skip(j as int),
            video_cache@.len() == j,
            forall|i: int|
                0 <= i < j ==> (#[trigger] video_cache@[i])@ == if old_cache[i]@[0].pts == pts {
                    old_cache[i]@.drop_first()
                } else {
                    old_cache[i]@
                },
            items@ == due_at(old_cache.take(j as int), pts),
        decreases rest@.len(),
    {
        let mut queue = rest.remove(0);
        assert(queue == old_cache[j as int]);
        if queue[0].pts == pts {
            let frame = queue.remove(0);
            items.push(frame);
        }
        video_cache.push(queue);
        proof {
            assert(old_cache.take(j + 1).drop_last() =~= old_cache.take(j as int));
            assert(old_cache.take(j + 1).last() == old_cache[j as int]);
            assert(rest@ =~= old_cache.skip(j + 1));
        }
        j = j + 1;
    }
    proof {
        assert(old_cache.take(j as int) =~= old_cache);
        if items@.len() == nb_streams {
            assert forall|m: int| 0 <= m < nb_streams implies (#[trigger] items@[m]) == old_cache[m]@[0]
                && items@[m].pts == pts by {
                assert(due_at(old_cache, pts)[m] == old_cache[m]@[0]);
            }
        }
    }
    if items.len() == nb_streams {
        CollectStep::Complete(items)
    } else {
        CollectStep::Incomplete(items)
    }
}

/// `now` is what is left of `orig` after fronts were taken off its queues.
pub open spec fn suffixes_of<B>(orig: Seq<Vec<CudaFrame<B>>>, now: Seq<Vec<CudaFrame<B>>>) -> bool {
    &&& now.len() == orig.len()
    &&& forall|j: int|
        0 <= j < orig.len() ==> (#[trigger] now[j])@.len() <= orig[j]@.len() && now[j]@ == orig[j]@.skip(
            orig[j]@.len() - now[j]@.len(),
        )
}

/// The presentation time of the earliest decoded head.
pub open spec fn earliest_head_pts<B>(cache: Seq<Vec<CudaFrame<B>>>, total_duration: i64) -> i64 {
    head_pts(cache, spec_earliest(cache, total_duration)->0)
}

/// A round of [`collect_step`] on the queues `cache`, with the clock at
/// `local_pts`, stops for `reason` and leaves the queues as they are.
pub open spec fn round_stops<B>(
    cache: Seq<Vec<CudaFrame<B>>>,
    nb_streams: usize,
    start_pts: i64,
    local_pts: i64,
    total_duration: i64,
    force_send: bool,
    reason: StopReason,
) -> bool {
    if cache.len() != nb_streams {
        reason == StopReason::Misaligned
    } else if spec_earliest(cache, total_duration) is None {
        reason == StopReason::NothingQueued
    } else {
        let pts = earliest_head_pts(cache, total_duration);
        if pts < start_pts {
            reason == (StopReason::StartAfterEarliest { start_pts, pts })
        } else if !timeline_defined(pts, start_pts, local_pts, total_duration, force_send) {
            reason == StopReason::Overflow
        } else if !force_send && spec_earlier(local_pts as int, pts - start_pts, total_duration as int) {
            reason == StopReason::NotDue
        } else {
            false
        }
    }
}

/// A round of [`collect_step`] on the queues `before`, with the clock at
/// `local_pts`, does not stop: it takes every head with the earliest time off,
/// leaving `after`.
pub open spec fn round_takes<B>(
    before: Seq<Vec<CudaFrame<B>>>,
    after: Seq<Vec<CudaFrame<B>>>,
    nb_streams: usize,
    start_pts: i64,
    local_pts: i64,
    total_duration: i64,
    force_send: bool,
) -> bool {
    let pts = earliest_head_pts(before, total_duration);
    &&& before.len() == nb_streams
    &&& spec_earliest(before, total_duration) is Some
    &&& pts >= start_pts
    &&& timeline_defined(pts, start_pts, local_pts, total_duration, force_send)
    &&& !(!force_send && spec_earlier(local_pts as int, pts - start_pts, total_duration as int))
    &&& advanced(before, after, pts)
}

/// The heads that the round on `before` takes off.
pub open spec fn round_items<B>(before: Seq<Vec<CudaFrame<B>>>, total_duration: i64) -> Seq<CudaFrame<B>> {
    due_at(before, earliest_head_pts(before, total_duration))
}

/// The complete sets delivered by the rounds that went through `states`
/// (each round starting from one state and leaving the next), in order.
pub open spec fn sets_of_rounds<B>(states: Seq<Seq<Vec<CudaFrame<B>>>>, nb_streams: usize, total_duration: i64) -> Seq<Seq<CudaFrame<B>>>
    decreases states.len(),
{
    if states.len() <= 1 {
        Seq::empty()
    } else {
        let earlier_sets = sets_of_rounds(states.drop_last(), nb_streams, total_duration);
        let items = round_items(states[states.len() - 2], total_duration);
        if items.len() == nb_streams {
            earlier_sets.push(items)
        } else {
            earlier_sets
        }
    }
}

/// The frames of incomplete sets handed back by the rounds that went through
/// `states`, in order.
pub open spec fn recycled_of_rounds<B>(states: Seq<Seq<Vec<CudaFrame<B>>>>, nb_streams: usize, total_duration: i64) -> Seq<CudaFrame<B>>
    decreases states.len(),
{
    if states.len() <= 1 {
        Seq::empty()
    } else {
        let earlier_frames = recycled_of_rounds(states.drop_last(), nb_streams, total_duration);
        let items = round_items(states[states.len() - 2], total_duration);
        if items.len() == nb_streams {
            earlier_frames
        } else {
            earlier_frames + items
        }
    }
}

/// The queues went from `orig` to `now` through `states`, one round of
/// [`collect_step`] per reading of the clock in `clocks`, none of which stopped.
pub open spec fn rounds_taken<B>(
    orig: Seq<Vec<CudaFrame<B>>>,
    now: Seq<Vec<CudaFrame<B>>>,
    states: Seq<Seq<Vec<CudaFrame<B>>>>,
    clocks: Seq<i64>,
    nb_streams: usize,
    start_pts: i64,
    total_duration: i64,
    force_send: bool,
) -> bool {
    &&& states.len() == clocks.len() + 1
    &&& states[0] == orig
    &&& states.last() == now
    &&& forall|i: int|
        0 <= i < clocks.len() ==> round_takes(
            states[i],
            states[i + 1],
            nb_streams,
            start_pts,
            #[trigger] clocks[i],
            total_duration,
            force_send,
        )
}

/// A whole collection: the rounds at the clock readings `clocks` took the
/// queues from `orig` through `states` to `now`, delivering `sets` and
/// handing back `recycled`; then a round at the reading `stop_clock` stopped
/// for `stop`.
pub open spec fn collection_run<B>(
    orig: Seq<Vec<CudaFrame<B>>>,
    now: Seq<Vec<CudaFrame<B>>>,
    sets: Seq<Seq<CudaFrame<B>>>,
    recycled: Seq<CudaFrame<B>>,
    stop: StopReason,
    states: Seq<Seq<Vec<CudaFrame<B>>>>,
    clocks: Seq<i64>,
    stop_clock: i64,
    nb_streams: usize,
    start_pts: i64,
    total_duration: i64,
    force_send: bool,
) -> bool {
    &&& rounds_taken(orig, now, states, clocks, nb_streams, start_pts, total_duration, force_send)
    &&& sets == sets_of_rounds(states, nb_streams, total_duration)
    &&& recycled == recycled_of_rounds(states, nb_streams, total_duration)
    &&& round_stops(now, nb_streams, start_pts, stop_clock, total_duration, force_send, stop)
}

/// The contents of each set, in order.
pub open spec fn set_views<B>(sets: Seq<Vec<CudaFrame<B>>>) -> Seq<Seq<CudaFrame<B>>> {
    sets.map_values(|v: Vec<CudaFrame<B>>| v@)
}

/// An aligned set: one frame for each of `nb_streams` streams, all with one
/// presentation time.
pub open spec fn aligned_set<B>(set: Seq<CudaFrame<B>>, nb_streams: nat) -> bool {
    &&& set.len() == nb_streams
    &&& forall|j: int| 0 <= j < nb_streams ==> (#[trigger] set[j]).pts == set[0].pts
}

/// The frame sets that became due, the frames taken off but not part of a
/// complete set (to go back to their decoders), and why collection stopped.
pub struct CollectOutcome<B> {
    pub sets: Vec<Vec<CudaFrame<B>>>,
    pub recycled: Vec<CudaFrame<B>>,
    pub stop: StopReason,
}

/// Repeats [`collect_step`] with a fresh reading of the clock (milliseconds
/// since `start_time`) until a round stops.  The outcome is that of such a
/// run at some readings of the clock: each round took every head with the
/// earliest time, delivered them as a set where they were one per stream and
/// handed them back otherwise, and the last round stopped on the queues left
/// behind, for the reason returned (never `NotDue` when `force_send`; a cache
/// without one queue per stream is left alone).  Whatever the clock reads:
/// every set holds one frame per stream, the frame at place `j` taken from
/// queue `j`, all with one time, at or after the start of the timeline; each
/// queue loses only frames from its front; and the frames taken off are
/// exactly those in the sets and those recycled.
pub fn collect_frames<B>(
    start_time: &std::time::Instant,
    start_pts: i64,
    total_duration: i64,
    video_cache: &mut Vec<Vec<CudaFrame<B>>>,
    nb_streams: usize,
    force_send: bool,
) -> (r: CollectOutcome<B>)
    ensures
        suffixes_of(old(video_cache)@, final(video_cache)@),
        forall|i: int| 0 <= i < r.sets@.len() ==> aligned_set((#[trigger] r.sets@[i])@, nb_streams as nat),
        forall|i: int| 0 <= i < r.sets@.len() ==> (#[trigger] r.sets@[i])@[0].pts >= start_pts,
        forall|i: int, j: int|
            0 <= i < r.sets@.len() && 0 <= j < nb_streams ==> old(video_cache)@[j]@.contains(
                #[trigger] r.sets@[i]@[j],
            ),
        frames_in(old(video_cache)@) == frames_in(final(video_cache)@) + nb_streams * r.sets@.len()
            + r.recycled@.len(),
        old(video_cache)@.len() != nb_streams ==> r.stop == StopReason::Misaligned && r.sets@.len()
            == 0 && r.recycled@.len() == 0 && final(video_cache)@ == old(video_cache)@,
        force_send ==> r.stop != StopReason::NotDue,
        taken_frames(old(video_cache)@, final(video_cache)@) == frames_of_sets(set_views(r.sets@)).add(
            r.recycled@.to_multiset(),
        ),
        exists|states: Seq<Seq<Vec<CudaFrame<B>>>>, clocks: Seq<i64>, stop_clock: i64|
            #[trigger] collection_run(
                old(video_cache)@,
                final(video_cache)@,
                set_views(r.sets@),
                r.recycled@,
                r.stop,
                states,
                clocks,
                stop_clock,
                nb_streams,
                start_pts,
                total_duration,
                force_send,
            ),
{
    let ghost orig = old(video_cache)@;
    let mut sets: Vec<Vec<CudaFrame<B>>> = Vec::new();
    let mut recycled: Vec<CudaFrame<B>> = Vec::new();
    let ghost mut states: Seq<Seq<Vec<CudaFrame<B>>>> = seq![orig];
    let ghost mut clocks: Seq<i64> = Seq::empty();
    proof {
        assert(set_views(sets@) =~= Seq::<Seq<CudaFrame<B>>>::empty());
        assert(recycled@ =~= Seq::<CudaFrame<B>>::empty());
        lemma_nothing_taken(orig);
        broadcast use vstd::seq_lib::group_to_multiset_ensures;
        broadcast use vstd::multiset::group_multiset_axioms;
        assert(frames_of_sets(set_views(sets@)).add(recycled@.to_multiset()) =~= Multiset::empty());
    }
    proof {
        assert forall|j: int| 0 <= j < orig.len() implies (#[trigger] video_cache@[j])@.len()
            <= orig[j]@.len() && video_cache@[j]@ == orig[j]@.skip(
            orig[j]@.len() - video_cache@[j]@.len(),
        ) by {
            assert(orig[j]@.skip(0) =~= orig[j]@);
        }
    }
    assert(nb_streams * sets@.len() == 0) by (nonlinear_arith)
        requires sets@.len() == 0;
    loop
        invariant
            orig == old(video_cache)@,
            suffixes_of(orig, video_cache@),
            forall|i: int|
                0 <= i < sets@.len() ==> (#[trigger] sets@[i])@.len() == nb_streams && forall|j: int|
                    0 <= j < nb_streams ==> (#[trigger] sets@[i]@[j]).pts == sets@[i]@[0].pts,
            forall|i: int| 0 <= i < sets@.len() ==> (#[trigger] sets@[i])@[0].pts >= start_pts,
            forall|i: int, j: int|
                0 <= i < sets@.len() && 0 <= j < nb_streams ==> orig[j]@.contains(
                    #[trigger] sets@[i]@[j],
                ),
            frames_in(orig) == frames_in(video_cache@) + nb_streams * sets@.len() + recycled@.len(),
            rounds_taken(orig, video_cache@, states, clocks, nb_streams, start_pts, total_duration, force_send),
            set_views(sets@) == sets_of_rounds(states, nb_streams, total_duration),
            recycled@ == recycled_of_rounds(states, nb_streams, total_duration),
            orig.len() != nb_streams ==> sets@.len() == 0 && recycled@.len() == 0 && video_cache@ == orig,
            taken_frames(orig, video_cache@) == frames_of_sets(set_views(sets@)).add(recycled@.to_multiset()),
        decreases frames_in(video_cache@),
    {
        let local_pts = elapsed_ms(start_time);
        let ghost before = video_cache@;
        let step = collect_step(video_cache, nb_streams, start_pts, local_pts, total_duration, force_send);
        match step {
            CollectStep::Stop(reason) => {
                proof {
                    if before.len() == nb_streams {
                        if let Some(k) = spec_earliest(before, total_duration) {
                            let pts = head_pts(before, k);
                            if !(pts < start_pts) && timeline_defined(
                                pts,
                                start_pts,
                                local_pts,
                                total_duration,
                                force_send,
                            ) && !(!force_send && spec_earlier(
                                local_pts as int,
                                pts - start_pts,
                                total_duration as int,
                            )) {
                                assert(false);
                            }
                        }
                    }
                    assert(video_cache@ == before);
                    assert(round_stops(
                        before,
                        nb_streams,
                        start_pts,
                        local_pts,
                        total_duration,
                        force_send,
                        reason,
                    ));
                    assert(collection_run(
                        orig,
                        video_cache@,
                        set_views(sets@),
                        recycled@,
                        reason,
                        states,
                        clocks,
                        local_pts,
                        nb_streams,
                        start_pts,
                        total_duration,
                        force_send,
                    ));
                }
                return CollectOutcome { sets, recycled, stop: reason };
            },
            CollectStep::Complete(items) => {
                let ghost k = spec_earliest(before, total_duration)->0;
                let ghost pts = head_pts(before, k);
                proof {
                    lemma_due_at(before, pts);
                    lemma_frames_advanced(before, video_cache@, pts);
                    assert(nb_streams * (sets@.len() + 1) == nb_streams * sets@.len() + nb_streams)
                        by (nonlinear_arith);
                    lemma_suffix_step(orig, before, video_cache@, pts);
                    assert forall|j: int| 0 <= j < nb_streams implies orig[j]@.contains(
                        #[trigger] items@[j],
                    ) by {
                        let off = orig[j]@.len() - before[j]@.len();
                        assert(before[j]@ == orig[j]@.skip(off));
                        assert(before[j]@.len() > 0);
                        assert(orig[j]@[off] == items@[j]);
                    }
                }
                let ghost old_sets = sets@;
                let ghost items_view = items@;
                sets.push(items);
                proof {
                    lemma_round_recorded(orig, before, video_cache@, states, clocks, nb_streams, start_pts, local_pts, total_duration, force_send);
                    assert(round_items(before, total_duration) == items_view);
                    let new_states = states.push(video_cache@);
                    assert(new_states.drop_last() =~= states);
                    assert(set_views(sets@) =~= set_views(old_sets).push(items_view));
                    lemma_taken_step(orig, before, video_cache@, pts);
                    assert(set_views(sets@).drop_last() =~= set_views(old_sets));
                    lemma_sets_frames_push(set_views(old_sets), items_view);
                    broadcast use vstd::multiset::group_multiset_axioms;
                    assert(frames_of_sets(set_views(sets@)).add(recycled@.to_multiset()) =~= frames_of_sets(
                        set_views(old_sets),
                    ).add(recycled@.to_multiset()).add(items_view.to_multiset()));
                    states = new_states;
                    clocks = clocks.push(local_pts);

                    assert forall|i: int, j: int|
                        0 <= i < sets@.len() && 0 <= j < nb_streams implies orig[j]@.contains(
                        #[trigger] sets@[i]@[j],
                    ) by {
                        if i < old_sets.len() {
                            assert(sets@[i] == old_sets[i]);
                        }
                    }
                }
            },
            CollectStep::Incomplete(mut items) => {
                let ghost k = spec_earliest(before, total_duration)->0;
                let ghost pts = head_pts(before, k);
                proof {
                    lemma_due_at(before, pts);
                    lemma_frames_advanced(before, video_cache@, pts);
                    lemma_suffix_step(orig, before, video_cache@, pts);
                }
                let ghost old_recycled = recycled@;
                let ghost items_view = items@;
                recycled.append(&mut items);
                proof {
                    lemma_round_recorded(orig, before, video_cache@, states, clocks, nb_streams, start_pts, local_pts, total_duration, force_send);
                    assert(round_items(before, total_duration) == items_view);
                    let new_states = states.push(video_cache@);
                    assert(new_states.drop_last() =~= states);
                    assert(recycled@ =~= old_recycled + items_view);
                    lemma_taken_step(orig, before, video_cache@, pts);
                    vstd::seq_lib::lemma_multiset_commutative(old_recycled, items_view);
                    broadcast use vstd::multiset::group_multiset_axioms;
                    assert(frames_of_sets(set_views(sets@)).add(recycled@.to_multiset()) =~= frames_of_sets(
                        set_views(sets@),
                    ).add(old_recycled.to_multiset()).add(items_view.to_multiset()));
                    states = new_states;
                    clocks = clocks.push(local_pts);
                }
            },
        }
    }
}

/// The frames taken off the fronts of the queues `orig`, leaving `now`.
pub open spec fn taken_frames<B>(orig: Seq<Vec<CudaFrame<B>>>, now: Seq<Vec<CudaFrame<B>>>) -> Multiset<CudaFrame<B>>
    decreases orig.len(),
{
    if orig.len() == 0 {
        Multiset::empty()
    } else {
        taken_frames(orig.drop_last(), now.drop_last()).add(
            orig.last()@.take(orig.last()@.len() - now[orig.len() - 1]@.len()).to_multiset(),
        )
    }
}

/// The frames of all the sets together.
pub open spec fn frames_of_sets<B>(sets: Seq<Seq<CudaFrame<B>>>) -> Multiset<CudaFrame<B>>
    decreases sets.len(),
{
    if sets.len() == 0 {
        Multiset::empty()
    } else {
        frames_of_sets(sets.drop_last()).add(sets.last().to_multiset())
    }
}

/// A round that takes the heads with time `pts` off `before` adds exactly
/// those heads to the frames taken since `orig`.
proof fn lemma_taken_step<B>(
    orig: Seq<Vec<CudaFrame<B>>>,
    before: Seq<Vec<CudaFrame<B>>>,
    after: Seq<Vec<CudaFrame<B>>>,
    pts: i64,
)
    requires
        suffixes_of(orig, before),
        advanced(before, after, pts),
        forall|k: int| 0 <= k < before.len() ==> (#[trigger] before[k])@.len() > 0,
    ensures
        taken_frames(orig, after) == taken_frames(orig, before).add(due_at(before, pts).to_multiset()),
    decreases orig.len(),
{
    broadcast use vstd::seq_lib::group_to_multiset_ensures;
    broadcast use vstd::multiset::group_multiset_axioms;

    if orig.len() == 0 {
        assert(due_at(before, pts).to_multiset() =~= Multiset::empty());
        assert(taken_frames(orig, after) =~= taken_frames(orig, before).add(Multiset::empty()));
    } else {
        let n = orig.len() - 1;
        let po = orig.drop_last();
        let pb = before.drop_last();
        let pa = after.drop_last();
        assert forall|j: int| 0 <= j < po.len() implies (#[trigger] pb[j])@.len() <= po[j]@.len()
            && pb[j]@ == po[j]@.skip(po[j]@.len() - pb[j]@.len()) by {
            assert(pb[j] == before[j]);
            assert(po[j] == orig[j]);
        }
        assert forall|j: int| 0 <= j < pb.len() implies (#[trigger] pa[j])@ == if pb[j]@[0].pts == pts {
            pb[j]@.drop_first()
        } else {
            pb[j]@
        } by {
            assert(pa[j] == after[j]);
            assert(pb[j] == before[j]);
        }
        assert forall|k: int| 0 <= k < pb.len() implies (#[trigger] pb[k])@.len() > 0 by {
            assert(pb[k] == before[k]);
        }
        lemma_taken_step(po, pb, pa, pts);
        let o = orig[n]@;
        let b = before[n]@;
        let a = after[n]@;
        assert(orig.last() == orig[n]);
        assert(before.last() == before[n]);
        assert(b.len() > 0);
        assert(b == o.skip(o.len() - b.len()));
        let off = o.len() - b.len();
        if b[0].pts == pts {
            assert(o.take(o.len() - a.len()) =~= o.take(off).push(b[0]));
            assert(due_at(before, pts) == due_at(pb, pts).push(b[0]));
            assert(taken_frames(orig, after) =~= taken_frames(orig, before).add(
                due_at(before, pts).to_multiset(),
            ));
        } else {
            assert(due_at(before, pts) == due_at(pb, pts));
            assert(taken_frames(orig, after) =~= taken_frames(orig, before).add(
                due_at(before, pts).to_multiset(),
            ));
        }
    }
}

proof fn lemma_nothing_taken<B>(orig: Seq<Vec<CudaFrame<B>>>)
    ensures
        taken_frames(orig, orig) == Multiset::<CudaFrame<B>>::empty(),
    decreases orig.len(),
{
    broadcast use vstd::seq_lib::group_to_multiset_ensures;
    broadcast use vstd::multiset::group_multiset_axioms;

    if orig.len() > 0 {
        lemma_nothing_taken(orig.drop_last());
        let o = orig.last()@;
        assert(orig[orig.len() - 1] == orig.last());
        assert(o.take(0) =~= Seq::<CudaFrame<B>>::empty());
        assert(taken_frames(orig, orig) =~= Multiset::<CudaFrame<B>>::empty());
    }
}

proof fn lemma_sets_frames_push<B>(sets: Seq<Seq<CudaFrame<B>>>, items: Seq<CudaFrame<B>>)
    ensures
        frames_of_sets(sets.push(items)) == frames_of_sets(sets).add(items.to_multiset()),
{
    assert(sets.push(items).drop_last() =~= sets);
}

/// Recording one more round that took `before` to `after` keeps the record
/// of the rounds taken.
proof fn lemma_round_recorded<B>(
    orig: Seq<Vec<CudaFrame<B>>>,
    before: Seq<Vec<CudaFrame<B>>>,
    after: Seq<Vec<CudaFrame<B>>>,
    states: Seq<Seq<Vec<CudaFrame<B>>>>,
    clocks: Seq<i64>,
    nb_streams: usize,
    start_pts: i64,
    local_pts: i64,
    total_duration: i64,
    force_send: bool,
)
    requires
        rounds_taken(orig, before, states, clocks, nb_streams, start_pts, total_duration, force_send),
        round_takes(before, after, nb_streams, start_pts, local_pts, total_duration, force_send),
    ensures
        rounds_taken(
            orig,
            after,
            states.push(after),
            clocks.push(local_pts),
            nb_streams,
            start_pts,
            total_duration,
            force_send,
        ),
{
    let ns = states.push(after);
    let nc = clocks.push(local_pts);
    assert forall|i: int| 0 <= i < nc.len() implies round_takes(
        ns[i],
        ns[i + 1],
        nb_streams,
        start_pts,
        #[trigger] nc[i],
        total_duration,
        force_send,
    ) by {
        if i < clocks.len() {
            assert(nc[i] == clocks[i]);
            assert(ns[i] == states[i]);
            assert(ns[i + 1] == states[i + 1]);
        } else {
            assert(ns[i] == states.last());
        }
    }
}

proof fn lemma_suffix_step<B>(
    orig: Seq<Vec<CudaFrame<B>>>,
    before: Seq<Vec<CudaFrame<B>>>,
    after: Seq<Vec<CudaFrame<B>>>,
    pts: i64,
)
    requires
        suffixes_of(orig, before),
        advanced(before, after, pts),
        heads_ready(before),
    ensures
        suffixes_of(orig, after),
{
    assert forall|j: int| 0 <= j < orig.len() implies (#[trigger] after[j])@.len() <= orig[j]@.len()
        && after[j]@ == orig[j]@.skip(orig[j]@.len() - after[j]@.len()) by {
        assert(before[j]@.len() > 0);
        if before[j]@[0].pts == pts {
            assert(after[j]@ =~= orig[j]@.skip(orig[j]@.len() - after[j]@.len()));
        }
    }
}

/// The integer arithmetic of examining audio packet `a` stays in range: its
/// offset from the start of the timeline, the comparison with the clock, and,
/// when it is due, its drift from the clock.
pub open spec fn sample_checkable(a: AudioFrame, start_pts: i64, local_pts: i64, total_duration: i64) -> bool {
    let actual = a.pts - start_pts;
    &&& i64::MIN <= actual <= i64::MAX
    &&& earlier_defined(local_pts, actual as i64, total_duration)
    &&& !spec_earlier(local_pts as int, actual, total_duration as int) ==> i64::MIN <= a.pts
        - local_pts <= i64::MAX
}

/// Audio packet `a` is due for playback at `local_pts`.
pub open spec fn sample_due(a: AudioFrame, start_pts: i64, local_pts: i64, total_duration: i64) -> bool {
    !spec_earlier(local_pts as int, a.pts - start_pts, total_duration as int)
}

/// Whether an audio packet is due depends only on its offset from the origin
/// of the timeline: two packets at the same distance from their origins are
/// due at the same clock readings.
pub proof fn lemma_due_depends_on_offset(
    a: AudioFrame,
    a_start: i64,
    b: AudioFrame,
    b_start: i64,
    local_pts: i64,
    total_duration: i64,
)
    requires
        a.pts - a_start == b.pts - b_start,
    ensures
        sample_due(a, a_start, local_pts, total_duration) == sample_due(b, b_start, local_pts, total_duration),
{
}

/// A packet at the origin of the timeline is due at every clock reading from
/// the start of the loop to its end.
pub proof fn lemma_origin_packet_due(a: AudioFrame, start_pts: i64, local_pts: i64, total_duration: i64)
    requires
        a.pts == start_pts,
        0 <= local_pts <= total_duration,
    ensures
        sample_due(a, start_pts, local_pts, total_duration),
{
}

/// Where the queue starts with a packet at the origin of the timeline and the
/// clock reads within the loop (its drift from the clock fitting in 64 bits),
/// the release hands that packet to playback first.
pub proof fn lemma_origin_packet_released(
    local_pts: i64,
    start_pts: i64,
    total_duration: i64,
    before: Seq<AudioFrame>,
    after: Seq<AudioFrame>,
    r: SampleRelease,
)
    requires
        samples_released_at(local_pts, start_pts, total_duration, before, after, r),
        before.len() > 0,
        before[0].pts == start_pts,
        0 <= local_pts <= total_duration,
        i64::MIN <= start_pts - local_pts <= i64::MAX,
    ensures
        r.released@.len() >= 1,
        r.released@[0] == before[0],
{
    lemma_origin_packet_due(before[0], start_pts, local_pts, total_duration);
    assert(sample_checkable(before[0], start_pts, local_pts, total_duration));
    if r.released@.len() == 0 {
        assert(false);
    }
    assert(r.released@ == before.take(r.released@.len() as int));
}

/// The audio packets handed to playback, in order; the drift between the last
/// one's time and the clock; and whether the examination stopped on a packet
/// whose arithmetic would leave the 64-bit range.
pub struct SampleRelease {
    pub released: Vec<AudioFrame>,
    pub clock_drift: Option<i64>,
    pub overflow: bool,
}

/// What [`release_samples`] does to a queue `before`, leaving `after` and
/// returning `r`, when the clock reads `local_pts`: the due packets at the
/// front are released in order, the first packet that is not due stays at the
/// head, and the drift and overflow report on the last released and the first
/// kept packet.
pub open spec fn samples_released_at(
    local_pts: i64,
    start_pts: i64,
    total_duration: i64,
    before: Seq<AudioFrame>,
    after: Seq<AudioFrame>,
    r: SampleRelease,
) -> bool {
    let m = r.released@.len() as int;
    &&& m <= before.len()
    &&& r.released@ == before.take(m)
    &&& after == before.skip(m)
    &&& forall|i: int|
        0 <= i < m ==> sample_checkable(#[trigger] before[i], start_pts, local_pts, total_duration)
            && sample_due(before[i], start_pts, local_pts, total_duration)
    &&& m < before.len() ==> !(sample_checkable(before[m], start_pts, local_pts, total_duration)
        && sample_due(before[m], start_pts, local_pts, total_duration))
    &&& r.overflow <==> (m < before.len() && !sample_checkable(
        before[m],
        start_pts,
        local_pts,
        total_duration,
    ))
    &&& r.clock_drift == if m == 0 {
        None::<i64>
    } else {
        Some((before[m - 1].pts - local_pts) as i64)
    }
}

/// Takes every due packet off the front of the audio queue, in order, stopping
/// at the first packet that is not yet due at `local_pts`.
pub fn release_samples(
    local_pts: i64,
    start_pts: i64,
    total_duration: i64,
    audio_cache: &mut Vec<AudioFrame>,
) -> (r: SampleRelease)
    ensures
        ({
            let m = r.released@.len() as int;
            &&& m <= old(audio_cache)@.len()
            &&& r.released@ == old(audio_cache)@.take(m)
            &&& final(audio_cache)@ == old(audio_cache)@.skip(m)
            &&& forall|i: int|
                0 <= i < m ==> sample_checkable(
                    #[trigger] old(audio_cache)@[i],
                    start_pts,
                    local_pts,
                    total_duration,
                ) && sample_due(old(audio_cache)@[i], start_pts, local_pts, total_duration)
            &&& m < old(audio_cache)@.len() ==> !(sample_checkable(
                old(audio_cache)@[m],
                start_pts,
                local_pts,
                total_duration,
            ) && sample_due(old(audio_cache)@[m], start_pts, local_pts, total_duration))
            &&& r.overflow <==> (m < old(audio_cache)@.len() && !sample_checkable(
                old(audio_cache)@[m],
                start_pts,
                local_pts,
                total_duration,
            ))
            &&& r.clock_drift == if m == 0 {
                None::<i64>
            } else {
                Some((old(audio_cache)@[m - 1].pts - local_pts) as i64)
            }
        }),
{
    let ghost orig = audio_cache@;
    let mut released: Vec<AudioFrame> = Vec::new();
    let mut clock_drift: Option<i64> = None;
    while audio_cache.len() > 0
        invariant_except_break
            released@.len() <= orig.len(),
            released@ == orig.take(released@.len() as int),
            audio_cache@ == orig.skip(released@.len() as int),
            forall|i: int|
                0 <= i < released@.len() ==> sample_checkable(
                    #[trigger] orig[i],
                    start_pts,
                    local_pts,
                    total_duration,
                ) && sample_due(orig[i], start_pts, local_pts, total_duration),
            clock_drift == if released@.len() == 0 {
                None::<i64>
            } else {
                Some((orig[released@.len() - 1].pts - local_pts) as i64)
            },
        ensures
            released@.len() <= orig.len(),
            released@ == orig.take(released@.len() as int),
            audio_cache@ == orig.skip(released@.len() as int),
            forall|i: int|
                0 <= i < released@.len() ==> sample_checkable(
                    #[trigger] orig[i],
                    start_pts,
                    local_pts,
                    total_duration,
                ) && sample_due(orig[i], start_pts, local_pts, total_duration),
            released@.len() < orig.len() ==> !(sample_checkable(
                orig[released@.len() as int],
                start_pts,
                local_pts,
                total_duration,
            ) && sample_due(orig[released@.len() as int], start_pts, local_pts, total_duration)),
            clock_drift == if released@.len() == 0 {
                None::<i64>
            } else {
                Some((orig[released@.len() - 1].pts - local_pts) as i64)
            },
        decreases audio_cache@.len(),
    {
        let ghost m = released@.len() as int;
        let pts = audio_cache[0].pts;
        assert(orig[m] == audio_cache@[0]);
        let actual128: i128 = (pts as i128) - (start_pts as i128);
        if actual128 < (i64::MIN as i128) || actual128 > (i64::MAX as i128) {
            break;
        }
        let actual = pts - start_pts;
        if !earlier_is_defined(local_pts, actual, total_duration) {
            break;
        }
        if earlier(local_pts, actual, total_duration) {
            break;
        }
        let drift128: i128 = (pts as i128) - (local_pts as i128);
        if drift128 < (i64::MIN as i128) || drift128 > (i64::MAX as i128) {
            break;
        }
        clock_drift = Some(pts - local_pts);
        let frame = audio_cache.remove(0);
        released.push(frame);
        proof {
            assert(released@ =~= orig.take(m + 1));
            assert(audio_cache@ =~= orig.skip(m + 1));
        }
    }
    let ghost m = released@.len() as int;
    let overflow = if audio_cache.len() == 0 {
        false
    } else {
        let pts = audio_cache[0].pts;
        assert(orig[m] == audio_cache@[0]);
        let actual128: i128 = (pts as i128) - (start_pts as i128);
        if actual128 < (i64::MIN as i128) || actual128 > (i64::MAX as i128) {
            true
        } else {
            let actual = pts - start_pts;
            if !earlier_is_defined(local_pts, actual, total_duration) {
                true
            } else if earlier(local_pts, actual, total_duration) {
                false
            } else {
                let drift128: i128 = (pts as i128) - (local_pts as i128);
                drift128 < (i64::MIN as i128) || drift128 > (i64::MAX as i128)
            }
        }
    };
    SampleRelease { released, clock_drift, overflow }
}

/// Reads the clock (milliseconds since `start_time`) once and releases the due
/// audio packets, as [`release_samples`] describes: the outcome is what
/// [`release_samples`] gives at some reading of the clock.  Whatever the clock
/// reads, the released packets followed by what stays queued are the packets
/// that were queued, in order.
pub fn collect_samples(
    start_time: &std::time::Instant,
    start_pts: i64,
    total_duration: i64,
    audio_cache: &mut Vec<AudioFrame>,
) -> (r: SampleRelease)
    ensures
        r.released@ + final(audio_cache)@ == old(audio_cache)@,
        r.clock_drift is Some <==> r.released@.len() > 0,
        exists|local_pts: i64|
            #[trigger] samples_released_at(
                local_pts,
                start_pts,
                total_duration,
                old(audio_cache)@,
                final(audio_cache)@,
                r,
            ),
{
    let local_pts = elapsed_ms(start_time);
    let r = release_samples(local_pts, start_pts, total_duration, audio_cache);
    proof {
        let m = r.released@.len() as int;
        assert(old(audio_cache)@.take(m) + old(audio_cache)@.skip(m) =~= old(audio_cache)@);
        assert(samples_released_at(
            local_pts,
            start_pts,
            total_duration,
            old(audio_cache)@,
            audio_cache@,
            r,
        ));
    }
    r
}

} // verus!
