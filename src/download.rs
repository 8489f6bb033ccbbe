use vstd::prelude::*;
use crate::ranges::{DownloadRange, PlanError, plan, plan_windows, block_size, lemma_block_fits};
use crate::segment::{
    Action, Event, Phase, Segment, seg_wf, fresh, next_segment, next_action, pending_action,
    window_len, lemma_next_counts, lemma_write_in_window, window_matches, write_event,
    lemma_write_event,
};

verus! {

/// The outcome of a whole run, once every segment is terminal.
#[derive(Clone, Debug, PartialEq, Eq)]
pub enum DownloadOutcome {
    AllSucceeded,
    /// The windows of the segments that exhausted their attempts, in order.
    Failed(Vec<DownloadRange>),
}

/// How the output file is to be opened before the segments start.
#[derive(Clone, Copy, Debug, PartialEq, Eq, Structural)]
pub enum OutputAction {
    /// No file is there: create it.
    Create,
    /// A file is there and may be replaced: truncate it.
    Truncate,
}

/// Why the output file cannot be opened.
#[derive(Clone, Copy, Debug, PartialEq, Eq, Structural)]
pub enum OutputError {
    /// A file is there and replacing it was not allowed.
    AlreadyExists,
}

/// Decides how to open the output file: an existing file is only replaced
/// when the caller allowed it.
pub fn prepare_output(exists: bool, overwrite: bool) -> (r: Result<OutputAction, OutputError>)
    ensures
        !exists ==> r == Ok::<OutputAction, OutputError>(OutputAction::Create),
        exists && overwrite ==> r == Ok::<OutputAction, OutputError>(OutputAction::Truncate),
        exists && !overwrite ==> r == Err::<OutputAction, OutputError>(OutputError::AlreadyExists),
{
    if !exists {
        Ok(OutputAction::Create)
    } else if overwrite {
        Ok(OutputAction::Truncate)
    } else {
        Err(OutputError::AlreadyExists)
    }
}

/// The state of a whole run: one state per segment, the global progress
/// counter, and the size of the file.
pub struct Download {
    segments: Vec<Segment>,
    global: u64,
    file_size: u64,
}

pub struct DownloadView {
    pub segments: Seq<Segment>,
    pub global: int,
    pub file_size: int,
}

impl View for Download {
    type V = DownloadView;

    closed spec fn view(&self) -> DownloadView {
        DownloadView {
            segments: self.segments@,
            global: self.global as int,
            file_size: self.file_size as int,
        }
    }
}

/// Bytes written by the current attempts of all segments of `s`.
pub open spec fn sum_written(s: Seq<Segment>) -> int
    decreases s.len(),
{
    if s.len() == 0 {
        0
    } else {
        sum_written(s.drop_last()) + s.last().written
    }
}

/// Total length of the windows of `s`.
pub open spec fn sum_len(s: Seq<Segment>) -> int
    decreases s.len(),
{
    if s.len() == 0 {
        0
    } else {
        sum_len(s.drop_last()) + window_len(s.last().range)
    }
}

/// The windows of `s` follow each other without gap or overlap from byte 0.
pub open spec fn contiguous(s: Seq<Segment>) -> bool {
    &&& s.len() > 0 ==> s[0].range.start == 0
    &&& forall|i: int| 0 <= i < s.len() - 1 ==> #[trigger] s[i].range.end == s[i + 1].range.start
}

/// The windows of the segments of `s` that exhausted their attempts.
pub open spec fn failed_ranges(s: Seq<Segment>) -> Seq<DownloadRange>
    decreases s.len(),
{
    if s.len() == 0 {
        Seq::empty()
    } else if s.last().phase is Exhausted {
        failed_ranges(s.drop_last()).push(s.last().range)
    } else {
        failed_ranges(s.drop_last())
    }
}

pub open spec fn terminal(s: Segment) -> bool {
    s.phase is Succeeded || s.phase is Exhausted
}

pub open spec fn all_terminal(s: Seq<Segment>) -> bool {
    forall|i: int| 0 <= i < s.len() ==> terminal(#[trigger] s[i])
}

impl DownloadView {
    /// Well-formed run: a partition of `[0, file_size)` into segments, each
    /// well formed, and a global counter equal to the sum of the segments'.
    pub open spec fn wf(&self) -> bool {
        &&& self.segments.len() > 0
        &&& contiguous(self.segments)
        &&& self.segments.last().range.end == self.file_size
        &&& forall|i: int| 0 <= i < self.segments.len() ==> seg_wf(#[trigger] self.segments[i])
        &&& self.global == sum_written(self.segments)
        &&& self.file_size <= u64::MAX
    }
}

proof fn lemma_sum_update(s: Seq<Segment>, i: int, x: Segment)
    requires
        0 <= i < s.len(),
    ensures
        sum_written(s.update(i, x)) == sum_written(s) - s[i].written + x.written,
        sum_len(s.update(i, x)) == sum_len(s) - window_len(s[i].range) + window_len(x.range),
    decreases s.len(),
{
    let t = s.update(i, x);
    if i == s.len() - 1 {
        assert(t.drop_last() =~= s.drop_last());
    } else {
        assert(t.drop_last() =~= s.drop_last().update(i, x));
        lemma_sum_update(s.drop_last(), i, x);
    }
}

proof fn lemma_sum_bounded(s: Seq<Segment>)
    requires
        forall|i: int| 0 <= i < s.len() ==> seg_wf(#[trigger] s[i]),
    ensures
        0 <= sum_written(s) <= sum_len(s),
    decreases s.len(),
{
    if s.len() > 0 {
        assert(seg_wf(s[s.len() - 1]));
        lemma_sum_bounded(s.drop_last());
    }
}

proof fn lemma_sum_nonneg(s: Seq<Segment>)
    ensures
        sum_written(s) >= 0,
    decreases s.len(),
{
    if s.len() > 0 {
        lemma_sum_nonneg(s.drop_last());
    }
}

proof fn lemma_sum_len_contiguous(s: Seq<Segment>)
    requires
        s.len() > 0,
        contiguous(s),
    ensures
        sum_len(s) == s.last().range.end,
    decreases s.len(),
{
    let t = s.drop_last();
    if s.len() > 1 {
        assert(s[s.len() - 2].range.end == s[s.len() - 1].range.start);
        assert(t[t.len() - 1] == s[s.len() - 2]);
        assert(contiguous(t)) by {
            assert forall|k: int| 0 <= k < t.len() - 1 implies #[trigger] t[k].range.end
                == t[k + 1].range.start by {
                assert(s[k].range.end == s[k + 1].range.start);
            }
        }
        lemma_sum_len_contiguous(t);
    } else {
        assert(sum_len(t) == 0);
    }
}

proof fn lemma_written_fits(v: DownloadView)
    requires
        v.wf(),
    ensures
        0 <= v.global <= v.file_size,
{
    lemma_sum_bounded(v.segments);
    lemma_sum_len_contiguous(v.segments);
}

/// Whatever event segment `i` of a well-formed run receives, the run stays
/// well formed: the global counter is again the sum of the segments'
/// counters, also when the event rolls back a failed attempt.
pub proof fn lemma_progress_consistent(before: DownloadView, i: int, ev: Event, after: DownloadView)
    requires
        before.wf(),
        0 <= i < before.segments.len(),
        after.file_size == before.file_size,
        after.segments == before.segments.update(i, next_segment(before.segments[i], ev)),
        after.global == before.global - before.segments[i].written + next_segment(
            before.segments[i],
            ev,
        ).written,
    ensures
        after.wf(),
        after.global == sum_written(after.segments),
        0 <= after.global <= after.file_size,
{
    let n = next_segment(before.segments[i], ev);
    assert(seg_wf(before.segments[i]));
    lemma_next_counts(before.segments[i], ev);
    lemma_sum_update(before.segments, i, n);
    let u = after.segments;
    assert forall|k: int| 0 <= k < u.len() implies seg_wf(#[trigger] u[k]) by {
        if k != i {
            assert(seg_wf(before.segments[k]));
        }
    }
    assert(contiguous(u)) by {
        assert forall|k: int| 0 <= k < u.len() - 1 implies #[trigger] u[k].range.end == u[k
            + 1].range.start by {
            assert(before.segments[k].range.end == before.segments[k + 1].range.start);
        }
    }
    lemma_sum_bounded(u);
    lemma_sum_len_contiguous(u);
}

proof fn lemma_windows_ordered(s: Seq<Segment>, i: int, j: int)
    requires
        contiguous(s),
        forall|k: int| 0 <= k < s.len() ==> seg_wf(#[trigger] s[k]),
        0 <= i < j < s.len(),
    ensures
        s[i].range.end <= s[j].range.start,
    decreases j - i,
{
    assert(s[j - 1].range.end == s[j].range.start);
    if i < j - 1 {
        lemma_windows_ordered(s, i, j - 1);
        assert(seg_wf(s[j - 1]));
    }
}

/// In a well-formed run, the writes that two different segments ask for
/// never overlap, so the segments can share the output file unguarded.
pub proof fn lemma_writes_disjoint(v: DownloadView, i: int, j: int, ev_i: Event, ev_j: Event)
    requires
        v.wf(),
        0 <= i < v.segments.len(),
        0 <= j < v.segments.len(),
        i != j,
        next_action(v.segments[i], ev_i) is Write,
        next_action(v.segments[j], ev_j) is Write,
    ensures
        ({
            let a = next_action(v.segments[i], ev_i);
            let b = next_action(v.segments[j], ev_j);
            a->Write_offset + a->Write_len <= b->Write_offset || b->Write_offset + b->Write_len
                <= a->Write_offset
        }),
{
    assert(seg_wf(v.segments[i]));
    assert(seg_wf(v.segments[j]));
    lemma_write_in_window(v.segments[i], ev_i);
    lemma_write_in_window(v.segments[j], ev_j);
    if i < j {
        lemma_windows_ordered(v.segments, i, j);
    } else {
        lemma_windows_ordered(v.segments, j, i);
    }
}

/// The bytes written so far by the current attempts of all segments hold
/// the source's bytes.
pub open spec fn content_ok(v: DownloadView, file: Seq<u8>, src: Seq<u8>) -> bool {
    forall|i: int| 0 <= i < v.segments.len() ==> window_matches(#[trigger] v.segments[i], file, src)
}

/// Whatever segment of a well-formed run receives an event, with every chunk
/// holding the source's bytes at the cursor, the bytes counted by every
/// segment still hold the source's bytes: a write of one segment never
/// spoils another's.
pub proof fn lemma_content_step(
    v: DownloadView,
    i: int,
    ev: Event,
    file: Seq<u8>,
    src: Seq<u8>,
)
    requires
        v.wf(),
        0 <= i < v.segments.len(),
        file.len() == v.file_size,
        content_ok(v, file, src),
    ensures
        content_ok(
            DownloadView {
                segments: v.segments.update(i, next_segment(v.segments[i], ev)),
                ..v
            },
            write_event(v.segments[i], ev, file, src),
            src,
        ),
        write_event(v.segments[i], ev, file, src).len() == file.len(),
{
    let s = v.segments;
    let f2 = write_event(s[i], ev, file, src);
    assert(seg_wf(s[i]));
    assert(s[i].range.end <= file.len()) by {
        if i < s.len() - 1 {
            lemma_windows_ordered(s, i, s.len() - 1);
            assert(seg_wf(s[s.len() - 1]));
        }
    }
    assert(window_matches(s[i], file, src));
    lemma_write_event(s[i], ev, file, src);
    let u = s.update(i, next_segment(s[i], ev));
    assert forall|j: int| 0 <= j < u.len() implies window_matches(#[trigger] u[j], f2, src) by {
        if j != i {
            assert(seg_wf(s[j]));
            assert(window_matches(s[j], file, src));
            if j < i {
                lemma_windows_ordered(s, j, i);
            } else {
                lemma_windows_ordered(s, i, j);
                if j < s.len() - 1 {
                    lemma_windows_ordered(s, j, s.len() - 1);
                    assert(seg_wf(s[s.len() - 1]));
                }
            }
            assert forall|k: int| s[j].range.start <= k < s[j].range.start + s[j].written implies #[trigger] f2[k]
                == src[k] by {
                assert(file[k] == src[k]);
            }
        }
    }
}

proof fn lemma_window_of(s: Seq<Segment>, k: int) -> (i: int)
    requires
        s.len() > 0,
        contiguous(s),
        0 <= k < s.last().range.end,
    ensures
        0 <= i < s.len(),
        s[i].range.start <= k < s[i].range.end,
    decreases s.len(),
{
    if k >= s.last().range.start {
        s.len() - 1
    } else {
        assert(s[0].range.start == 0);
        assert(s.len() > 1);
        let t = s.drop_last();
        assert(s[s.len() - 2].range.end == s[s.len() - 1].range.start);
        assert(t[t.len() - 1] == s[s.len() - 2]);
        assert(contiguous(t)) by {
            assert forall|m: int| 0 <= m < t.len() - 1 implies #[trigger] t[m].range.end
                == t[m + 1].range.start by {
                assert(s[m].range.end == s[m + 1].range.start);
            }
        }
        lemma_window_of(t, k)
    }
}

/// When every segment of a well-formed run succeeded and the bytes they
/// counted hold the source's bytes, the file is the source, byte for byte.
pub proof fn lemma_all_succeeded_is_source(v: DownloadView, file: Seq<u8>, src: Seq<u8>)
    requires
        v.wf(),
        file.len() == v.file_size,
        src.len() == v.file_size,
        content_ok(v, file, src),
        forall|i: int| 0 <= i < v.segments.len() ==> (#[trigger] v.segments[i]).phase is Succeeded,
    ensures
        file == src,
{
    assert forall|k: int| 0 <= k < file.len() implies file[k] == src[k] by {
        let i = lemma_window_of(v.segments, k);
        assert(seg_wf(v.segments[i]));
        assert(window_matches(v.segments[i], file, src));
    }
    assert(file =~= src);
}

/// A segment that exhausted its attempts has its window in the run's list
/// of failed windows.
pub proof fn lemma_exhausted_reported(s: Seq<Segment>, i: int)
    requires
        0 <= i < s.len(),
        s[i].phase is Exhausted,
    ensures
        failed_ranges(s).contains(s[i].range),
    decreases s.len(),
{
    if i < s.len() - 1 {
        lemma_exhausted_reported(s.drop_last(), i);
        let f = failed_ranges(s.drop_last());
        let k = choose|k: int| 0 <= k < f.len() && f[k] == s[i].range;
        if s.last().phase is Exhausted {
            assert(failed_ranges(s)[k] == s[i].range);
        }
    } else {
        let f = failed_ranges(s);
        assert(f[f.len() - 1] == s[i].range);
    }
}

impl Download {
    /// Plans a run of `segment_count` segments over `file_size` bytes; no
    /// segment has started. Fails when no segment is asked for.
    pub fn start(file_size: u64, segment_count: u8) -> (r: Result<Download, PlanError>)
        ensures
            segment_count == 0 <==> r is Err,
            r is Err ==> r->Err_0 == PlanError::ZeroSegments,
            r is Ok ==> {
                let v = r->Ok_0@;
                &&& v.wf()
                &&& v.file_size == file_size
                &&& v.global == 0
                &&& v.segments == plan_windows(file_size, segment_count).map_values(
                    |w: DownloadRange| fresh(w),
                )
            },
    {
        let windows = match plan(file_size, segment_count) {
            Ok(w) => w,
            Err(e) => {
                return Err(e);
            },
        };
        let ghost n = segment_count as int;
        let ghost b = block_size(file_size, segment_count);
        proof {
            assert(b >= 0) by (nonlinear_arith)
                requires b == file_size as int / n, n > 0;
        }
        let mut segments: Vec<Segment> = Vec::new();
        let mut i: usize = 0;
        while i < windows.len()
            invariant
                windows@ == plan_windows(file_size, segment_count),
                n == segment_count,
                n > 0,
                b == block_size(file_size, segment_count),
                b >= 0,
                i <= windows@.len(),
                segments@.len() == i,
                forall|k: int| 0 <= k < i ==> #[trigger] segments@[k] == fresh(windows@[k]),
                sum_written(segments@) == 0,
            decreases windows.len() - i,
        {
            proof {
                lemma_block_fits(file_size, segment_count, i as int);
                lemma_block_fits(file_size, segment_count, i as int + 1);
                assert(i * b <= (i + 1) * b) by (nonlinear_arith)
                    requires b >= 0, i >= 0;
                assert(segments@.push(fresh(windows@[i as int])).drop_last() =~= segments@);
            }
            let s = Segment::new(windows[i]);
            segments.push(s);
            i = i + 1;
        }
        let d = Download { segments, global: 0, file_size };
        proof {
            let s = d.segments@;
            assert(s =~= plan_windows(file_size, segment_count).map_values(
                |w: DownloadRange| fresh(w),
            ));
            assert forall|k: int| 0 <= k < s.len() - 1 implies #[trigger] s[k].range.end
                == s[k + 1].range.start by {
                lemma_block_fits(file_size, segment_count, k + 1);
            }
            lemma_block_fits(file_size, segment_count, 0);
            assert(s.len() > 0);
            assert(s[0].range.start == 0);
            assert(s.last().range.end == file_size);
            assert forall|k: int| 0 <= k < s.len() implies seg_wf(#[trigger] s[k]) by {
                lemma_block_fits(file_size, segment_count, k);
                lemma_block_fits(file_size, segment_count, k + 1);
                assert(k * b <= (k + 1) * b) by (nonlinear_arith)
                    requires b >= 0, k >= 0;
            }
            assert(d@.wf());
        }
        Ok(d)
    }

    /// Feeds `ev` to segment `i`; the other segments are untouched and the
    /// global counter moves by exactly the change of the segment's counter,
    /// so it stays the sum of the segments' counters.
    pub fn step(&mut self, i: usize, ev: Event) -> (a: Action)
        requires
            old(self)@.wf(),
            i < old(self)@.segments.len(),
        ensures
            final(self)@.wf(),
            final(self)@.file_size == old(self)@.file_size,
            final(self)@.segments == old(self)@.segments.update(
                i as int,
                next_segment(old(self)@.segments[i as int], ev),
            ),
            final(self)@.global == old(self)@.global - old(self)@.segments[i as int].written
                + next_segment(old(self)@.segments[i as int], ev).written,
            a == next_action(old(self)@.segments[i as int], ev),
            a is Connect || a is Backoff ==> old(self)@.segments[i as int].range.start < old(
                self,
            )@.segments[i as int].range.end,
    {
        let s = self.segments[i];
        proof {
            assert(seg_wf(self@.segments[i as int]));
        }
        let (n, a) = s.next(ev);
        let ghost old_v = self@;
        proof {
            lemma_sum_update(old_v.segments, i as int, Segment { written: 0, ..s });
            lemma_sum_nonneg(old_v.segments.update(i as int, Segment { written: 0, ..s }));
            lemma_progress_consistent(
                old_v,
                i as int,
                ev,
                DownloadView {
                    segments: old_v.segments.update(i as int, n),
                    global: old_v.global - s.written + n.written,
                    file_size: old_v.file_size,
                },
            );
        }
        self.global = self.global - s.written + n.written;
        self.segments.set(i, n);
        proof {
            assert(self@.segments =~= old_v.segments.update(i as int, n));
        }
        a
    }

    /// What segment `i` waits for its driver to do.
    pub fn action(&self, i: usize) -> (a: Action)
        requires
            self@.wf(),
            i < self@.segments.len(),
        ensures
            a == pending_action(self@.segments[i as int]),
            a is Connect ==> self@.segments[i as int].range.start < self@.segments[i as int].range.end,
    {
        proof {
            assert(seg_wf(self@.segments[i as int]));
        }
        self.segments[i].action()
    }

    /// Number of segments of the run.
    pub fn segment_count(&self) -> (n: usize)
        ensures
            n == self@.segments.len(),
    {
        self.segments.len()
    }

    /// The state of segment `i`.
    pub fn segment(&self, i: usize) -> (s: Segment)
        requires
            i < self@.segments.len(),
        ensures
            s == self@.segments[i as int],
    {
        self.segments[i]
    }

    /// Bytes written by the current attempt of segment `i`.
    pub fn segment_position(&self, i: usize) -> (p: u64)
        requires
            i < self@.segments.len(),
        ensures
            p == self@.segments[i as int].written,
    {
        self.segments[i].written
    }

    /// Bytes written by the current attempts of all segments.
    pub fn global_position(&self) -> (p: u64)
        ensures
            p == self@.global,
    {
        self.global
    }

    /// The length the output file is given before any write.
    pub fn file_len(&self) -> (n: u64)
        ensures
            n == self@.file_size,
    {
        self.file_size
    }

    /// The outcome of the run: none while a segment is still working, else
    /// success when no segment gave up, else the windows of those that did.
    pub fn outcome(&self) -> (r: Option<DownloadOutcome>)
        ensures
            r is None <==> !all_terminal(self@.segments),
            r is Some ==> (r->Some_0 is AllSucceeded <==> failed_ranges(self@.segments).len() == 0),
            r is Some && r->Some_0 is Failed ==> r->Some_0->Failed_0@ == failed_ranges(
                self@.segments,
            ),
    {
        let mut failed: Vec<DownloadRange> = Vec::new();
        let mut i: usize = 0;
        while i < self.segments.len()
            invariant
                i <= self@.segments.len(),
                failed@ == failed_ranges(self@.segments.subrange(0, i as int)),
                forall|k: int| 0 <= k < i ==> terminal(#[trigger] self@.segments[k]),
            decreases self.segments.len() - i,
        {
            let s = self.segments[i];
            proof {
                assert(self@.segments.subrange(0, i + 1).drop_last() =~= self@.segments.subrange(
                    0,
                    i as int,
                ));
            }
            match s.phase {
                Phase::Succeeded => {},
                Phase::Exhausted => {
                    failed.push(s.range);
                },
                _ => {
                    return None;
                },
            }
            i = i + 1;
        }
        proof {
            assert(self@.segments.subrange(0, i as int) =~= self@.segments);
        }
        if failed.len() == 0 {
            Some(DownloadOutcome::AllSucceeded)
        } else {
            Some(DownloadOutcome::Failed(failed))
        }
    }
}

} // verus!
