use vstd::prelude::*;
use crate::ranges::DownloadRange;

verus! {

/// How many attempts a segment gets before it gives up.
pub const MAX_TRIES: u32 = 5;

/// Seconds to wait between two attempts of a segment.
pub const BACKOFF_SECS: u64 = 3;

/// Where a segment stands in its retry cycle.
#[derive(Clone, Copy, Debug, PartialEq, Eq, Structural)]
pub enum Phase {
    /// Waiting for the answer to its range request.
    Connecting,
    /// Reading the body of the response.
    Streaming,
    /// A chunk of `len` bytes is being written at the cursor.
    Writing { len: u64 },
    /// Every byte of the window was written.
    Succeeded,
    /// Every attempt failed.
    Exhausted,
}

/// What the driver of a segment reports back.
#[derive(Clone, Copy, Debug, PartialEq, Eq, Structural)]
pub enum Event {
    /// The range request was answered with this HTTP status.
    Connected { status: u16 },
    /// The range request failed at the transport level.
    ConnectFailed,
    /// A body chunk of `len` bytes arrived.
    Chunk { len: u64 },
    /// The pending chunk was written.
    Written,
    /// Writing the pending chunk failed.
    WriteFailed,
    /// Reading the body failed.
    BodyFailed,
    /// The body ended.
    StreamEnded,
}

/// What the driver of a segment must do next.
#[derive(Clone, Copy, Debug, PartialEq, Eq, Structural)]
pub enum Action {
    /// Send the range request for the segment's window.
    Connect,
    /// Read the next body chunk.
    Read,
    /// Write the pending chunk, `len` bytes at file offset `offset`.
    Write { offset: u64, len: u64 },
    /// Mark the segment as errored, wait `BACKOFF_SECS`, then connect again.
    Backoff,
    /// The segment reached a terminal phase.
    Finish,
}

/// The state of one segment: its window, the attempts that failed, the
/// bytes written by the current attempt, and its phase.
#[derive(Clone, Copy, Debug, PartialEq, Eq, Structural)]
pub struct Segment {
    pub range: DownloadRange,
    pub attempts: u32,
    pub written: u64,
    pub phase: Phase,
    pub errored: bool,
}

pub open spec fn window_len(r: DownloadRange) -> int {
    r.end - r.start
}

/// Well-formed segment state.
pub open spec fn seg_wf(s: Segment) -> bool {
    &&& s.range.start <= s.range.end
    &&& s.written <= window_len(s.range)
    &&& s.attempts <= MAX_TRIES
    &&& (s.phase is Exhausted <==> s.attempts == MAX_TRIES)
    &&& match s.phase {
        Phase::Connecting => s.written == 0 && s.range.start < s.range.end,
        Phase::Streaming => s.range.start < s.range.end,
        Phase::Writing { len } => s.written + len <= window_len(s.range) && s.range.start
            < s.range.end,
        Phase::Succeeded => s.written == window_len(s.range),
        Phase::Exhausted => s.written == 0,
    }
}

/// A segment as it stands before its first attempt; an empty window has
/// nothing to fetch and is done at once.
pub open spec fn fresh(r: DownloadRange) -> Segment {
    Segment {
        range: r,
        attempts: 0,
        written: 0,
        phase: if r.start == r.end { Phase::Succeeded } else { Phase::Connecting },
        errored: false,
    }
}

/// A response carries the window: a partial answer, or a full answer when
/// the window starts the file.
pub open spec fn accepts_status(r: DownloadRange, status: u16) -> bool {
    status == 206 || (status == 200 && r.start == 0)
}

/// Whether `ev` ends the current attempt of `s` in failure.
pub open spec fn is_failure(s: Segment, ev: Event) -> bool {
    match s.phase {
        Phase::Connecting => match ev {
            Event::ConnectFailed => true,
            Event::Connected { status } => !accepts_status(s.range, status),
            _ => false,
        },
        Phase::Streaming => match ev {
            Event::BodyFailed => true,
            Event::Chunk { len } => s.written + len > window_len(s.range),
            Event::StreamEnded => s.written < window_len(s.range),
            _ => false,
        },
        Phase::Writing { .. } => ev is WriteFailed,
        _ => false,
    }
}

/// The state after a failed attempt: its bytes are rolled back, and the
/// segment either waits for another attempt or gives up.
pub open spec fn after_failure(s: Segment) -> Segment {
    Segment {
        written: 0,
        attempts: (s.attempts + 1) as u32,
        phase: if s.attempts + 1 >= MAX_TRIES { Phase::Exhausted } else { Phase::Connecting },
        errored: true,
        ..s
    }
}

/// The state that `ev` leads to from `s`; an event that the phase does not
/// wait for changes nothing.
pub open spec fn next_segment(s: Segment, ev: Event) -> Segment {
    if is_failure(s, ev) {
        after_failure(s)
    } else {
        match (s.phase, ev) {
            (Phase::Connecting, Event::Connected { .. }) => Segment { phase: Phase::Streaming, ..s },
            (Phase::Streaming, Event::Chunk { len }) => Segment { phase: Phase::Writing { len }, ..s },
            (Phase::Writing { len }, Event::Written) => Segment {
                phase: Phase::Streaming,
                written: (s.written + len) as u64,
                ..s
            },
            (Phase::Streaming, Event::StreamEnded) => Segment {
                phase: Phase::Succeeded,
                errored: false,
                ..s
            },
            _ => s,
        }
    }
}

/// What a segment in state `s` waits for its driver to do.
pub open spec fn pending_action(s: Segment) -> Action {
    match s.phase {
        Phase::Connecting => Action::Connect,
        Phase::Streaming => Action::Read,
        Phase::Writing { len } => Action::Write { offset: (s.range.start + s.written) as u64, len },
        _ => Action::Finish,
    }
}

/// The action that follows `ev` in state `s`.
pub open spec fn next_action(s: Segment, ev: Event) -> Action {
    if is_failure(s, ev) && after_failure(s).phase is Connecting {
        Action::Backoff
    } else {
        pending_action(next_segment(s, ev))
    }
}

/// The state reached from `s` after the events `evs`, in order.
pub open spec fn run(s: Segment, evs: Seq<Event>) -> Segment
    decreases evs.len(),
{
    if evs.len() == 0 {
        s
    } else {
        next_segment(run(s, evs.drop_last()), evs.last())
    }
}

/// How many of the events `evs`, fed to `s` in order, end an attempt in failure.
pub open spec fn failed_attempts(s: Segment, evs: Seq<Event>) -> nat
    decreases evs.len(),
{
    if evs.len() == 0 {
        0
    } else {
        failed_attempts(s, evs.drop_last()) + if is_failure(run(s, evs.drop_last()), evs.last()) {
            1nat
        } else {
            0nat
        }
    }
}

pub(crate) proof fn lemma_next_counts(s: Segment, ev: Event)
    requires
        seg_wf(s),
    ensures
        seg_wf(next_segment(s, ev)),
        next_segment(s, ev).range == s.range,
        next_segment(s, ev).attempts == s.attempts + if is_failure(s, ev) {
            1int
        } else {
            0int
        },
{
}

proof fn lemma_run_counts(s: Segment, evs: Seq<Event>)
    requires
        seg_wf(s),
    ensures
        seg_wf(run(s, evs)),
        run(s, evs).range == s.range,
        run(s, evs).attempts == s.attempts + failed_attempts(s, evs),
    decreases evs.len(),
{
    if evs.len() > 0 {
        lemma_run_counts(s, evs.drop_last());
        lemma_next_counts(run(s, evs.drop_last()), evs.last());
    }
}

/// A segment whose attempts all fail, `MAX_TRIES` of them, whatever events
/// come in between, ends exhausted, with its bytes rolled back, still on its
/// own window.
pub proof fn lemma_exhausts_after_max_tries(r: DownloadRange, evs: Seq<Event>)
    requires
        r.start <= r.end,
        failed_attempts(fresh(r), evs) == MAX_TRIES,
    ensures
        run(fresh(r), evs).phase is Exhausted,
        run(fresh(r), evs).written == 0,
        run(fresh(r), evs).range == r,
{
    lemma_run_counts(fresh(r), evs);
}

/// The file after `ev` reaches `s`, when every chunk holds the bytes of
/// `src` at the cursor: a completed write puts them in place.
pub open spec fn write_event(s: Segment, ev: Event, file: Seq<u8>, src: Seq<u8>) -> Seq<u8> {
    match s.phase {
        Phase::Writing { len } => if ev is Written {
            let a = s.range.start + s.written;
            Seq::new(file.len(), |k: int| if a <= k < a + len { src[k] } else { file[k] })
        } else {
            file
        },
        _ => file,
    }
}

/// The file after the events `evs`, fed in order to `s`.
pub open spec fn run_file(s: Segment, evs: Seq<Event>, file: Seq<u8>, src: Seq<u8>) -> Seq<u8>
    decreases evs.len(),
{
    if evs.len() == 0 {
        file
    } else {
        write_event(
            run(s, evs.drop_last()),
            evs.last(),
            run_file(s, evs.drop_last(), file, src),
            src,
        )
    }
}

/// The bytes that the current attempt of `s` wrote hold the source's bytes.
pub open spec fn window_matches(s: Segment, file: Seq<u8>, src: Seq<u8>) -> bool {
    forall|k: int| s.range.start <= k < s.range.start + s.written ==> #[trigger] file[k] == src[k]
}

pub(crate) proof fn lemma_write_event(s: Segment, ev: Event, file: Seq<u8>, src: Seq<u8>)
    requires
        seg_wf(s),
        window_matches(s, file, src),
        s.range.end <= file.len(),
    ensures
        window_matches(next_segment(s, ev), write_event(s, ev, file, src), src),
        write_event(s, ev, file, src).len() == file.len(),
        forall|k: int|
            0 <= k < file.len() && !(s.range.start <= k < s.range.end) ==> #[trigger] write_event(
                s,
                ev,
                file,
                src,
            )[k] == file[k],
{
}

proof fn lemma_run_file(s: Segment, evs: Seq<Event>, file: Seq<u8>, src: Seq<u8>)
    requires
        seg_wf(s),
        window_matches(s, file, src),
        s.range.end <= file.len(),
    ensures
        window_matches(run(s, evs), run_file(s, evs, file, src), src),
        run_file(s, evs, file, src).len() == file.len(),
        forall|k: int|
            0 <= k < file.len() && !(s.range.start <= k < s.range.end) ==> #[trigger] run_file(
                s,
                evs,
                file,
                src,
            )[k] == file[k],
    decreases evs.len(),
{
    if evs.len() > 0 {
        let p = evs.drop_last();
        lemma_run_file(s, p, file, src);
        lemma_run_counts(s, p);
        lemma_write_event(run(s, p), evs.last(), run_file(s, p, file, src), src);
    }
}

/// Whatever attempts fail on the way, a segment that ends in success, with
/// every chunk holding the source's bytes at the cursor, leaves its whole
/// window equal to the source and every byte outside it untouched.
pub proof fn lemma_success_fills_window(
    r: DownloadRange,
    evs: Seq<Event>,
    file: Seq<u8>,
    src: Seq<u8>,
)
    requires
        r.start <= r.end,
        r.end <= file.len(),
        run(fresh(r), evs).phase is Succeeded,
    ensures
        forall|k: int| r.start <= k < r.end ==> #[trigger] run_file(fresh(r), evs, file, src)[k]
            == src[k],
        forall|k: int|
            0 <= k < file.len() && !(r.start <= k < r.end) ==> #[trigger] run_file(
                fresh(r),
                evs,
                file,
                src,
            )[k] == file[k],
{
    lemma_run_counts(fresh(r), evs);
    lemma_run_file(fresh(r), evs, file, src);
}

/// Every write that a segment asks for lies inside its own window.
pub proof fn lemma_write_in_window(s: Segment, ev: Event)
    requires
        seg_wf(s),
        next_action(s, ev) is Write,
    ensures
        s.range.start <= next_action(s, ev)->Write_offset,
        next_action(s, ev)->Write_offset + next_action(s, ev)->Write_len <= s.range.end,
{
    lemma_next_counts(s, ev);
}

impl Segment {
    /// The segment for window `r` before its first attempt.
    pub fn new(r: DownloadRange) -> (s: Segment)
        ensures
            s == fresh(r),
    {
        Segment {
            range: r,
            attempts: 0,
            written: 0,
            phase: if r.start == r.end { Phase::Succeeded } else { Phase::Connecting },
            errored: false,
        }
    }

    /// What the segment waits for its driver to do.
    pub fn action(&self) -> (a: Action)
        requires
            seg_wf(*self),
        ensures
            a == pending_action(*self),
            a is Connect ==> self.range.start < self.range.end,
    {
        match self.phase {
            Phase::Connecting => Action::Connect,
            Phase::Streaming => Action::Read,
            Phase::Writing { len } => Action::Write { offset: self.range.start + self.written, len },
            _ => Action::Finish,
        }
    }

    fn fail(&self) -> (s: Segment)
        requires
            seg_wf(*self),
            !(self.phase is Succeeded),
            !(self.phase is Exhausted),
        ensures
            s == after_failure(*self),
    {
        let attempts = self.attempts + 1;
        Segment {
            written: 0,
            attempts,
            phase: if attempts >= MAX_TRIES { Phase::Exhausted } else { Phase::Connecting },
            errored: true,
            ..*self
        }
    }

    /// One step of the retry state machine: the next state and action.
    pub fn next(&self, ev: Event) -> (r: (Segment, Action))
        requires
            seg_wf(*self),
        ensures
            r.0 == next_segment(*self, ev),
            r.1 == next_action(*self, ev),
            seg_wf(r.0),
    {
        let len = self.range.end - self.range.start;
        let n = match self.phase {
            Phase::Connecting => match ev {
                Event::ConnectFailed => self.fail(),
                Event::Connected { status } => {
                    if status == 206 || (status == 200 && self.range.start == 0) {
                        Segment { phase: Phase::Streaming, ..*self }
                    } else {
                        self.fail()
                    }
                },
                _ => *self,
            },
            Phase::Streaming => match ev {
                Event::BodyFailed => self.fail(),
                Event::Chunk { len: c } => {
                    if c > len - self.written {
                        self.fail()
                    } else {
                        Segment { phase: Phase::Writing { len: c }, ..*self }
                    }
                },
                Event::StreamEnded => {
                    if self.written < len {
                        self.fail()
                    } else {
                        Segment { phase: Phase::Succeeded, errored: false, ..*self }
                    }
                },
                _ => *self,
            },
            Phase::Writing { len: c } => match ev {
                Event::WriteFailed => self.fail(),
                Event::Written => Segment {
                    phase: Phase::Streaming,
                    written: self.written + c,
                    ..*self
                },
                _ => *self,
            },
            _ => *self,
        };
        let failed = n.attempts != self.attempts;
        let a = if failed && n.phase == Phase::Connecting {
            Action::Backoff
        } else {
            n.action()
        };
        (n, a)
    }
}

} // verus!
