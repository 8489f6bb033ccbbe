use segfetch::download::{prepare_output, Download, DownloadOutcome, OutputAction, OutputError};
use segfetch::ranges::{DownloadRange, PlanError};
use segfetch::segment::{Action, Event, Phase, Segment, MAX_TRIES};

fn positions_sum(d: &Download) -> u64 {
    (0..d.segment_count()).map(|i| d.segment_position(i)).sum()
}

#[test]
fn start_rejects_zero_segments() {
    assert!(matches!(Download::start(1200, 0), Err(PlanError::ZeroSegments)));
}

#[test]
fn start_plans_fresh_segments() {
    let d = Download::start(1200, 3).unwrap();
    assert_eq!(d.segment_count(), 3);
    assert_eq!(d.file_len(), 1200);
    assert_eq!(d.global_position(), 0);
    assert_eq!(d.segment(1).range, DownloadRange { start: 400, end: 800 });
    assert_eq!(d.segment(1).phase, Phase::Connecting);
    assert_eq!(d.action(2), Action::Connect);
    assert_eq!(d.outcome(), None);
}

#[test]
fn empty_window_needs_no_request() {
    let d = Download::start(2, 3).unwrap();
    assert_eq!(d.action(0), Action::Finish);
    assert_eq!(d.action(2), Action::Connect);
}

#[test]
fn chunk_is_written_at_cursor() {
    let mut d = Download::start(1200, 3).unwrap();
    assert_eq!(d.step(2, Event::Connected { status: 206 }), Action::Read);
    assert_eq!(d.step(2, Event::Chunk { len: 50 }), Action::Write { offset: 800, len: 50 });
    assert_eq!(d.step(2, Event::Written), Action::Read);
    assert_eq!(d.step(2, Event::Chunk { len: 10 }), Action::Write { offset: 850, len: 10 });
    assert_eq!(d.segment_position(2), 50);
    assert_eq!(d.global_position(), 50);
}

#[test]
fn failure_rolls_back_progress() {
    let mut d = Download::start(1200, 3).unwrap();
    for i in 0..3 {
        d.step(i, Event::Connected { status: 206 });
        d.step(i, Event::Chunk { len: 30 });
        d.step(i, Event::Written);
    }
    assert_eq!(d.global_position(), 90);
    assert_eq!(d.step(1, Event::BodyFailed), Action::Backoff);
    assert_eq!(d.segment_position(1), 0);
    assert_eq!(d.global_position(), 60);
    assert!(d.segment(1).errored);
    assert_eq!(d.segment(1).attempts, 1);
    assert_eq!(d.action(1), Action::Connect);
    assert_eq!(d.step(0, Event::Chunk { len: 5 }), Action::Write { offset: 30, len: 5 });
    assert_eq!(d.step(0, Event::WriteFailed), Action::Backoff);
    assert_eq!(d.global_position(), 30);
    assert_eq!(d.global_position(), positions_sum(&d));
}

#[test]
fn sum_of_positions_is_global_after_every_event() {
    let mut d = Download::start(1000, 4).unwrap();
    let events = [
        (0, Event::Connected { status: 206 }),
        (1, Event::ConnectFailed),
        (0, Event::Chunk { len: 100 }),
        (0, Event::Written),
        (2, Event::Connected { status: 206 }),
        (2, Event::Chunk { len: 250 }),
        (2, Event::Written),
        (2, Event::StreamEnded),
        (0, Event::BodyFailed),
        (3, Event::Written),
        (1, Event::Connected { status: 404 }),
        (3, Event::Connected { status: 206 }),
        (3, Event::Chunk { len: 400 }),
    ];
    for (i, ev) in events {
        d.step(i, ev);
        assert_eq!(d.global_position(), positions_sum(&d));
    }
    assert_eq!(d.global_position(), 250);
    assert_eq!(d.segment(2).phase, Phase::Succeeded);
    assert_eq!(d.segment(3).attempts, 1);
}

#[test]
fn wrong_status_fails_attempt() {
    let mut d = Download::start(1200, 3).unwrap();
    assert_eq!(d.step(1, Event::Connected { status: 200 }), Action::Backoff);
    assert_eq!(d.step(0, Event::Connected { status: 200 }), Action::Read);
    assert_eq!(d.step(2, Event::Connected { status: 500 }), Action::Backoff);
}

#[test]
fn oversized_or_short_body_fails_attempt() {
    let mut d = Download::start(1200, 3).unwrap();
    d.step(0, Event::Connected { status: 206 });
    assert_eq!(d.step(0, Event::Chunk { len: 401 }), Action::Backoff);
    d.step(1, Event::Connected { status: 206 });
    d.step(1, Event::Chunk { len: 399 });
    d.step(1, Event::Written);
    assert_eq!(d.step(1, Event::StreamEnded), Action::Backoff);
    assert_eq!(d.global_position(), 0);
}

#[test]
fn exhausted_segment_is_reported_and_siblings_succeed() {
    let mut d = Download::start(1200, 3).unwrap();
    for i in [0usize, 2] {
        d.step(i, Event::Connected { status: 206 });
        d.step(i, Event::Chunk { len: 400 });
        d.step(i, Event::Written);
        assert_eq!(d.step(i, Event::StreamEnded), Action::Finish);
    }
    for k in 0..MAX_TRIES {
        let a = d.step(1, Event::ConnectFailed);
        if k + 1 < MAX_TRIES {
            assert_eq!(a, Action::Backoff);
            assert_eq!(d.outcome(), None);
        } else {
            assert_eq!(a, Action::Finish);
        }
    }
    assert_eq!(d.segment(1).phase, Phase::Exhausted);
    assert_eq!(d.segment(0).phase, Phase::Succeeded);
    assert_eq!(d.segment(2).phase, Phase::Succeeded);
    assert_eq!(
        d.outcome(),
        Some(DownloadOutcome::Failed(vec![DownloadRange { start: 400, end: 800 }]))
    );
    assert_eq!(d.step(1, Event::Connected { status: 206 }), Action::Finish);
}

#[test]
fn all_succeeded_outcome() {
    let mut d = Download::start(10, 1).unwrap();
    d.step(0, Event::Connected { status: 200 });
    d.step(0, Event::Chunk { len: 10 });
    d.step(0, Event::Written);
    assert_eq!(d.step(0, Event::StreamEnded), Action::Finish);
    assert_eq!(d.outcome(), Some(DownloadOutcome::AllSucceeded));
    assert_eq!(d.global_position(), 10);
}

#[test]
fn segment_machine_by_itself() {
    let s = Segment::new(DownloadRange { start: 5, end: 9 });
    assert_eq!(s.action(), Action::Connect);
    let (s, a) = s.next(Event::Connected { status: 206 });
    assert_eq!(a, Action::Read);
    let (s, a) = s.next(Event::Chunk { len: 4 });
    assert_eq!(a, Action::Write { offset: 5, len: 4 });
    let (s, a) = s.next(Event::Written);
    assert_eq!((s.written, a), (4, Action::Read));
    let (s, a) = s.next(Event::StreamEnded);
    assert_eq!((s.phase, a), (Phase::Succeeded, Action::Finish));
}

#[test]
fn output_file_decision() {
    assert_eq!(prepare_output(false, false), Ok(OutputAction::Create));
    assert_eq!(prepare_output(false, true), Ok(OutputAction::Create));
    assert_eq!(prepare_output(true, true), Ok(OutputAction::Truncate));
    assert_eq!(prepare_output(true, false), Err(OutputError::AlreadyExists));
}

/// Drives segment `i` against `source`, writing into `file`; the attempt
/// given by `fail_after` breaks once that many bytes were written.
fn drive(d: &mut Download, i: usize, source: &[u8], file: &mut [u8], chunk: usize, fail_after: Option<u64>) {
    let mut fail_after = fail_after;
    let mut served: usize = 0;
    let mut pending: Vec<u8> = Vec::new();
    let mut action = d.action(i);
    loop {
        let range = d.segment(i).range;
        let ev = match action {
            Action::Connect => {
                served = range.start as usize;
                Event::Connected { status: 206 }
            }
            Action::Read => {
                if fail_after.is_some_and(|n| d.segment_position(i) >= n) {
                    fail_after = None;
                    Event::BodyFailed
                } else if served == range.end as usize {
                    Event::StreamEnded
                } else {
                    let to = (served + chunk).min(range.end as usize);
                    pending = source[served..to].to_vec();
                    served = to;
                    Event::Chunk { len: pending.len() as u64 }
                }
            }
            Action::Write { offset, len } => {
                let o = offset as usize;
                file[o..o + len as usize].copy_from_slice(&pending);
                Event::Written
            }
            Action::Backoff => {
                action = Action::Connect;
                continue;
            }
            Action::Finish => return,
        };
        action = d.step(i, ev);
        let sum: u64 = (0..d.segment_count()).map(|k| d.segment_position(k)).sum();
        assert_eq!(d.global_position(), sum);
        assert!(d.global_position() <= 1200);
    }
}

#[test]
fn three_segments_with_middle_retry() {
    let source: Vec<u8> = (0..1200u32).map(|i| (i * 7 % 251) as u8).collect();
    let mut file = vec![0u8; 1200];
    let mut d = Download::start(1200, 3).unwrap();
    assert_eq!(d.file_len(), 1200);
    drive(&mut d, 0, &source, &mut file, 64, None);
    drive(&mut d, 1, &source, &mut file, 50, Some(100));
    assert_eq!(d.segment(1).attempts, 1);
    drive(&mut d, 2, &source, &mut file, 128, None);
    assert_eq!(d.outcome(), Some(DownloadOutcome::AllSucceeded));
    assert_eq!(file, source);
    assert_eq!(d.global_position(), 1200);
}
