use segfetch::ranges::{get_download_ranges, plan, DownloadRange, PlanError};

#[test]
fn plan_thousand_in_three() {
    assert_eq!(get_download_ranges(1000, 3), vec![(0, 333), (333, 666), (666, 1000)]);
}

#[test]
fn plan_single_segment() {
    assert_eq!(get_download_ranges(10, 1), vec![(0, 10)]);
}

#[test]
fn plan_partitions_file() {
    for (size, n) in [(1u64, 1u8), (7, 7), (1000, 3), (1001, 24), (255, 255), (u64::MAX, 200)] {
        let r = get_download_ranges(size, n);
        assert_eq!(r.len(), n as usize);
        assert_eq!(r[0].0, 0);
        assert_eq!(r[r.len() - 1].1, size);
        for i in 0..r.len() {
            assert!(r[i].0 < r[i].1);
            if i + 1 < r.len() {
                assert_eq!(r[i].1, r[i + 1].0);
            }
        }
    }
}

#[test]
fn plan_is_repeatable() {
    assert_eq!(get_download_ranges(123456, 24), get_download_ranges(123456, 24));
    assert_eq!(plan(99, 4), plan(99, 4));
}

#[test]
fn plan_rejects_zero_segments() {
    assert_eq!(plan(1000, 0), Err(PlanError::ZeroSegments));
}

#[test]
fn plan_gives_typed_windows() {
    assert_eq!(
        plan(10, 3),
        Ok(vec![
            DownloadRange { start: 0, end: 3 },
            DownloadRange { start: 3, end: 6 },
            DownloadRange { start: 6, end: 10 },
        ])
    );
}

#[test]
fn plan_more_segments_than_bytes() {
    assert_eq!(get_download_ranges(2, 3), vec![(0, 0), (0, 0), (0, 2)]);
    assert_eq!(get_download_ranges(0, 2), vec![(0, 0), (0, 0)]);
}
