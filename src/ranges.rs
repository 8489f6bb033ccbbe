use vstd::prelude::*;

verus! {

/// A half-open byte window `[start, end)` of the remote file.
#[derive(Clone, Copy, Debug, PartialEq, Eq, Structural)]
pub struct DownloadRange {
    pub start: u64,
    pub end: u64,
}

/// Why a download plan cannot be made.
#[derive(Clone, Copy, Debug, PartialEq, Eq, Structural)]
pub enum PlanError {
    /// A plan needs at least one segment.
    ZeroSegments,
}

/// Size of every segment but the last, which also takes the remainder.
pub open spec fn block_size(file_size: u64, threads: u8) -> int {
    file_size as int / threads as int
}

/// The `i`-th window of the plan for `file_size` bytes in `threads` segments.
pub open spec fn range_at(file_size: u64, threads: u8, i: int) -> (u64, u64) {
    let b = block_size(file_size, threads);
    (
        (i * b) as u64,
        if i == threads - 1 { file_size } else { ((i + 1) * b) as u64 },
    )
}

/// The whole plan as a sequence of `(start, end)` pairs.
pub open spec fn plan_spec(file_size: u64, threads: u8) -> Seq<(u64, u64)> {
    Seq::new(threads as nat, |i: int| range_at(file_size, threads, i))
}

pub(crate) proof fn lemma_block_fits(file_size: u64, threads: u8, i: int)
    requires
        threads > 0,
        0 <= i <= threads,
    ensures
        0 <= i * block_size(file_size, threads) <= file_size,
{
    let b = block_size(file_size, threads);
    let n = threads as int;
    let f = file_size as int;
    assert(0 <= b) by (nonlinear_arith)
        requires b == f / n, n > 0, f >= 0;
    assert(n * b <= f) by (nonlinear_arith)
        requires b == f / n, n > 0, f >= 0;
    assert(0 <= i * b <= n * b) by (nonlinear_arith)
        requires 0 <= i <= n, b >= 0;
}

/// Splits `file_size` bytes into `threads` contiguous windows; the last one
/// absorbs the remainder of the division.
pub fn get_download_ranges(file_size: u64, threads: u8) -> (r: Vec<(u64, u64)>)
    requires
        threads > 0,
    ensures
        r@ == plan_spec(file_size, threads),
{
    let mut ranges: Vec<(u64, u64)> = Vec::new();
    let block: u64 = file_size / threads as u64;
    let mut i: u8 = 0;
    while i < threads
        invariant
            threads > 0,
            i <= threads,
            block == block_size(file_size, threads),
            ranges@.len() == i,
            forall|k: int| 0 <= k < i ==> ranges@[k] == range_at(file_size, threads, k),
        decreases threads - i,
    {
        proof {
            lemma_block_fits(file_size, threads, i as int);
            lemma_block_fits(file_size, threads, i as int + 1);
        }
        let start: u64 = i as u64 * block;
        let end: u64 = if i == threads - 1 {
            file_size
        } else {
            (i as u64 + 1) * block
        };
        ranges.push((start, end));
        i = i + 1;
    }
    assert(ranges@ =~= plan_spec(file_size, threads));
    ranges
}

/// The plan as typed windows, with a zero segment count rejected up front.
pub open spec fn plan_windows(file_size: u64, segment_count: u8) -> Seq<DownloadRange> {
    plan_spec(file_size, segment_count).map_values(
        |p: (u64, u64)| DownloadRange { start: p.0, end: p.1 },
    )
}

/// Plans the segments of a download; fails, before anything else happens,
/// when no segment is asked for.
pub fn plan(file_size: u64, segment_count: u8) -> (r: Result<Vec<DownloadRange>, PlanError>)
    ensures
        segment_count == 0 <==> r == Err::<Vec<DownloadRange>, PlanError>(PlanError::ZeroSegments),
        r is Ok ==> r->Ok_0@ == plan_windows(file_size, segment_count),
{
    if segment_count == 0 {
        return Err(PlanError::ZeroSegments);
    }
    let pairs = get_download_ranges(file_size, segment_count);
    let mut out: Vec<DownloadRange> = Vec::new();
    let mut i: usize = 0;
    while i < pairs.len()
        invariant
            pairs@ == plan_spec(file_size, segment_count),
            i <= pairs@.len(),
            out@.len() == i,
            forall|k: int| 0 <= k < i ==> out@[k] == plan_windows(file_size, segment_count)[k],
        decreases pairs.len() - i,
    {
        let p = pairs[i];
        out.push(DownloadRange { start: p.0, end: p.1 });
        i = i + 1;
    }
    assert(out@ =~= plan_windows(file_size, segment_count));
    Ok(out)
}

/// Whether byte `x` lies in the window `p`.
pub open spec fn in_window(p: (u64, u64), x: int) -> bool {
    p.0 <= x < p.1
}

/// Whether byte `x` lies in some window of `s`.
pub open spec fn covered(s: Seq<(u64, u64)>, x: int) -> bool {
    exists|i: int| 0 <= i < s.len() && #[trigger] in_window(s[i], x)
}

/// For a non-empty file and between one and `file_size` segments, the plan
/// has exactly `threads` windows, each non-empty, with strictly increasing
/// starts, pairwise disjoint, and together covering `[0, file_size)` exactly.
pub proof fn lemma_plan_partitions(file_size: u64, threads: u8)
    requires
        file_size > 0,
        1 <= threads,
        threads as int <= file_size as int,
    ensures
        plan_spec(file_size, threads).len() == threads,
        plan_spec(file_size, threads)[0].0 == 0,
        plan_spec(file_size, threads)[threads - 1].1 == file_size,
        forall|i: int|
            0 <= i < threads ==> #[trigger] plan_spec(file_size, threads)[i].0 < plan_spec(
                file_size,
                threads,
            )[i].1,
        forall|i: int, j: int|
            0 <= i < j < threads ==> plan_spec(file_size, threads)[i].0 < plan_spec(
                file_size,
                threads,
            )[j].0 && plan_spec(file_size, threads)[i].1 <= plan_spec(file_size, threads)[j].0,
        forall|x: int| 0 <= x < file_size <==> #[trigger] covered(plan_spec(file_size, threads), x),
{
    let n = threads as int;
    let f = file_size as int;
    let b = block_size(file_size, threads);
    let s = plan_spec(file_size, threads);
    assert(b >= 1) by (nonlinear_arith)
        requires b == f / n, 1 <= n <= f;
    assert(n * b <= f) by (nonlinear_arith)
        requires b == f / n, n > 0, f >= 0;
    assert forall|i: int| 0 <= i < n implies s[i].0 == i * b && s[i].1 == (if i == n - 1 {
        f
    } else {
        (i + 1) * b
    }) by {
        lemma_block_fits(file_size, threads, i);
        lemma_block_fits(file_size, threads, i + 1);
    }
    assert forall|i: int| 0 <= i < n implies #[trigger] s[i].0 < s[i].1 by {
        if i == n - 1 {
            assert((n - 1) * b < f) by (nonlinear_arith)
                requires n * b <= f, b >= 1;
        } else {
            assert(i * b < (i + 1) * b) by (nonlinear_arith)
                requires b >= 1;
        }
    }
    assert forall|i: int, j: int| 0 <= i < j < n implies s[i].0 < s[j].0 && s[i].1 <= s[j].0 by {
        assert(i * b < j * b) by (nonlinear_arith)
            requires i < j, b >= 1;
        assert((i + 1) * b <= j * b) by (nonlinear_arith)
            requires i + 1 <= j, b >= 1;
    }
    assert forall|x: int| 0 <= x < f <==> #[trigger] covered(s, x) by {
        if 0 <= x < f {
            let q = x / b;
            assert(q * b <= x < (q + 1) * b && q >= 0) by (nonlinear_arith)
                requires q == x / b, b >= 1, x >= 0;
            let w = if q < n - 1 { q } else { n - 1 };
            if q >= n - 1 {
                assert((n - 1) * b <= q * b) by (nonlinear_arith)
                    requires q >= n - 1, b >= 1;
            }
            assert(0 <= w < n && in_window(s[w], x));
        }
        if covered(s, x) {
            let i = choose|i: int| 0 <= i < s.len() && #[trigger] in_window(s[i], x);
            assert(i * b >= 0) by (nonlinear_arith)
                requires i >= 0, b >= 1;
            if i < n - 1 {
                assert((i + 1) * b <= n * b) by (nonlinear_arith)
                    requires i + 1 <= n, b >= 1;
            }
        }
    }
}

/// Planning is a pure function of its inputs: two plans made from the same
/// size and segment count are the same sequence of windows.
pub proof fn lemma_plan_deterministic(
    first: Seq<(u64, u64)>,
    second: Seq<(u64, u64)>,
    file_size: u64,
    threads: u8,
)
    requires
        first == plan_spec(file_size, threads),
        second == plan_spec(file_size, threads),
    ensures
        first == second,
{
}

} // verus!
