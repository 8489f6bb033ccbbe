use vstd::prelude::*;
use crate::ranges::DownloadRange;

verus! {

/// Why the metadata of a resource cannot be had.
#[derive(Clone, Copy, Debug, PartialEq, Eq, Structural)]
pub enum MetadataError {
    /// No `Content-Disposition` header, or no usable `filename=` in it.
    MissingFilename,
    /// No `Content-Length`.
    MissingSize,
}

/// Name, size and final location of the resource to fetch.
#[derive(Clone, Debug, PartialEq, Eq)]
pub struct FileInfo {
    pub file_name: Vec<u8>,
    pub file_size: u64,
    pub url: String,
}

/// The bytes of `filename=`.
pub open spec fn filename_key() -> Seq<u8> {
    seq![102u8, 105u8, 108u8, 101u8, 110u8, 97u8, 109u8, 101u8, 61u8]
}

pub open spec fn key_at(s: Seq<u8>, i: int) -> bool {
    0 <= i && i + 9 <= s.len() && s.subrange(i, i + 9) == filename_key()
}

/// The first position at or after `from` where `filename=` starts, or -1.
pub open spec fn find_from(s: Seq<u8>, from: int) -> int
    decreases s.len() - from,
{
    if from < 0 || from + 9 > s.len() {
        -1
    } else if key_at(s, from) {
        from
    } else {
        find_from(s, from + 1)
    }
}

proof fn lemma_find_from(s: Seq<u8>, from: int)
    ensures
        find_from(s, from) == -1 || (from <= find_from(s, from) && key_at(s, find_from(s, from))),
    decreases s.len() - from,
{
    if !(from < 0 || from + 9 > s.len()) && !key_at(s, from) {
        lemma_find_from(s, from + 1);
    }
}

/// `s` with every double quote removed.
pub open spec fn strip_quotes(s: Seq<u8>) -> Seq<u8>
    decreases s.len(),
{
    if s.len() == 0 {
        Seq::empty()
    } else if s.last() == 34u8 {
        strip_quotes(s.drop_last())
    } else {
        strip_quotes(s.drop_last()).push(s.last())
    }
}

/// A byte that a header value may hold to be read as text: visible ASCII
/// or a tab.
pub open spec fn header_byte_ok(b: u8) -> bool {
    (32 <= b && b <= 126) || b == 9
}

/// Whether every byte of `h` can be read as header text.
pub open spec fn readable_header(h: Seq<u8>) -> bool {
    forall|k: int| 0 <= k < h.len() ==> header_byte_ok(#[trigger] h[k])
}

/// The file name that a `Content-Disposition` value gives: the text between
/// the first `filename=` and the next one (or the end), without quotes; none
/// when the value is not readable text or has no `filename=`.
pub open spec fn file_name_spec(h: Seq<u8>) -> Option<Seq<u8>> {
    let i = find_from(h, 0);
    if !readable_header(h) || i < 0 {
        None
    } else {
        let j = find_from(h, i + 9);
        let end = if j < 0 { h.len() as int } else { j };
        Some(strip_quotes(h.subrange(i + 9, end)))
    }
}

fn readable_header_exec(h: &[u8]) -> (r: bool)
    ensures
        r == readable_header(h@),
{
    let mut k: usize = 0;
    while k < h.len()
        invariant
            k <= h@.len(),
            forall|m: int| 0 <= m < k ==> header_byte_ok(#[trigger] h@[m]),
        decreases h.len() - k,
    {
        let b = h[k];
        if !((32u8 <= b && b <= 126u8) || b == 9u8) {
            return false;
        }
        k = k + 1;
    }
    true
}

fn key_at_exec(s: &[u8], i: usize) -> (r: bool)
    ensures
        r == key_at(s@, i as int),
{
    if i > s.len() || s.len() - i < 9 {
        return false;
    }
    let r = s[i] == 102u8 && s[i + 1] == 105u8 && s[i + 2] == 108u8 && s[i + 3] == 101u8 && s[i
        + 4] == 110u8 && s[i + 5] == 97u8 && s[i + 6] == 109u8 && s[i + 7] == 101u8 && s[i + 8]
        == 61u8;
    proof {
        let sub = s@.subrange(i as int, i + 9);
        if r {
            assert(sub =~= filename_key());
        } else if sub == filename_key() {
            assert(sub[0] == s@[i as int] && sub[1] == s@[i + 1] && sub[2] == s@[i + 2]);
            assert(sub[3] == s@[i + 3] && sub[4] == s@[i + 4] && sub[5] == s@[i + 5]);
            assert(sub[6] == s@[i + 6] && sub[7] == s@[i + 7] && sub[8] == s@[i + 8]);
        }
    }
    r
}

fn find_key(s: &[u8], from: usize) -> (r: Option<usize>)
    ensures
        r is None <==> find_from(s@, from as int) == -1,
        r is Some ==> r->Some_0 == find_from(s@, from as int),
        r is Some ==> from <= r->Some_0 && r->Some_0 + 9 <= s@.len(),
{
    proof {
        lemma_find_from(s@, from as int);
    }
    let mut i: usize = from;
    while i <= s.len() && s.len() - i >= 9
        invariant
            from <= i,
            find_from(s@, from as int) == find_from(s@, i as int),
        decreases s.len() - i,
    {
        if key_at_exec(s, i) {
            return Some(i);
        }
        i = i + 1;
    }
    None
}

/// The file name in a `Content-Disposition` value.
pub fn file_name_from_disposition(h: &[u8]) -> (r: Option<Vec<u8>>)
    ensures
        r is Some <==> file_name_spec(h@) is Some,
        r is Some ==> file_name_spec(h@) == Some(r->Some_0@),
{
    if !readable_header_exec(h) {
        return None;
    }
    let i = match find_key(h, 0) {
        Some(i) => i,
        None => {
            return None;
        },
    };
    let len = h.len();
    let end: usize = match find_key(h, i + 9) {
        Some(j) => j,
        None => len,
    };
    let ghost piece = h@.subrange(i + 9, end as int);
    let mut name: Vec<u8> = Vec::new();
    let mut k: usize = i + 9;
    while k < end
        invariant
            i + 9 <= k <= end <= h@.len(),
            piece == h@.subrange(i + 9, end as int),
            name@ == strip_quotes(h@.subrange(i + 9, k as int)),
        decreases end - k,
    {
        proof {
            assert(h@.subrange(i + 9, k + 1).drop_last() =~= h@.subrange(i + 9, k as int));
        }
        let c = h[k];
        if c != 34u8 {
            name.push(c);
        }
        k = k + 1;
    }
    Some(name)
}

/// Checks the headers of the first response: the name comes from
/// `Content-Disposition`, the size from `Content-Length`, and the location
/// is the one reached after redirects.
pub fn resolve(disposition: Option<&[u8]>, content_length: Option<u64>, url: String) -> (r: Result<
    FileInfo,
    MetadataError,
>)
    ensures
        r is Err && r->Err_0 == MetadataError::MissingFilename <==> (disposition is None
            || file_name_spec(disposition->Some_0@) is None),
        r is Err && r->Err_0 == MetadataError::MissingSize <==> (disposition is Some
            && file_name_spec(disposition->Some_0@) is Some && content_length is None),
        r is Ok ==> {
            &&& file_name_spec(disposition->Some_0@) == Some(r->Ok_0.file_name@)
            &&& content_length == Some(r->Ok_0.file_size)
            &&& r->Ok_0.url@ == url@
        },
{
    let name = match disposition {
        Some(h) => match file_name_from_disposition(h) {
            Some(n) => n,
            None => {
                return Err(MetadataError::MissingFilename);
            },
        },
        None => {
            return Err(MetadataError::MissingFilename);
        },
    };
    match content_length {
        Some(size) => Ok(FileInfo { file_name: name, file_size: size, url }),
        None => Err(MetadataError::MissingSize),
    }
}

/// Decimal digits of `n`, most significant first.
pub open spec fn decimal(n: nat) -> Seq<u8>
    decreases n,
{
    if n < 10 {
        seq![(48 + n) as u8]
    } else {
        decimal(n / 10).push((48 + n % 10) as u8)
    }
}

fn push_decimal(out: &mut Vec<u8>, n: u64)
    ensures
        final(out)@ == old(out)@ + decimal(n as nat),
    decreases n,
{
    if n >= 10 {
        push_decimal(out, n / 10);
    }
    out.push(48u8 + (n % 10) as u8);
    assert(out@ =~= old(out)@ + decimal(n as nat));
}

/// The bytes of `bytes=`.
pub open spec fn bytes_prefix() -> Seq<u8> {
    seq![98u8, 121u8, 116u8, 101u8, 115u8, 61u8]
}

/// The value of the `Range` header for a non-empty window: HTTP ranges name
/// their last byte, so the window `[start, end)` asks for `start-(end-1)`.
pub open spec fn range_header_spec(r: DownloadRange) -> Seq<u8> {
    bytes_prefix() + decimal(r.start as nat) + seq![45u8] + decimal((r.end - 1) as nat)
}

/// Builds the `Range` header value that asks for exactly the bytes of `r`.
pub fn range_header(r: DownloadRange) -> (h: Vec<u8>)
    requires
        r.start < r.end,
    ensures
        h@ == range_header_spec(r),
{
    let mut h: Vec<u8> = Vec::new();
    h.push(98u8);
    h.push(121u8);
    h.push(116u8);
    h.push(101u8);
    h.push(115u8);
    h.push(61u8);
    assert(h@ =~= bytes_prefix());
    push_decimal(&mut h, r.start);
    h.push(45u8);
    push_decimal(&mut h, r.end - 1);
    assert(h@ =~= range_header_spec(r));
    h
}

} // verus!
