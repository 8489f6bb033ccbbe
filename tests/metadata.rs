use segfetch::metadata::{file_name_from_disposition, range_header, resolve, FileInfo, MetadataError};
use segfetch::ranges::DownloadRange;

#[test]
fn name_without_quotes() {
    assert_eq!(
        file_name_from_disposition(b"attachment; filename=\"data.bin\""),
        Some(b"data.bin".to_vec())
    );
    assert_eq!(file_name_from_disposition(b"attachment; filename=a.iso"), Some(b"a.iso".to_vec()));
}

#[test]
fn name_stops_at_second_key() {
    assert_eq!(
        file_name_from_disposition(b"filename=\"x\"; filename=y"),
        Some(b"x; ".to_vec())
    );
}

#[test]
fn name_missing() {
    assert_eq!(file_name_from_disposition(b"attachment"), None);
    assert_eq!(file_name_from_disposition(b""), None);
}

#[test]
fn empty_quoted_name_is_returned() {
    assert_eq!(file_name_from_disposition(b"attachment; filename=\"\""), Some(Vec::new()));
    assert_eq!(
        resolve(Some(&b"attachment; filename=\"\""[..]), Some(3), "http://h/f".to_string()),
        Ok(FileInfo { file_name: Vec::new(), file_size: 3, url: "http://h/f".to_string() })
    );
}

#[test]
fn header_not_readable_as_text() {
    assert_eq!(file_name_from_disposition(b"attachment; filename=a\xffb"), None);
    assert_eq!(file_name_from_disposition(b"attachment\x01; filename=ab"), None);
    assert_eq!(file_name_from_disposition(b"attachment;\tfilename=ab"), Some(b"ab".to_vec()));
    assert_eq!(
        resolve(Some(&b"attachment; filename=\xff.bin"[..]), Some(3), "http://h/f".to_string()),
        Err(MetadataError::MissingFilename)
    );
}

#[test]
fn missing_disposition_is_missing_filename() {
    assert_eq!(
        resolve(None, Some(1200), "http://h/f".to_string()),
        Err(MetadataError::MissingFilename)
    );
    assert_eq!(
        resolve(Some(&b"inline"[..]), Some(1200), "http://h/f".to_string()),
        Err(MetadataError::MissingFilename)
    );
}

#[test]
fn missing_length_is_missing_size() {
    assert_eq!(
        resolve(Some(&b"attachment; filename=f.txt"[..]), None, "http://h/f".to_string()),
        Err(MetadataError::MissingSize)
    );
}

#[test]
fn resolve_gives_all_three() {
    assert_eq!(
        resolve(Some(&b"attachment; filename=\"f.txt\""[..]), Some(1200), "http://h/f".to_string()),
        Ok(FileInfo { file_name: b"f.txt".to_vec(), file_size: 1200, url: "http://h/f".to_string() })
    );
}

#[test]
fn range_header_names_last_byte() {
    assert_eq!(range_header(DownloadRange { start: 0, end: 400 }), b"bytes=0-399".to_vec());
    assert_eq!(range_header(DownloadRange { start: 400, end: 800 }), b"bytes=400-799".to_vec());
    assert_eq!(range_header(DownloadRange { start: 9, end: 10 }), b"bytes=9-9".to_vec());
    assert_eq!(
        range_header(DownloadRange { start: 0, end: u64::MAX }),
        b"bytes=0-18446744073709551614".to_vec()
    );
}
