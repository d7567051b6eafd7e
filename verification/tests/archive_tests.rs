use madenon::archive::{load, ArchiveError};

fn record(name: &str, offset: u64, length: u32) -> Vec<u8> {
    let mut out = Vec::new();
    out.extend_from_slice(name.as_bytes());
    out.push(0);
    out.extend_from_slice(&offset.to_le_bytes());
    out.extend_from_slice(&length.to_le_bytes());
    out
}

fn sample_archive() -> Vec<u8> {
    // Two bodies, a directory with two records, and the trailer offset.
    let mut data = Vec::new();
    data.extend_from_slice(b"hello");
    data.extend_from_slice(b"world!");
    let dir_at = data.len() as u64;
    data.extend_from_slice(b"LEGARCHTBL");
    data.extend_from_slice(&2u32.to_le_bytes());
    data.extend_from_slice(&record("CG/a.png", 0, 5));
    data.extend_from_slice(&record("Sound/B.ogg", 5, 6));
    data.extend_from_slice(&dir_at.to_le_bytes());
    data
}

#[test]
fn read_returns_the_named_bytes() {
    let a = load(sample_archive(), true).unwrap();
    assert_eq!(a.read("CG/a.png").unwrap(), b"hello".to_vec());
    assert_eq!(a.read("Sound/B.ogg").unwrap(), b"world!".to_vec());
    assert!(a.read("missing").is_none());
}

#[test]
fn repeated_reads_are_byte_identical() {
    let a = load(sample_archive(), false).unwrap();
    let first = a.read("CG/a.png").unwrap();
    let second = a.read("CG/a.png").unwrap();
    assert_eq!(first, second);
}

#[test]
fn case_sensitivity_is_configurable() {
    let strict = load(sample_archive(), true).unwrap();
    assert!(strict.read("sound/b.OGG").is_none());
    let lax = load(sample_archive(), false).unwrap();
    assert_eq!(lax.read("sound/b.OGG").unwrap(), b"world!".to_vec());
}

#[test]
fn malformed_archives_are_rejected() {
    assert_eq!(load(vec![1, 2, 3], true), Err(ArchiveError::Truncated));
    let mut bad_magic = sample_archive();
    bad_magic[11] = b'X';
    assert_eq!(load(bad_magic, true), Err(ArchiveError::BadMagic));
    let mut bad_trailer = sample_archive();
    let n = bad_trailer.len();
    bad_trailer[n - 1] = 0xFF;
    assert_eq!(load(bad_trailer, true), Err(ArchiveError::BadTrailer));
    let mut short = Vec::new();
    short.extend_from_slice(b"hello world");
    short.extend_from_slice(b"LEGARCHTBL");
    short.extend_from_slice(&2u32.to_le_bytes());
    short.extend_from_slice(&record("a", 0, 5));
    short.extend_from_slice(&11u64.to_le_bytes());
    assert_eq!(load(short, true), Err(ArchiveError::Truncated));
}

#[test]
fn out_of_range_record_reads_fail_soft() {
    let mut data = Vec::new();
    let dir_at = 0u64;
    data.extend_from_slice(b"LEGARCHTBL");
    data.extend_from_slice(&1u32.to_le_bytes());
    data.extend_from_slice(&record("big", 0, 10_000));
    data.extend_from_slice(&dir_at.to_le_bytes());
    let a = load(data, true).unwrap();
    assert!(a.read("big").is_none());
}
