//! The space of the cold tier.

use vugva::spill::SpillFile;
use vugva::VugvaError;

/// Reserve space for data and write it there: the write itself is the caller's,
/// and here always succeeds.
fn write_at_new_offset(s: &mut SpillFile, bytes: usize) -> Result<u64, VugvaError> {
    let offset = s.reserve(bytes)?;
    s.settle(offset, bytes, Ok(()))
}

#[test]
fn freed_offsets_are_reused() {
    let mut s = SpillFile::create(1 << 20);
    let data = vec![7u8; 8192];

    let first = write_at_new_offset(&mut s, data.len()).expect("write");
    assert_eq!(s.used(), 8192);
    s.free(first, data.len());
    assert_eq!(s.used(), 0);

    let second = write_at_new_offset(&mut s, data.len()).expect("write");
    assert_eq!(first, second, "a released offset must be handed back out");
}

#[test]
fn a_full_file_reports_an_error_rather_than_overwriting() {
    let mut s = SpillFile::create(4096);
    let data = vec![0u8; 4096];
    assert!(write_at_new_offset(&mut s, data.len()).is_ok());
    // The decisive part: not merely an error, but no aliasing of the range
    // already in use.
    assert!(write_at_new_offset(&mut s, 64).is_err());
}

#[test]
fn round_trips_bytes_at_the_offset_it_reports() {
    let mut s = SpillFile::create(1 << 20);
    let mut file = vec![0u8; s.capacity()];

    let a: Vec<u8> = (0..4096u32).map(|i| (i ^ 0x5A) as u8).collect();
    let b: Vec<u8> = (0..4096u32).map(|i| (i ^ 0xC3) as u8).collect();

    let off_a = write_at_new_offset(&mut s, a.len()).expect("write a");
    file[off_a as usize..off_a as usize + a.len()].copy_from_slice(&a);
    let off_b = write_at_new_offset(&mut s, b.len()).expect("write b");
    file[off_b as usize..off_b as usize + b.len()].copy_from_slice(&b);
    assert_ne!(off_a, off_b, "two live pages must not share an offset");

    assert_eq!(&file[off_b as usize..off_b as usize + b.len()], &b[..]);
    assert_eq!(&file[off_a as usize..off_a as usize + a.len()], &a[..]);
}

#[test]
fn a_failed_write_strands_no_reservation() {
    let mut s = SpillFile::create(4096);
    s.reserve(64).unwrap();
    let offset = s.reserve(1000).unwrap();
    assert_eq!(s.used(), 64 + 1024);
    let failure = std::io::Error::new(std::io::ErrorKind::Other, "disk on fire");
    match s.settle(offset, 1000, Err(failure)) {
        Err(e @ VugvaError::Io(_)) => assert_eq!(e.to_string(), "io error: disk on fire"),
        other => panic!("expected an I/O error, got {other:?}"),
    }
    assert_eq!(s.used(), 64);
    assert_eq!(s.reserve(1000).unwrap(), offset);
    assert_eq!(s.settle(offset, 1000, Ok(())).unwrap(), offset);
    assert_eq!(s.used(), 64 + 1024);
}
