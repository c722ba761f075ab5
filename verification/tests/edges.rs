//! Edge cases, errors and exact values.

use std::collections::BTreeMap;

use cowfile::pending::{apply_pending, pending_byte};
use cowfile::{
    Backend, CowFile, Error, Fork, Overlay, PendingWrite, Primitive, SeekError, SeekFrom,
};

fn mapping_of(bytes: &[u8]) -> memmap2::MmapMut {
    let mut mapping = memmap2::MmapMut::map_anon(bytes.len()).unwrap();
    mapping.copy_from_slice(bytes);
    mapping
}

#[test]
fn out_of_bounds_carries_the_access() {
    let mut file = CowFile::from_vec(vec![0; 10]);
    for error in [
        file.read(8, 5).unwrap_err(),
        file.check_bounds(8, 5).unwrap_err(),
        file.write(8, &[0xFF; 5]).unwrap_err(),
    ] {
        assert!(matches!(
            error,
            Error::OutOfBounds { offset: 8, length: 5, file_size: 10 }
        ));
    }
    assert!(matches!(
        file.read_byte(10).unwrap_err(),
        Error::OutOfBounds { offset: 10, length: 1, file_size: 10 }
    ));
    assert!(matches!(
        file.read_be::<u64>(3).unwrap_err(),
        Error::OutOfBounds { offset: 3, length: 8, file_size: 10 }
    ));
    assert!(matches!(
        file.write_byte(11, 1).unwrap_err(),
        Error::OutOfBounds { offset: 11, length: 1, file_size: 10 }
    ));
    assert!(!file.has_pending());
}

#[test]
fn bounds_check_does_not_wrap() {
    let file = CowFile::from_vec(vec![0; 10]);
    assert!(matches!(
        file.read(usize::MAX, 2).unwrap_err(),
        Error::OutOfBounds { offset: usize::MAX, length: 2, file_size: 10 }
    ));
    assert!(file.check_bounds(10, 0).is_ok());
    assert!(file.check_bounds(11, 0).is_err());
}

#[test]
fn empty_write_out_of_bounds_is_taken() {
    let mut file = CowFile::from_vec(vec![0; 2]);
    assert!(file.write(99, &[]).is_ok());
    assert!(!file.has_pending());
}

#[test]
fn messages() {
    let error = Error::OutOfBounds { offset: 5, length: 10, file_size: 10 };
    assert_eq!(error.message(), "offset 5 with length 10 exceeds file size 10");
    let error = Error::OutOfBounds { offset: 18_446_744_073_709_551_615, length: 0, file_size: 907 };
    assert_eq!(
        error.message(),
        "offset 18446744073709551615 with length 0 exceeds file size 907"
    );
    assert_eq!(Error::LockPoisoned("poisoned".to_string()).message(), "poisoned");
    let inner = std::io::Error::other("disk on fire");
    assert_eq!(Error::Io(inner).message(), "disk on fire");
    assert_eq!(SeekError::NegativePosition.message(), "seek to a negative position");
}

#[test]
fn io_error_conversions() {
    let error = Error::from(std::io::Error::new(std::io::ErrorKind::NotFound, "gone"));
    assert!(matches!(&error, Error::Io(_)));
    let back = error.into_io(|_| unreachable!());
    assert_eq!(back.kind(), std::io::ErrorKind::NotFound);
    assert_eq!(back.to_string(), "gone");
    let wrap = |error: Error| std::io::Error::other(error.message());
    let other = Error::OutOfBounds { offset: 1, length: 2, file_size: 2 }.into_io(wrap);
    assert_eq!(other.kind(), std::io::ErrorKind::Other);
    assert_eq!(other.to_string(), "offset 1 with length 2 exceeds file size 2");
    let poisoned = Error::LockPoisoned("lock".to_string()).into_io(wrap);
    assert_eq!(poisoned.to_string(), "lock");
}

#[test]
fn mapped_file_commits_into_the_mapping() {
    let mut file = CowFile::from_mmap(mapping_of(&[1, 2, 3, 4]), None);
    file.write(1, &[8, 9]).unwrap();
    assert_eq!(file.data(), &[1, 2, 3, 4]);
    file.commit().unwrap();
    assert_eq!(file.data(), &[1, 8, 9, 4]);
    assert_eq!(file.backend_name(), "Mmap");
    assert!(file.source_path().is_none());
    assert_eq!(file.into_vec().unwrap(), vec![1, 8, 9, 4]);
}

#[test]
fn source_path_survives_commit() {
    let path = std::path::PathBuf::from("input.bin");
    let mut file = CowFile::from_mmap(mapping_of(&[0; 4]), Some(path.clone()));
    file.write(0, &[1]).unwrap();
    file.commit().unwrap();
    assert_eq!(file.source_path(), Some(&path));
    assert!(CowFile::from_vec(vec![1]).source_path().is_none());
}

#[test]
fn fork_of_a_vector_starts_clean() {
    let mut file = CowFile::from_vec(vec![1, 2, 3]);
    file.write(0, &[7]).unwrap();
    file.commit().unwrap();
    file.write(1, &[9]).unwrap();
    match file.fork() {
        Fork::Copy(mut fork) => {
            assert!(!fork.has_pending());
            assert_eq!(fork.data(), &[7, 2, 3]);
            assert_eq!(fork.backend_name(), "Vec");
            fork.write(2, &[5]).unwrap();
            fork.commit().unwrap();
            assert_eq!(fork.data(), &[7, 2, 5]);
        }
        Fork::Reopen(_) | Fork::ReopenAndCarry(_) => panic!("a vector has no path"),
    }
    assert_eq!(file.read(0, 3).unwrap(), vec![7, 9, 3]);
}

#[test]
fn fork_of_an_opened_file_reopens_it() {
    let path = std::path::PathBuf::from("input.bin");
    let file = CowFile::from_mmap(mapping_of(&[1, 2]), Some(path.clone()));
    assert!(matches!(file.fork(), Fork::Reopen(reopen) if *reopen == path));
    let handed = CowFile::from_mmap(mapping_of(&[1, 2]), None);
    assert!(matches!(handed.fork(), Fork::Copy(copy) if copy.data() == [1, 2]));
}

#[test]
fn fork_after_a_commit_holds_the_committed_bytes() {
    let on_disk = [1u8, 2, 3, 4, 5];
    let path = std::path::PathBuf::from("input.bin");
    let mut file = CowFile::from_mmap(mapping_of(&on_disk), Some(path.clone()));

    // Pending writes alone leave the file to be opened again as it is.
    file.write(1, &[9]).unwrap();
    assert!(matches!(file.fork(), Fork::Reopen(reopen) if *reopen == path));
    file.discard().unwrap();
    file.commit().unwrap();
    assert!(matches!(file.fork(), Fork::Reopen(_)));

    file.write(1, &[8, 7]).unwrap();
    file.commit().unwrap();
    file.write(4, &[6]).unwrap();
    assert!(matches!(file.fork(), Fork::ReopenAndCarry(reopen) if *reopen == path));

    // What is on disk is still what was opened first.
    let mut fork = CowFile::from_mmap(mapping_of(&on_disk), Some(path.clone()));
    fork.write(0, &[0xEE]).unwrap();
    file.carry_into(&mut fork).unwrap();
    assert_eq!(fork.data(), file.data());
    assert_eq!(fork.data(), &[1, 8, 7, 4, 5]);
    assert!(!fork.has_pending());
    assert_eq!(fork.to_vec().unwrap(), vec![1, 8, 7, 4, 5]);
    assert_eq!(fork.source_path(), Some(&path));
    assert_eq!(fork.backend_name(), "Mmap");

    // A fork of the fork has its bytes carried over too.
    assert!(matches!(fork.fork(), Fork::ReopenAndCarry(_)));

    // Neither sees what becomes of the other.
    fork.write(0, &[0xAA]).unwrap();
    fork.commit().unwrap();
    assert_eq!(file.read(0, 5).unwrap(), vec![1, 8, 7, 4, 6]);
    file.commit().unwrap();
    assert_eq!(fork.data(), &[0xAA, 8, 7, 4, 5]);
}

#[test]
fn copied_file_is_a_clean_vector() {
    let mut file = CowFile::from_mmap(mapping_of(&[1, 2, 3]), Some("input.bin".into()));
    file.write(0, &[5]).unwrap();
    file.commit().unwrap();
    file.write(1, &[6]).unwrap();
    let copy = file.copied();
    assert_eq!(copy.data(), &[5, 2, 3]);
    assert!(!copy.has_pending());
    assert!(copy.source_path().is_none());
    assert_eq!(copy.backend_name(), "Vec");
}

#[test]
fn prepared_writes() {
    let file = CowFile::from_vec(vec![0; 4]);
    let write = file.prepare_write(1, &[7, 8]).unwrap().unwrap();
    assert_eq!((write.offset, write.data), (1, vec![7, 8]));
    assert!(file.prepare_write(99, &[]).unwrap().is_none());
    assert!(matches!(
        file.prepare_write(3, &[7, 8]),
        Err(Error::OutOfBounds { offset: 3, length: 2, file_size: 4 })
    ));
    assert!(!file.has_pending());
}

#[test]
fn empty_overlay_write_at_any_offset_changes_nothing() {
    let mut overlay = Overlay::new();
    overlay.write(u64::MAX, &[]);
    assert!(!overlay.has_pending());
    overlay.write(3, &[1]);
    overlay.write(u64::MAX, &[]);
    overlay.write(3, &[]);
    let pending: Vec<(u64, Vec<u8>)> =
        overlay.pending_entries().map(|(k, v)| (*k, v.clone())).collect();
    assert_eq!(pending, vec![(3, vec![1])]);
}

#[test]
fn overlay_write_at_the_last_addresses() {
    let mut overlay = Overlay::new();
    overlay.write(u64::MAX - 3, &[1, 2, 3]);
    overlay.write(u64::MAX - 2, &[9]);
    overlay.commit();
    let committed: Vec<(u64, Vec<u8>)> =
        overlay.committed_entries().map(|(k, v)| (*k, v.clone())).collect();
    assert_eq!(committed, vec![(u64::MAX - 3, vec![1, 9, 3])]);
}

#[test]
fn consolidation_on_its_own() {
    let mut layer = BTreeMap::new();
    layer.insert(0u64, vec![1u8, 2, 3]);
    layer.insert(2, vec![9]);
    layer.insert(3, vec![4]);
    layer.insert(5, vec![6]);
    layer.insert(9, vec![7, 7]);
    Overlay::consolidate(&mut layer);
    let once: Vec<(u64, Vec<u8>)> = layer.iter().map(|(k, v)| (*k, v.clone())).collect();
    assert_eq!(once, vec![(0, vec![1, 2, 9, 4]), (5, vec![6]), (9, vec![7, 7])]);
    Overlay::consolidate(&mut layer);
    let twice: Vec<(u64, Vec<u8>)> = layer.iter().map(|(k, v)| (*k, v.clone())).collect();
    assert_eq!(once, twice);
}

#[test]
fn empty_files_are_not_mapped() {
    assert!(!CowFile::maps_file_of(0));
    assert!(CowFile::maps_file_of(1));
}

#[test]
fn large_output_goes_through_a_mapping() {
    assert_eq!(cowfile::MMAP_WRITE_THRESHOLD, 64 * 1024 * 1024);
    assert!(!CowFile::from_vec(vec![0; 64 * 1024 * 1024 - 1]).writes_through_mmap());
    assert!(CowFile::from_vec(vec![0; 64 * 1024 * 1024]).writes_through_mmap());
}

#[test]
fn apply_pending_takes_the_overlap() {
    let log = [
        PendingWrite { offset: 0, data: vec![1, 2, 3] },
        PendingWrite { offset: 2, data: vec![4, 5, 6, 7, 8] },
        PendingWrite { offset: 9, data: vec![9] },
    ];
    let mut window = [0u8; 4];
    apply_pending(&mut window, 1, 3, &log);
    assert_eq!(window, [2, 4, 5, 0]);
    let mut inside = [0u8; 2];
    apply_pending(&mut inside, 4, 2, &log);
    assert_eq!(inside, [6, 7]);
    let mut beside = [0u8; 2];
    apply_pending(&mut beside, 7, 2, &log);
    assert_eq!(beside, [0, 0]);
    assert_eq!(pending_byte(&log, 2), Some(4));
    assert_eq!(pending_byte(&log, 1), Some(2));
    assert_eq!(pending_byte(&log, 7), None);
}

#[test]
fn seeks_to_negative_positions_are_refused() {
    let file = CowFile::from_vec(vec![0; 10]);
    let mut cursor = file.cursor();
    cursor.set_position(4);
    assert!(matches!(
        cursor.seek(&file, SeekFrom::Current(-5)).unwrap_err(),
        SeekError::NegativePosition
    ));
    assert!(cursor.seek(&file, SeekFrom::End(-11)).is_err());
    assert!(cursor.seek(&file, SeekFrom::Start(u64::MAX)).is_err());
    assert_eq!(cursor.position(), 4);
    assert_eq!(cursor.seek(&file, SeekFrom::Start(i64::MAX as u64)).unwrap(), i64::MAX as u64);
}

#[test]
fn seeks_that_overflow_are_told_beforehand() {
    let file = CowFile::from_vec(vec![0; 10]);
    let mut cursor = file.cursor();
    assert!(!cursor.can_seek(&file, &SeekFrom::End(i64::MAX)));
    assert!(cursor.can_seek(&file, &SeekFrom::End(i64::MAX - 10)));
    assert!(cursor.can_seek(&file, &SeekFrom::Start(u64::MAX)));
    cursor.set_position(1);
    assert!(!cursor.can_seek(&file, &SeekFrom::Current(i64::MAX)));
    assert!(cursor.can_seek(&file, &SeekFrom::Current(i64::MIN)));
}

#[test]
fn cursor_write_past_the_end_changes_nothing() {
    let mut file = CowFile::from_vec(vec![0; 4]);
    let mut cursor = file.cursor();
    cursor.set_position(3);
    assert!(matches!(
        cursor.write(&mut file, &[1, 2]).unwrap_err(),
        Error::OutOfBounds { offset: 3, length: 2, file_size: 4 }
    ));
    assert_eq!(cursor.position(), 3);
    assert_eq!(cursor.write(&mut file, &[]).unwrap(), 0);
    assert!(!file.has_pending());
}

#[test]
fn backend_slice_does_not_wrap() {
    let backend = Backend::Mmap(mapping_of(&[1, 2, 3]).make_read_only().unwrap());
    assert!(matches!(
        backend.slice(u64::MAX, 2).unwrap_err(),
        Error::OutOfBounds { length: 2, file_size: 3, .. }
    ));
    assert!(backend.slice(4, 0).is_err());
    assert_eq!(backend.slice(3, 0).unwrap(), &[] as &[u8]);
}

#[test]
fn primitive_extremes() {
    let mut buf = [0u8; 8];
    for value in [i64::MIN, -1, 0, 1, i64::MAX] {
        value.write_le_bytes(&mut buf);
        assert_eq!(buf, value.to_le_bytes());
        assert_eq!(<i64 as Primitive>::from_le_bytes(&buf), value);
        value.write_be_bytes(&mut buf);
        assert_eq!(buf, value.to_be_bytes());
        assert_eq!(<i64 as Primitive>::from_be_bytes(&buf), value);
    }
    for value in [i32::MIN, -1, i32::MAX] {
        value.write_be_bytes(&mut buf);
        assert_eq!(buf[..4], value.to_be_bytes());
        assert_eq!(<i32 as Primitive>::from_be_bytes(&buf), value);
    }
    for value in [i16::MIN, -1, i16::MAX] {
        value.write_le_bytes(&mut buf);
        assert_eq!(<i16 as Primitive>::from_le_bytes(&buf), value);
    }
    for value in [i8::MIN, -1, i8::MAX] {
        value.write_be_bytes(&mut buf);
        assert_eq!(<i8 as Primitive>::from_be_bytes(&buf), value);
    }
    u64::MAX.write_be_bytes(&mut buf);
    assert_eq!(<u64 as Primitive>::from_le_bytes(&buf), u64::MAX);
}
