//! The laws of the library on concrete values.

use cowfile::pending::{apply_all, apply_pending, pending_byte};
use cowfile::{Backend, CowFile, Overlay, PendingWrite, Primitive, SeekFrom};

#[test]
fn law_write_shows_in_reads() {
    let mut file = CowFile::from_vec(vec![1, 2, 3, 4, 5]);
    file.write(1, &[0xA0, 0xA1]).unwrap();
    assert_eq!(file.read(0, 5).unwrap(), vec![1, 0xA0, 0xA1, 4, 5]);
    file.write(2, &[0xB0, 0xB1]).unwrap();
    assert_eq!(file.read(0, 5).unwrap(), vec![1, 0xA0, 0xB0, 0xB1, 5]);
    assert_eq!(file.read(2, 2).unwrap(), vec![0xB0, 0xB1]);
}

#[test]
fn law_last_write_wins() {
    let mut file = CowFile::from_vec(vec![0; 4]);
    file.write(0, &[1, 1, 1]).unwrap();
    file.write(1, &[2, 2]).unwrap();
    file.write(2, &[3]).unwrap();
    assert_eq!(file.read_byte(0).unwrap(), 1);
    assert_eq!(file.read_byte(1).unwrap(), 2);
    assert_eq!(file.read_byte(2).unwrap(), 3);
    assert_eq!(file.read_byte(3).unwrap(), 0);
}

#[test]
fn law_write_keeps_committed() {
    let mut file = CowFile::from_vec(vec![1, 2, 3]);
    file.write(0, &[9, 9, 9]).unwrap();
    assert_eq!(file.data(), &[1, 2, 3]);
    assert!(file.write(1, &[7, 7, 7]).is_err());
    assert_eq!(file.read(0, 3).unwrap(), vec![9, 9, 9]);
}

#[test]
fn law_disjoint_writes_commute() {
    let mut one = CowFile::from_vec(vec![0; 6]);
    one.write(0, &[1, 2]).unwrap();
    one.write(2, &[3, 4]).unwrap();
    let mut two = CowFile::from_vec(vec![0; 6]);
    two.write(2, &[3, 4]).unwrap();
    two.write(0, &[1, 2]).unwrap();
    assert_eq!(one.to_vec().unwrap(), two.to_vec().unwrap());
    assert_eq!(one.to_vec().unwrap(), vec![1, 2, 3, 4, 0, 0]);
}

#[test]
fn law_commit_keeps_reads() {
    let mut file = CowFile::from_vec(vec![0; 4]);
    file.write(1, &[5, 6]).unwrap();
    file.write(2, &[7]).unwrap();
    let seen = file.read(0, 4).unwrap();
    file.commit().unwrap();
    assert_eq!(file.read(0, 4).unwrap(), seen);
    assert_eq!(file.data(), &seen[..]);
    assert!(!file.has_pending());
    file.commit().unwrap();
    assert_eq!(file.data(), &seen[..]);
}

#[test]
fn law_commit_between_writes() {
    let mut with = CowFile::from_vec(vec![0; 4]);
    with.write(0, &[1, 1, 1]).unwrap();
    with.commit().unwrap();
    with.write(1, &[2, 2, 2]).unwrap();
    let mut without = CowFile::from_vec(vec![0; 4]);
    without.write(0, &[1, 1, 1]).unwrap();
    without.write(1, &[2, 2, 2]).unwrap();
    assert_eq!(with.to_vec().unwrap(), without.to_vec().unwrap());
    assert_eq!(with.into_vec().unwrap(), vec![1, 2, 2, 2]);
}

#[test]
fn law_log_kept_apart() {
    let mut file = CowFile::from_vec(vec![0; 6]);
    file.write(0, &[1, 1, 1]).unwrap();
    let log = [
        PendingWrite { offset: 2, data: vec![2, 2] },
        PendingWrite { offset: 3, data: vec![3, 3] },
    ];
    let mut whole = file.to_vec().unwrap();
    apply_all(&mut whole, &log);
    let mut part = file.read(1, 3).unwrap();
    apply_pending(&mut part, 1, 3, &log);
    let byte = pending_byte(&log, 4).unwrap_or(file.read_byte(4).unwrap());
    for write in &log {
        file.write(write.offset, &write.data).unwrap();
    }
    assert_eq!(whole, file.to_vec().unwrap());
    assert_eq!(whole, vec![1, 1, 2, 3, 3, 0]);
    assert_eq!(part, file.read(1, 3).unwrap());
    assert_eq!(byte, file.read_byte(4).unwrap());
}

#[test]
fn law_other_writes_keep_bytes() {
    let mut file = CowFile::from_vec(vec![0; 12]);
    file.write_le::<u32>(4, 0xDEADBEEF).unwrap();
    file.write(0, &[9; 4]).unwrap();
    file.write(8, &[8; 4]).unwrap();
    assert_eq!(file.read_le::<u32>(4).unwrap(), 0xDEADBEEF);
    file.commit().unwrap();
    assert_eq!(file.read_le::<u32>(4).unwrap(), 0xDEADBEEF);
}

#[test]
fn law_discard_restores_committed() {
    let mut file = CowFile::from_vec(vec![1, 2, 3]);
    file.write(0, &[9]).unwrap();
    file.commit().unwrap();
    file.write(1, &[8]).unwrap();
    file.discard().unwrap();
    assert_eq!(file.read(0, 3).unwrap(), vec![9, 2, 3]);
    assert_eq!(file.data(), &[9, 2, 3]);
}

#[test]
fn law_clean_reads_are_committed() {
    let file = CowFile::from_vec(vec![4, 5, 6, 7]);
    assert_eq!(file.read(1, 2).unwrap(), file.data()[1..3].to_vec());
}

#[test]
fn law_length_never_changes() {
    let mut file = CowFile::from_vec(vec![0; 3]);
    file.write(0, &[1, 2, 3]).unwrap();
    assert_eq!(file.len(), 3);
    file.commit().unwrap();
    assert_eq!(file.len(), 3);
    file.write(2, &[4]).unwrap();
    file.discard().unwrap();
    assert_eq!(file.len(), 3);
    assert_eq!(file.to_vec().unwrap().len(), 3);
}

#[test]
fn law_reads_fit_together() {
    let mut file = CowFile::from_vec(vec![1, 2, 3, 4, 5]);
    file.write(2, &[9]).unwrap();
    let mut joined = file.read(0, 2).unwrap();
    joined.extend(file.read(2, 3).unwrap());
    assert_eq!(joined, file.read(0, 5).unwrap());
    assert_eq!(joined, file.to_vec().unwrap());
    let mut rendered = vec![0xEEu8; 5];
    file.render_into(&mut rendered);
    assert_eq!(rendered, joined);
    assert_eq!(file.into_vec().unwrap(), joined);
}

#[test]
fn law_typed_round_trips() {
    let mut file = CowFile::from_vec(vec![0; 16]);
    file.write_le::<i64>(1, i64::MIN).unwrap();
    assert_eq!(file.read_le::<i64>(1).unwrap(), i64::MIN);
    assert_eq!(file.read(1, 8).unwrap(), vec![0, 0, 0, 0, 0, 0, 0, 0x80]);
    file.write_be::<i16>(3, -2).unwrap();
    assert_eq!(file.read_be::<i16>(3).unwrap(), -2);
    assert_eq!(file.read(3, 2).unwrap(), vec![0xFF, 0xFE]);
    assert_eq!(file.read_le::<u16>(3).unwrap(), 0xFEFF);
}

#[test]
fn law_writing_back_changes_nothing() {
    let mut file = CowFile::from_vec(vec![0x81, 0x72, 0x63, 0x54, 0x45]);
    let little = file.read_le::<i32>(1).unwrap();
    file.write_le::<i32>(1, little).unwrap();
    let big = file.read_be::<i32>(0).unwrap();
    file.write_be::<i32>(0, big).unwrap();
    assert_eq!(file.to_vec().unwrap(), vec![0x81, 0x72, 0x63, 0x54, 0x45]);
}

#[test]
fn law_overlay_priority() {
    let mut overlay = Overlay::new();
    let base = [1u8, 2, 3];
    assert_eq!(overlay.read(0, 3, &base), vec![1, 2, 3]);
    overlay.write(0, &[10, 10]);
    overlay.commit();
    overlay.write(0, &[20]);
    assert_eq!(overlay.read(0, 3, &base), vec![20, 10, 3]);
    assert_eq!(overlay.materialize(&base), vec![20, 10, 3]);
    assert_eq!(overlay.read(1, 2, &base), vec![10, 3]);
}

#[test]
fn law_overlay_commit_keeps_reads() {
    let mut overlay = Overlay::new();
    let base = [0u8; 8];
    overlay.write(1, &[1, 1, 1]);
    overlay.commit();
    overlay.write(2, &[2, 2, 2]);
    overlay.write(6, &[3]);
    let seen = overlay.read(0, 8, &base);
    overlay.commit();
    assert_eq!(overlay.read(0, 8, &base), seen);
    assert_eq!(seen, vec![0, 1, 2, 2, 2, 0, 3, 0]);
    assert!(!overlay.has_pending());
}

#[test]
fn law_overlay_commit_is_determined() {
    // The same bytes by different writes end in the same entries.
    let mut one = Overlay::new();
    one.write(0, &[1, 2, 3, 4]);
    one.commit();
    let mut two = Overlay::new();
    two.write(2, &[3, 9]);
    two.commit();
    two.write(3, &[4]);
    two.write(0, &[1, 2]);
    two.commit();
    let left: Vec<(u64, Vec<u8>)> = one.committed_entries().map(|(k, v)| (*k, v.clone())).collect();
    let right: Vec<(u64, Vec<u8>)> =
        two.committed_entries().map(|(k, v)| (*k, v.clone())).collect();
    assert_eq!(left, right);
    assert_eq!(left, vec![(0, vec![1, 2, 3, 4])]);
}

#[test]
fn law_overlay_commit_of_nothing() {
    let mut overlay = Overlay::new();
    overlay.write(3, &[5]);
    overlay.commit();
    overlay.commit();
    let entries: Vec<(u64, Vec<u8>)> =
        overlay.committed_entries().map(|(k, v)| (*k, v.clone())).collect();
    assert_eq!(entries, vec![(3, vec![5])]);
    assert_eq!(overlay.pending_entries().count(), 0);
}

#[test]
fn law_overlay_write_is_one_entry() {
    let mut overlay = Overlay::new();
    overlay.write(0, &[1, 1]);
    overlay.write(2, &[2, 2]);
    let pending: Vec<(u64, Vec<u8>)> =
        overlay.pending_entries().map(|(k, v)| (*k, v.clone())).collect();
    assert_eq!(pending, vec![(0, vec![1, 1]), (2, vec![2, 2])]);
}

#[test]
fn law_overlay_disjoint_writes_commute() {
    // Adjacent writes into the middle of an entry.
    let mut one = Overlay::new();
    one.write(0, &[7; 10]);
    one.write(2, &[1, 1]);
    one.write(4, &[2, 2]);
    let mut two = Overlay::new();
    two.write(0, &[7; 10]);
    two.write(4, &[2, 2]);
    two.write(2, &[1, 1]);
    let left: Vec<(u64, Vec<u8>)> = one.pending_entries().map(|(k, v)| (*k, v.clone())).collect();
    let right: Vec<(u64, Vec<u8>)> = two.pending_entries().map(|(k, v)| (*k, v.clone())).collect();
    assert_eq!(left, right);
    assert_eq!(
        left,
        vec![(0, vec![7, 7]), (2, vec![1, 1]), (4, vec![2, 2]), (6, vec![7; 4])]
    );
}

#[test]
fn law_output_is_to_vec() {
    // One byte below the threshold and at it, output is the same bytes either way.
    for size in [64 * 1024 * 1024 - 1, 64 * 1024 * 1024] {
        let mut file = CowFile::from_vec(vec![3; size]);
        file.write(size - 2, &[1, 2]).unwrap();
        let mut rendered = vec![0xEEu8; size];
        file.render_into(&mut rendered);
        assert_eq!(rendered[size - 3..], [3, 1, 2]);
        assert!(file.to_vec().unwrap() == rendered);
        assert!(file.has_pending());
    }
}

#[test]
fn law_overlay_agrees_with_file() {
    let base = Backend::Vec(vec![7u8; 12]);
    let mut overlay = Overlay::new();
    let mut file = CowFile::from_vec(base.as_slice().to_vec());
    let writes: [(usize, &[u8]); 5] =
        [(0, &[1, 2, 3]), (2, &[4, 4, 4, 4]), (11, &[5]), (3, &[]), (1, &[6, 6])];
    for (step, (offset, data)) in writes.iter().enumerate() {
        overlay.write(*offset as u64, data);
        file.write(*offset, data).unwrap();
        if step % 2 == 1 {
            overlay.commit();
            file.commit().unwrap();
        }
        assert_eq!(overlay.materialize(base.as_slice()), file.to_vec().unwrap());
    }
    assert_eq!(
        file.into_vec().unwrap(),
        vec![1, 6, 6, 4, 4, 4, 7, 7, 7, 7, 7, 5]
    );
}

#[test]
fn law_cursor_reads_what_it_wrote() {
    let mut file = CowFile::from_vec(vec![0; 8]);
    let mut cursor = file.cursor();
    cursor.set_position(3);
    assert_eq!(cursor.write(&mut file, &[1, 2, 3]).unwrap(), 3);
    assert_eq!(cursor.position(), 6);
    assert_eq!(cursor.seek(&file, SeekFrom::Start(3)).unwrap(), 3);
    let mut buf = [0u8; 3];
    assert_eq!(cursor.read(&file, &mut buf).unwrap(), 3);
    assert_eq!(buf, [1, 2, 3]);
    assert_eq!(cursor.position(), 6);
}

#[test]
fn law_cursor_reads_on() {
    let file = CowFile::from_vec(vec![1, 2, 3, 4, 5]);
    let mut cursor = file.cursor();
    let mut first = [0u8; 2];
    let mut second = [0xEEu8; 4];
    assert_eq!(cursor.read(&file, &mut first).unwrap(), 2);
    assert_eq!(cursor.read(&file, &mut second).unwrap(), 3);
    assert_eq!(first, [1, 2]);
    assert_eq!(second, [3, 4, 5, 0xEE]);
    assert_eq!(cursor.read(&file, &mut first).unwrap(), 0);
    assert_eq!(first, [1, 2]);
    let mut whole = [0u8; 6];
    let mut other = file.cursor();
    assert_eq!(other.read(&file, &mut whole).unwrap(), 5);
    assert_eq!(whole, [1, 2, 3, 4, 5, 0]);
}

#[test]
fn law_seek_reaches_its_target() {
    let file = CowFile::from_vec(vec![0; 10]);
    let mut cursor = file.cursor();
    assert_eq!(cursor.seek(&file, SeekFrom::Start(7)).unwrap(), 7);
    assert_eq!(cursor.seek(&file, SeekFrom::Current(-3)).unwrap(), 4);
    assert_eq!(cursor.seek(&file, SeekFrom::End(-1)).unwrap(), 9);
    assert_eq!(cursor.seek(&file, SeekFrom::End(5)).unwrap(), 15);
    assert_eq!(cursor.position(), 15);
}

#[test]
fn law_primitive_size_and_bits() {
    assert_eq!(<u8 as Primitive>::SIZE, 1);
    assert_eq!(<i16 as Primitive>::SIZE, 2);
    assert_eq!(<u32 as Primitive>::SIZE, 4);
    assert_eq!(<i64 as Primitive>::SIZE, 8);
    let mut buf = [0xEEu8; 4];
    (-2i16).write_le_bytes(&mut buf);
    assert_eq!(buf, [0xFE, 0xFF, 0xEE, 0xEE]);
}
