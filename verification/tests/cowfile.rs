use std::cell::RefCell;
use std::io::{Read, Seek, SeekFrom, Write};

use cowfile::{CowFile, CowFileCursor, Error, ReadFrom, WriteTo};

/// A mapping that holds these bytes.
fn mapping_of(bytes: &[u8]) -> memmap2::MmapMut {
    let mut mapping = memmap2::MmapMut::map_anon(bytes.len()).unwrap();
    mapping.copy_from_slice(bytes);
    mapping
}

fn io_error(error: Error) -> std::io::Error {
    error.into_io(|other| std::io::Error::other(other.message()))
}

/// A cursor with the file that it runs over, for use with the standard I/O traits.
struct Io<'a> {
    file: &'a RefCell<CowFile>,
    cursor: CowFileCursor,
}

impl<'a> Io<'a> {
    fn over(file: &'a RefCell<CowFile>) -> Self {
        let cursor = file.borrow().cursor();
        Io { file, cursor }
    }
}

impl Read for Io<'_> {
    fn read(&mut self, buf: &mut [u8]) -> std::io::Result<usize> {
        self.cursor
            .read(&self.file.borrow(), buf)
            .map_err(io_error)
    }
}

impl Write for Io<'_> {
    fn write(&mut self, buf: &[u8]) -> std::io::Result<usize> {
        self.cursor
            .write(&mut self.file.borrow_mut(), buf)
            .map_err(io_error)
    }

    fn flush(&mut self) -> std::io::Result<()> {
        self.cursor.flush().map_err(io_error)
    }
}

impl Seek for Io<'_> {
    fn seek(&mut self, pos: std::io::SeekFrom) -> std::io::Result<u64> {
        let pos = match pos {
            std::io::SeekFrom::Start(n) => cowfile::SeekFrom::Start(n),
            std::io::SeekFrom::End(n) => cowfile::SeekFrom::End(n),
            std::io::SeekFrom::Current(n) => cowfile::SeekFrom::Current(n),
        };
        self.cursor
            .seek(&self.file.borrow(), pos)
            .map_err(|error| std::io::Error::new(std::io::ErrorKind::InvalidInput, error.message()))
    }
}

#[test]
fn test_from_vec_basic() {
    let pf = CowFile::from_vec(vec![1, 2, 3, 4, 5]);
    assert_eq!(pf.len(), 5);
    assert!(!pf.is_empty());
    assert_eq!(pf.data(), &[1, 2, 3, 4, 5]);
}

#[test]
fn test_from_vec_empty() {
    let pf = CowFile::from_vec(vec![]);
    assert_eq!(pf.len(), 0);
    assert!(pf.is_empty());
}

#[test]
fn test_open_basic() {
    let pf = CowFile::from_mmap(mapping_of(&[0xDE, 0xAD, 0xBE, 0xEF]), Some("input.bin".into()));
    assert_eq!(pf.len(), 4);
    assert_eq!(pf.data(), &[0xDE, 0xAD, 0xBE, 0xEF]);
}

#[test]
fn test_write_and_read() {
    let mut pf = CowFile::from_vec(vec![0u8; 10]);
    pf.write(2, &[0xFF, 0xFE]).unwrap();

    // data() shows committed state.
    assert_eq!(pf.data()[2], 0x00);

    // read() composites pending.
    let data = pf.read(0, 10).unwrap();
    assert_eq!(data[2], 0xFF);
    assert_eq!(data[3], 0xFE);
    assert_eq!(data[0], 0x00);
}

#[test]
fn test_write_byte_and_read_byte() {
    let mut pf = CowFile::from_vec(vec![0u8; 10]);
    pf.write_byte(5, 0xAA).unwrap();
    assert_eq!(pf.read_byte(5).unwrap(), 0xAA);
    assert_eq!(pf.read_byte(4).unwrap(), 0x00);
}

#[test]
fn test_write_empty_is_noop() {
    let mut pf = CowFile::from_vec(vec![0u8; 10]);
    pf.write(5, &[]).unwrap();
    assert!(!pf.has_pending());
}

#[test]
fn test_commit_and_read() {
    let mut pf = CowFile::from_vec(vec![0u8; 10]);
    pf.write(0, &[0xAA]).unwrap();
    assert!(pf.has_pending());

    pf.commit().unwrap();
    assert!(!pf.has_pending());
    assert_eq!(pf.data()[0], 0xAA);
}

#[test]
fn test_multi_commit_cycle() {
    let mut pf = CowFile::from_vec(vec![0u8; 20]);

    // Pass 1.
    pf.write(0, &[0xAA]).unwrap();
    pf.write(10, &[0xBB]).unwrap();
    pf.commit().unwrap();

    // Pass 2.
    pf.write(5, &[0xCC]).unwrap();
    pf.commit().unwrap();

    let output = pf.to_vec().unwrap();
    assert_eq!(output[0], 0xAA);
    assert_eq!(output[5], 0xCC);
    assert_eq!(output[10], 0xBB);
}

#[test]
fn test_to_vec_no_modifications() {
    let original = vec![1, 2, 3, 4, 5];
    let pf = CowFile::from_vec(original.clone());
    let output = pf.to_vec().unwrap();
    assert_eq!(output, original);
}

#[test]
fn test_to_vec_with_modifications() {
    let mut pf = CowFile::from_vec(vec![0u8; 10]);
    pf.write(0, &[0xFF]).unwrap();
    pf.write(9, &[0xEE]).unwrap();

    let output = pf.to_vec().unwrap();
    assert_eq!(output[0], 0xFF);
    assert_eq!(output[9], 0xEE);
    assert_eq!(output[5], 0x00);
}

#[test]
fn test_to_file_and_read_back() {
    let mut pf = CowFile::from_vec(vec![0u8; 100]);
    pf.write(0, &[0x4D, 0x5A]).unwrap();
    pf.write(50, &[0xDE, 0xAD]).unwrap();

    let mut contents = vec![0xEEu8; 100];
    pf.render_into(&mut contents);
    assert_eq!(contents.len(), 100);
    assert_eq!(contents[0], 0x4D);
    assert_eq!(contents[1], 0x5A);
    assert_eq!(contents[50], 0xDE);
    assert_eq!(contents[51], 0xAD);
    assert_eq!(contents[10], 0x00);
}

#[test]
fn test_out_of_bounds_read() {
    let pf = CowFile::from_vec(vec![0u8; 10]);
    let result = pf.read(8, 5);
    assert!(result.is_err());
}

#[test]
fn test_out_of_bounds_write() {
    let mut pf = CowFile::from_vec(vec![0u8; 10]);
    let result = pf.write(8, &[0xFF; 5]);
    assert!(result.is_err());
}

#[test]
fn test_out_of_bounds_at_exact_end() {
    let pf = CowFile::from_vec(vec![0u8; 10]);
    let result = pf.read(10, 0);
    assert!(result.is_ok());
    assert!(result.unwrap().is_empty());
}

#[test]
fn test_has_pending() {
    let mut pf = CowFile::from_vec(vec![0u8; 10]);
    assert!(!pf.has_pending());

    pf.write(0, &[0xFF]).unwrap();
    assert!(pf.has_pending());

    pf.commit().unwrap();
    assert!(!pf.has_pending());
}

#[test]
fn test_data_shows_committed_state() {
    let mut pf = CowFile::from_vec(vec![1, 2, 3, 4, 5]);
    pf.write(0, &[0xFF, 0xFF, 0xFF, 0xFF, 0xFF]).unwrap();

    // data() should still show original.
    assert_eq!(pf.data(), &[1, 2, 3, 4, 5]);

    pf.commit().unwrap();

    // After commit, data() shows the changes.
    assert_eq!(pf.data(), &[0xFF, 0xFF, 0xFF, 0xFF, 0xFF]);
}

#[test]
fn test_data_while_writing() {
    let mut pf = CowFile::from_vec(vec![0u8; 100]);

    // Keep what data() shows before the write.
    let view = pf.data().to_vec();
    pf.write(10, &[0xFF]).unwrap();

    // Committed state is as it was.
    assert_eq!(view[10], 0x00);
    assert_eq!(pf.data(), &view[..]);

    // But read_byte composites pending.
    assert_eq!(pf.read_byte(10).unwrap(), 0xFF);
}

#[test]
fn test_discard() {
    let mut pf = CowFile::from_vec(vec![0u8; 10]);
    pf.write(0, &[0xFF]).unwrap();
    assert!(pf.has_pending());

    pf.discard().unwrap();
    assert!(!pf.has_pending());
    assert_eq!(pf.read_byte(0).unwrap(), 0x00);
}

#[test]
fn test_send_static_assertion() {
    fn assert_send<T: Send>() {}
    assert_send::<CowFile>();
}

#[test]
fn test_read_write_le_u16() {
    let mut pf = CowFile::from_vec(vec![0u8; 16]);
    pf.write_le::<u16>(0, 0xCAFE).unwrap();
    assert_eq!(pf.read_le::<u16>(0).unwrap(), 0xCAFE);
    assert_eq!(pf.read(0, 2).unwrap(), vec![0xFE, 0xCA]);
}

#[test]
fn test_read_write_le_u32() {
    let mut pf = CowFile::from_vec(vec![0u8; 16]);
    pf.write_le::<u32>(4, 0xDEADBEEF).unwrap();
    assert_eq!(pf.read_le::<u32>(4).unwrap(), 0xDEADBEEF);
}

#[test]
fn test_read_write_le_u64() {
    let mut pf = CowFile::from_vec(vec![0u8; 16]);
    pf.write_le::<u64>(0, 0x0123456789ABCDEF).unwrap();
    assert_eq!(pf.read_le::<u64>(0).unwrap(), 0x0123456789ABCDEF);
}

#[test]
fn test_read_write_be_u32() {
    let mut pf = CowFile::from_vec(vec![0u8; 16]);
    pf.write_be::<u32>(0, 0xDEADBEEF).unwrap();
    assert_eq!(pf.read_be::<u32>(0).unwrap(), 0xDEADBEEF);
    assert_eq!(pf.read(0, 4).unwrap(), vec![0xDE, 0xAD, 0xBE, 0xEF]);
}

#[test]
fn test_read_le_out_of_bounds() {
    let pf = CowFile::from_vec(vec![0u8; 3]);
    let result = pf.read_le::<u32>(0);
    assert!(result.is_err());
}

#[test]
fn test_write_le_out_of_bounds() {
    let mut pf = CowFile::from_vec(vec![0u8; 3]);
    let result = pf.write_le::<u32>(0, 42);
    assert!(result.is_err());
}

#[test]
fn test_read_write_type() {
    struct TestStruct {
        magic: u32,
        version: u16,
        flags: u8,
    }

    impl ReadFrom for TestStruct {
        fn read_from(pf: &CowFile, offset: usize) -> Result<Self, Error> {
            Ok(TestStruct {
                magic: pf.read_le::<u32>(offset)?,
                version: pf.read_le::<u16>(offset + 4)?,
                flags: pf.read_le::<u8>(offset + 6)?,
            })
        }
    }

    impl WriteTo for TestStruct {
        fn write_to(&self, pf: &mut CowFile, offset: usize) -> Result<(), Error> {
            pf.write_le::<u32>(offset, self.magic)?;
            pf.write_le::<u16>(offset + 4, self.version)?;
            pf.write_le::<u8>(offset + 6, self.flags)?;
            Ok(())
        }
    }

    let mut pf = CowFile::from_vec(vec![0u8; 16]);
    let s = TestStruct {
        magic: 0x4D5A9000,
        version: 3,
        flags: 0xFF,
    };

    pf.write_type(0, &s).unwrap();
    let read_back: TestStruct = pf.read_type(0).unwrap();
    assert_eq!(read_back.magic, 0x4D5A9000);
    assert_eq!(read_back.version, 3);
    assert_eq!(read_back.flags, 0xFF);
}

#[test]
fn test_from_file() {
    let pf = CowFile::from_mmap(mapping_of(&[0xDE, 0xAD, 0xBE, 0xEF]), None);
    assert_eq!(pf.len(), 4);
    assert_eq!(pf.data(), &[0xDE, 0xAD, 0xBE, 0xEF]);
}

#[test]
fn test_into_vec_no_modifications() {
    let pf = CowFile::from_vec(vec![1, 2, 3, 4, 5]);
    let data = pf.into_vec().unwrap();
    assert_eq!(data, vec![1, 2, 3, 4, 5]);
}

#[test]
fn test_into_vec_with_modifications() {
    let mut pf = CowFile::from_vec(vec![0u8; 10]);
    pf.write(0, &[0xFF]).unwrap();
    pf.write(9, &[0xEE]).unwrap();
    let data = pf.into_vec().unwrap();
    assert_eq!(data[0], 0xFF);
    assert_eq!(data[9], 0xEE);
    assert_eq!(data[5], 0x00);
}

#[test]
fn test_into_vec_from_mmap() {
    let pf = CowFile::from_mmap(mapping_of(&[0xDE, 0xAD, 0xBE, 0xEF]), Some("input.bin".into()));
    let data = pf.into_vec().unwrap();
    assert_eq!(data, vec![0xDE, 0xAD, 0xBE, 0xEF]);
}

#[test]
fn test_into_vec_from_mmap_with_modifications() {
    let mut pf = CowFile::from_mmap(mapping_of(&[0x00, 0x00, 0x00, 0x00]), Some("input.bin".into()));
    pf.write(0, &[0xFF]).unwrap();
    let data = pf.into_vec().unwrap();
    assert_eq!(data, vec![0xFF, 0x00, 0x00, 0x00]);
}

#[test]
fn test_cursor_basic() {
    let pf = RefCell::new(CowFile::from_vec(vec![0u8; 32]));
    let mut cursor = Io::over(&pf);

    cursor.write_all(&[0xAA, 0xBB, 0xCC]).unwrap();
    cursor.seek(SeekFrom::Start(0)).unwrap();

    let mut buf = [0u8; 3];
    cursor.read_exact(&mut buf).unwrap();
    assert_eq!(buf, [0xAA, 0xBB, 0xCC]);
}

#[test]
fn test_overlapping_pending_writes() {
    let mut pf = CowFile::from_vec(vec![0u8; 20]);

    pf.write(0, &[0xAA; 10]).unwrap();
    pf.write(5, &[0xBB; 10]).unwrap();

    let data = pf.read(0, 20).unwrap();
    assert!(data[..5].iter().all(|&b| b == 0xAA));
    assert!(data[5..15].iter().all(|&b| b == 0xBB));
    assert!(data[15..20].iter().all(|&b| b == 0x00));
}

#[test]
fn test_read_byte_pending_last_wins() {
    let mut pf = CowFile::from_vec(vec![0u8; 10]);
    pf.write_byte(5, 0xAA).unwrap();
    pf.write_byte(5, 0xBB).unwrap();
    assert_eq!(pf.read_byte(5).unwrap(), 0xBB);
}
