use std::cell::RefCell;
use std::io::{Read, Seek, SeekFrom, Write};

use cowfile::{CowFile, CowFileCursor, Error};

fn io_error(error: Error) -> std::io::Error {
    error.into_io(|other| std::io::Error::other(other.message()))
}

/// A cursor with the file that it runs over, for use with the standard I/O traits.
struct Io<'a> {
    file: &'a RefCell<CowFile>,
    cursor: CowFileCursor,
}

impl<'a> Io<'a> {
    fn over(file: &'a RefCell<CowFile>) -> Self {
        let cursor = file.borrow().cursor();
        Io { file, cursor }
    }

    fn position(&self) -> usize {
        self.cursor.position()
    }

    fn set_position(&mut self, pos: usize) {
        self.cursor.set_position(pos);
    }
}

impl Read for Io<'_> {
    fn read(&mut self, buf: &mut [u8]) -> std::io::Result<usize> {
        self.cursor
            .read(&self.file.borrow(), buf)
            .map_err(io_error)
    }
}

impl Write for Io<'_> {
    fn write(&mut self, buf: &[u8]) -> std::io::Result<usize> {
        self.cursor
            .write(&mut self.file.borrow_mut(), buf)
            .map_err(io_error)
    }

    fn flush(&mut self) -> std::io::Result<()> {
        self.cursor.flush().map_err(io_error)
    }
}

impl Seek for Io<'_> {
    fn seek(&mut self, pos: std::io::SeekFrom) -> std::io::Result<u64> {
        let pos = match pos {
            std::io::SeekFrom::Start(n) => cowfile::SeekFrom::Start(n),
            std::io::SeekFrom::End(n) => cowfile::SeekFrom::End(n),
            std::io::SeekFrom::Current(n) => cowfile::SeekFrom::Current(n),
        };
        self.cursor
            .seek(&self.file.borrow(), pos)
            .map_err(|error| std::io::Error::new(std::io::ErrorKind::InvalidInput, error.message()))
    }
}

#[test]
fn test_cursor_read_sequential() {
    let pf = RefCell::new(CowFile::from_vec(vec![1, 2, 3, 4, 5, 6, 7, 8]));
    let mut cursor = Io::over(&pf);

    let mut buf = [0u8; 4];
    cursor.read_exact(&mut buf).unwrap();
    assert_eq!(buf, [1, 2, 3, 4]);

    cursor.read_exact(&mut buf).unwrap();
    assert_eq!(buf, [5, 6, 7, 8]);
}

#[test]
fn test_cursor_write_sequential() {
    let pf = RefCell::new(CowFile::from_vec(vec![0u8; 8]));
    let mut cursor = Io::over(&pf);

    cursor.write_all(&[0xAA, 0xBB]).unwrap();
    cursor.write_all(&[0xCC, 0xDD]).unwrap();
    assert_eq!(cursor.position(), 4);

    let data = pf.borrow().read(0, 4).unwrap();
    assert_eq!(data, vec![0xAA, 0xBB, 0xCC, 0xDD]);
}

#[test]
fn test_cursor_seek_start() {
    let pf = RefCell::new(CowFile::from_vec(vec![10, 20, 30, 40, 50]));
    let mut cursor = Io::over(&pf);

    cursor.seek(SeekFrom::Start(3)).unwrap();
    assert_eq!(cursor.position(), 3);

    let mut buf = [0u8; 1];
    cursor.read_exact(&mut buf).unwrap();
    assert_eq!(buf[0], 40);
}

#[test]
fn test_cursor_seek_end() {
    let pf = RefCell::new(CowFile::from_vec(vec![10, 20, 30, 40, 50]));
    let mut cursor = Io::over(&pf);

    cursor.seek(SeekFrom::End(-2)).unwrap();
    assert_eq!(cursor.position(), 3);

    let mut buf = [0u8; 2];
    cursor.read_exact(&mut buf).unwrap();
    assert_eq!(buf, [40, 50]);
}

#[test]
fn test_cursor_seek_current() {
    let pf = RefCell::new(CowFile::from_vec(vec![10, 20, 30, 40, 50]));
    let mut cursor = Io::over(&pf);

    cursor.seek(SeekFrom::Start(2)).unwrap();
    cursor.seek(SeekFrom::Current(1)).unwrap();
    assert_eq!(cursor.position(), 3);

    cursor.seek(SeekFrom::Current(-2)).unwrap();
    assert_eq!(cursor.position(), 1);
}

#[test]
fn test_cursor_seek_before_start() {
    let pf = RefCell::new(CowFile::from_vec(vec![0u8; 10]));
    let mut cursor = Io::over(&pf);

    let result = cursor.seek(SeekFrom::Current(-1));
    assert!(result.is_err());
}

#[test]
fn test_cursor_read_at_eof() {
    let pf = RefCell::new(CowFile::from_vec(vec![1, 2, 3]));
    let mut cursor = Io::over(&pf);

    cursor.seek(SeekFrom::End(0)).unwrap();
    let mut buf = [0u8; 4];
    let n = cursor.read(&mut buf).unwrap();
    assert_eq!(n, 0);
}

#[test]
fn test_cursor_read_partial_at_eof() {
    let pf = RefCell::new(CowFile::from_vec(vec![1, 2, 3, 4, 5]));
    let mut cursor = Io::over(&pf);

    cursor.seek(SeekFrom::Start(3)).unwrap();
    let mut buf = [0u8; 4];
    let n = cursor.read(&mut buf).unwrap();
    assert_eq!(n, 2);
    assert_eq!(&buf[..2], &[4, 5]);
}

#[test]
fn test_cursor_read_write_interleaved() {
    let pf = RefCell::new(CowFile::from_vec(vec![0u8; 16]));
    let mut cursor = Io::over(&pf);

    cursor.write_all(&[0xAA, 0xBB]).unwrap();
    cursor.write_all(&[0xCC, 0xDD]).unwrap();
    assert_eq!(cursor.position(), 4);

    cursor.seek(SeekFrom::Start(0)).unwrap();
    let mut buf = [0u8; 4];
    cursor.read_exact(&mut buf).unwrap();
    assert_eq!(buf, [0xAA, 0xBB, 0xCC, 0xDD]);
}

#[test]
fn test_cursor_with_std_io_copy() {
    let src = RefCell::new(CowFile::from_vec(vec![1, 2, 3, 4, 5, 6, 7, 8]));
    let dst = RefCell::new(CowFile::from_vec(vec![0u8; 8]));

    let mut src_cursor = Io::over(&src);
    let mut dst_cursor = Io::over(&dst);

    let copied = std::io::copy(&mut src_cursor, &mut dst_cursor).unwrap();
    assert_eq!(copied, 8);

    let output = dst.borrow().to_vec().unwrap();
    assert_eq!(output, vec![1, 2, 3, 4, 5, 6, 7, 8]);
}

#[test]
fn test_cursor_position_and_set_position() {
    let pf = RefCell::new(CowFile::from_vec(vec![0u8; 10]));
    let mut cursor = Io::over(&pf);

    assert_eq!(cursor.position(), 0);
    cursor.set_position(5);
    assert_eq!(cursor.position(), 5);
}

#[test]
fn test_cursor_seek_beyond_end() {
    let pf = RefCell::new(CowFile::from_vec(vec![0u8; 10]));
    let mut cursor = Io::over(&pf);

    // Seeking beyond the end is allowed (like std::io::Cursor).
    let pos = cursor.seek(SeekFrom::Start(100)).unwrap();
    assert_eq!(pos, 100);

    // Reads at that position return 0 bytes.
    let mut buf = [0u8; 4];
    let n = cursor.read(&mut buf).unwrap();
    assert_eq!(n, 0);
}

#[test]
fn test_cursor_flush_is_noop() {
    let pf = RefCell::new(CowFile::from_vec(vec![0u8; 10]));
    let mut cursor = Io::over(&pf);
    cursor.flush().unwrap();
}
