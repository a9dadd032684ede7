use std::io::{Cursor, Read, Seek, SeekFrom};
use xfind::{Buffer, BufferRev};

/// Reads into the free part of `buf` until it holds its minimum length or
/// the stream ends; false when nothing at all could be read.
fn fill_from<R: Read>(buf: &mut Buffer, rdr: &mut R) -> bool {
    let mut read_any = false;
    loop {
        let mut scratch = vec![0u8; buf.free_buffer()];
        let n = rdr.read(&mut scratch).unwrap();
        if n == 0 {
            return read_any;
        }
        read_any = true;
        if buf.fill(&scratch[..n]) {
            return true;
        }
    }
}

fn fill_exact_from<R: Read>(buf: &mut BufferRev, rdr: &mut R, amount: usize) {
    let mut scratch = vec![0u8; amount];
    rdr.read_exact(&mut scratch).unwrap();
    buf.fill_exact(&scratch);
}

#[test]
fn test_buffer() {
    let mut haystack = Cursor::new("0123456789".as_bytes());
    let mut buf = Buffer::new(2);
    assert_eq!(buf.min_buffer_len(), 2);

    while fill_from(&mut buf, &mut haystack) {}
    assert_eq!(buf.buffer(), b"0123456789");
    assert_eq!(buf.len(), 10);

    buf.roll();
    assert_eq!(buf.buffer(), "89".as_bytes());
    assert_eq!(buf.len(), 2);
}

#[test]
fn test_buffer_rev() {
    let mut haystack = Cursor::new("0123456789".as_bytes());
    let mut buf = BufferRev::new(2);
    assert_eq!(buf.min_buffer_len(), 2);

    haystack.seek(SeekFrom::End(-4)).unwrap();
    fill_exact_from(&mut buf, &mut haystack, 4);
    assert_eq!(buf.buffer(), "6789".as_bytes());
    assert_eq!(buf.len(), 4);

    buf.roll_right();
    assert_eq!(buf.buffer(), "67".as_bytes());
    assert_eq!(buf.len(), 2);

    haystack.seek(SeekFrom::End(-10)).unwrap();
    fill_exact_from(&mut buf, &mut haystack, 6);
    assert_eq!(buf.buffer(), "01234567".as_bytes());
    assert_eq!(buf.len(), 8);
}

#[test]
fn window_capacity_follows_needle_length() {
    assert_eq!(BufferRev::new(1).capacity(), 8192);
    assert_eq!(BufferRev::new(0).capacity(), 8192);
    assert_eq!(BufferRev::new(1024).capacity(), 8192);
    assert_eq!(BufferRev::new(1025).capacity(), 8200);
    assert_eq!(BufferRev::new(5000).capacity(), 40000);
    assert_eq!(Buffer::new(0).min_buffer_len(), 1);
    assert_eq!(Buffer::new(1025).free_buffer(), 8200);
    assert_eq!(BufferRev::new(7).free_buffer(), 8192);
}

#[test]
fn fill_appends_and_reports_minimum() {
    let mut buf = Buffer::new(4);
    assert!(!buf.fill(b"ab"));
    assert_eq!(buf.buffer(), b"ab");
    assert!(buf.fill(b"cdef"));
    assert_eq!(buf.buffer(), b"abcdef");
    assert_eq!(buf.free_buffer(), 8192 - 6);
    buf.roll();
    assert_eq!(buf.buffer(), b"cdef");
}

#[test]
fn fill_exact_prepends() {
    let mut buf = BufferRev::new(3);
    buf.fill_exact(b"xyz");
    buf.fill_exact(b"uvw");
    assert_eq!(buf.buffer(), b"uvwxyz");
    assert_eq!(buf.free_buffer(), 8192 - 6);
    buf.roll_right();
    assert_eq!(buf.buffer(), b"uvw");
    assert_eq!(buf.len(), 3);
}
