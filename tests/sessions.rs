use std::io::{self, Cursor, Read, Seek, SeekFrom};
use xfind::{find_iter, rfind_iter, RevStep, SearchError, Step, StreamFinder};

/// A stream that hands out its bytes in reads of varying, small sizes.
struct Trickle {
    data: Vec<u8>,
    pos: usize,
    turn: usize,
}

impl Read for Trickle {
    fn read(&mut self, out: &mut [u8]) -> io::Result<usize> {
        self.turn += 1;
        let size = [1, 7, 5, 3, 4096, 13, 2][self.turn % 7];
        let size = size.min(out.len()).min(self.data.len() - self.pos);
        out[..size].copy_from_slice(&self.data[self.pos..self.pos + size]);
        self.pos += size;
        Ok(size)
    }
}

fn forward<R: Read>(needle: &[u8], rdr: &mut R) -> Vec<usize> {
    let mut it = find_iter(needle);
    let mut out = Vec::new();
    let mut scratch: Vec<u8> = Vec::new();
    loop {
        match it.poll() {
            Step::Found(p) => out.push(p),
            Step::Read(k) => {
                scratch.resize(k, 0);
                let n = rdr.read(&mut scratch[..k]).unwrap();
                it.feed(&scratch[..n]);
            }
            Step::Done => return out,
            Step::Failed(e) => panic!("search failed: {:?}", e),
        }
    }
}

fn backward<R: Read + Seek>(needle: &[u8], rdr: &mut R) -> Vec<usize> {
    let len = rdr.seek(SeekFrom::End(0)).unwrap();
    let mut it = rfind_iter(needle, len).unwrap();
    let mut out = Vec::new();
    loop {
        match it.poll() {
            RevStep::Found(p) => out.push(p),
            RevStep::ReadAt { pos, len } => {
                rdr.seek(SeekFrom::Start(pos as u64)).unwrap();
                let mut chunk = vec![0u8; len];
                rdr.read_exact(&mut chunk).unwrap();
                it.feed(&chunk);
            }
            RevStep::Done => return out,
        }
    }
}

/// Text of a few letters, long enough to span many windows.
fn text(len: usize) -> Vec<u8> {
    let mut state: u32 = 12345;
    (0..len)
        .map(|_| {
            state = state.wrapping_mul(1103515245).wrapping_add(12345);
            b"abcab d"[((state >> 16) % 7) as usize]
        })
        .collect()
}

fn reference(hay: &[u8], needle: &[u8]) -> Vec<usize> {
    memchr::memmem::find_iter(hay, needle).collect()
}

#[test]
fn forward_equals_in_memory_search() {
    let hay = text(50_000);
    for needle in [&b"a"[..], b"ab", b"abc", b"ca", b"b d", b"dab", b"abcab"] {
        let expected = reference(&hay, needle);
        let found = forward(needle, &mut Cursor::new(&hay));
        assert!(found == expected, "whole reads differ for {:?}", needle);
        let mut trickle = Trickle { data: hay.clone(), pos: 0, turn: 0 };
        let found = forward(needle, &mut trickle);
        assert!(found == expected, "short reads differ for {:?}", needle);
    }
}

#[test]
fn backward_equals_reversed_in_memory_search() {
    let hay = text(50_000);
    for needle in [&b"a"[..], b"ab", b"abc", b"ca", b"b d", b"dab"] {
        let mut expected = reference(&hay, needle);
        expected.reverse();
        assert_eq!(backward(needle, &mut Cursor::new(&hay)), expected);
    }
}

#[test]
fn long_needle_spans_windows() {
    let needle: Vec<u8> = text(3000);
    let mut hay = text(40_000);
    hay.extend_from_slice(&needle);
    hay.extend(text(20_000));
    hay.extend_from_slice(&needle);
    let expected = reference(&hay, &needle);
    assert!(expected.len() >= 2);
    assert_eq!(forward(&needle, &mut Cursor::new(&hay)), expected);
    let mut reversed = expected.clone();
    reversed.reverse();
    assert_eq!(backward(&needle, &mut Cursor::new(&hay)), reversed);
}

#[test]
fn matches_near_the_start_from_the_end() {
    let mut hay = b"dear dear".to_vec();
    hay.extend(std::iter::repeat(b'.').take(3 * 8192 + 5));
    hay.extend_from_slice(b"dear");
    assert_eq!(backward(b"dear", &mut Cursor::new(&hay)), vec![hay.len() - 4, 5, 0]);
}

#[test]
fn straddling_match_is_found_once() {
    for pad in 8185..8195 {
        let mut hay = vec![b'x'; pad];
        hay.extend_from_slice(b"needle");
        hay.extend(vec![b'y'; 9000]);
        assert_eq!(forward(b"needle", &mut Cursor::new(&hay)), vec![pad]);
        assert_eq!(backward(b"needle", &mut Cursor::new(&hay)), vec![pad]);
    }
}

#[test]
fn self_overlapping_needle_across_a_roll() {
    let mut hay = vec![b'x'; 8188];
    hay.extend_from_slice(b"ababa");
    assert_eq!(forward(b"aba", &mut Cursor::new(&hay)), vec![8188]);

    let mut hay = vec![b'x'; 8189];
    hay.extend_from_slice(b"aaaa");
    assert_eq!(forward(b"aa", &mut Cursor::new(&hay)), vec![8189, 8191]);
    assert_eq!(reference(&hay, b"aa"), vec![8189, 8191]);
}

#[test]
fn self_overlapping_needle_from_each_end() {
    assert_eq!(forward(b"aa", &mut Cursor::new(b"aaa")), vec![0]);
    assert_eq!(backward(b"aa", &mut Cursor::new(b"aaa")), vec![1]);
    assert_eq!(backward(b"aa", &mut Cursor::new(b"aaaa")), vec![2, 0]);
}

#[test]
fn rerun_gives_same_matches() {
    let hay = text(30_000);
    let mut stream = Cursor::new(hay);
    let first = forward(b"ab", &mut stream);
    stream.seek(SeekFrom::Start(0)).unwrap();
    let second = forward(b"ab", &mut stream);
    assert_eq!(first, second);
    let first = backward(b"ab", &mut stream);
    let second = backward(b"ab", &mut stream);
    assert_eq!(first, second);
}

#[test]
fn first_read_asks_for_the_whole_window() {
    assert_eq!(find_iter(b"ab").poll(), Step::Read(8192));
    assert_eq!(find_iter(&[7u8; 2000]).poll(), Step::Read(16000));
    let mut it = rfind_iter(b"ab", 100).unwrap();
    assert_eq!(it.stream_len(), 100);
    assert_eq!(it.poll(), RevStep::ReadAt { pos: 0, len: 100 });
    let mut it = rfind_iter(b"ab", 20_000).unwrap();
    assert_eq!(it.poll(), RevStep::ReadAt { pos: 20_000 - 8192, len: 8192 });
}

#[test]
fn empty_needle_is_rejected() {
    let mut it = find_iter(b"");
    assert_eq!(it.poll(), Step::Failed(SearchError::EmptyNeedle));
    assert_eq!(it.poll(), Step::Done);
    assert!(matches!(rfind_iter(b"", 10), Err(SearchError::EmptyNeedle)));
    let finder = StreamFinder::new(b"");
    assert!(matches!(finder.rfind_iter(3), Err(SearchError::EmptyNeedle)));
}

#[test]
fn empty_stream_has_no_matches() {
    let mut it = find_iter(b"x");
    assert_eq!(it.poll(), Step::Read(8192));
    it.feed(b"");
    assert_eq!(it.poll(), Step::Done);
    let mut it = rfind_iter(b"x", 0).unwrap();
    assert_eq!(it.poll(), RevStep::Done);
}

#[test]
fn failed_read_ends_the_session() {
    let mut it = find_iter(b"ab");
    assert_eq!(it.poll(), Step::Read(8192));
    it.feed(b"xxab");
    assert_eq!(it.poll(), Step::Found(2));
    assert!(matches!(it.poll(), Step::Read(_)));
    it.fail();
    assert_eq!(it.poll(), Step::Done);

    let mut it = rfind_iter(b"ab", 10).unwrap();
    assert!(matches!(it.poll(), RevStep::ReadAt { .. }));
    it.fail();
    assert_eq!(it.poll(), RevStep::Done);
}

#[test]
fn short_reads_keep_straddling_matches() {
    let mut it = find_iter(b"abc");
    assert_eq!(it.poll(), Step::Read(8192));
    it.feed(b"xa");
    assert_eq!(it.poll(), Step::Read(8190));
    it.feed(b"b");
    assert!(matches!(it.poll(), Step::Read(_)));
    it.feed(b"cab");
    assert_eq!(it.poll(), Step::Found(1));
    assert!(matches!(it.poll(), Step::Read(_)));
    it.feed(b"c");
    assert_eq!(it.poll(), Step::Found(4));
    assert!(matches!(it.poll(), Step::Read(_)));
    it.feed(b"");
    assert_eq!(it.poll(), Step::Done);
}

#[test]
fn end_of_stream_after_partial_fill() {
    let mut it = find_iter(b"abc");
    assert_eq!(it.poll(), Step::Read(8192));
    it.feed(b"ab");
    assert_eq!(it.poll(), Step::Read(8190));
    it.feed(b"");
    assert_eq!(it.poll(), Step::Read(8190));
    it.feed(b"");
    assert_eq!(it.poll(), Step::Done);
}

#[test]
fn finder_keeps_its_needle() {
    let finder = StreamFinder::new(b"rust");
    assert_eq!(finder.needle(), b"rust");
    assert_eq!(forward(finder.needle(), &mut Cursor::new(b"rusty rust")), vec![0, 6]);
    assert_eq!(backward(finder.needle(), &mut Cursor::new(b"rusty rust")), vec![6, 0]);
}
