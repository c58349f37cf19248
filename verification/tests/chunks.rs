//! Reading in chunks, and what happens to characters at their boundaries.

use splitter::error::Error;
use splitter::reader::{read_to_slice, Reader, PADDING};
use splitter::source::{Feed, ReadError, Signal, Source};
use splitter::stream::ReaderState;
use splitter::utf8::{is_utf8, utf8_fault, validate_utf8_clipped};

/// A source that hands out at most `step` bytes at a time.
struct Trickle {
    bytes: Vec<u8>,
    step: usize,
}

impl Source for Trickle {
    fn read(&mut self, buf: &mut [u8]) -> Result<usize, ReadError> {
        let n = self.step.min(buf.len()).min(self.bytes.len());
        let rest = self.bytes.split_off(n);
        buf[..n].copy_from_slice(&self.bytes);
        self.bytes = rest;
        Ok(n)
    }
}

fn feed(s: &str) -> Feed {
    Feed::from_bytes(s.as_bytes())
}

/// What is left in the buffer.
fn buffer<R: Source>(reader: &Reader<R>) -> String {
    let all = reader.slice_to_str(0, reader.remaining());
    String::from_utf8(all.as_bytes().to_vec()).unwrap()
}

#[test]
fn a_buffer_is_filled_as_far_as_there_is_input() {
    let mut buf = [7u8; 4];
    let mut source = feed("abcdef");
    assert_eq!(read_to_slice(&mut source, &mut buf).unwrap(), 4);
    assert_eq!(&buf, b"abcd");
    assert_eq!(read_to_slice(&mut source, &mut buf).unwrap(), 2);
    assert_eq!(&buf[..2], b"ef");
    assert_eq!(read_to_slice(&mut source, &mut buf).unwrap(), 0);
}

#[test]
fn what_is_behind_the_bytes_that_were_read_stays() {
    let mut buf = [9u8; 5];
    let mut source = Feed::from_bytes(&[1, 2, 3]);
    assert_eq!(read_to_slice(&mut source, &mut buf).unwrap(), 3);
    assert_eq!(buf, [1, 2, 3, 9, 9]);
}

#[test]
fn a_buffer_is_padded_with_zeros() {
    let mut reader = Reader::new(feed("abcdef"), 4);
    let (buf, len) = reader.get_next_buf().unwrap();
    assert_eq!(len, 4);
    assert_eq!(buf.as_bytes().len(), 4 + PADDING);
    assert_eq!(&buf.as_bytes()[..4], b"abcd");
    assert!(buf.as_bytes()[4..].iter().all(|b| *b == 0));
    let (buf, len) = reader.get_next_buf().unwrap();
    assert_eq!(len, 2);
    assert_eq!(buf.as_bytes().len(), 4 + PADDING);
    assert_eq!(&buf.as_bytes()[..2], b"ef");
    assert!(buf.as_bytes()[2..].iter().all(|b| *b == 0));
}

#[test]
fn short_reads_are_repeated() {
    let mut buf = [0u8; 7];
    let mut source = Trickle { bytes: b"abcdefghij".to_vec(), step: 3 };
    assert_eq!(read_to_slice(&mut source, &mut buf).unwrap(), 7);
    assert_eq!(&buf, b"abcdefg");
}

#[test]
fn a_failed_read_is_reported() {
    let mut buf = [0u8; 4];
    let mut source = Feed::new(vec![Signal::Byte(b'a'), Signal::Failed("no disk".to_string())]);
    let err = read_to_slice(&mut source, &mut buf).unwrap_err();
    assert_eq!(err.message(), "read error no disk");
}

#[test]
fn the_end_of_a_character_waits_for_the_next_chunk() {
    let mut reader = Reader::new(feed("ab€cd😀"), 4);
    assert!(!reader.is_eof());
    assert_eq!(reader.remaining(), 0);
    let mut chunks = Vec::new();
    while !reader.is_eof() {
        let n = reader.remaining();
        reader.advance(n).unwrap();
        chunks.push(buffer(&reader));
    }
    assert_eq!(chunks, vec!["ab", "€c", "d", "😀", ""]);
}

#[test]
fn a_reader_can_be_advanced_over_several_chunks() {
    let mut reader = Reader::new(feed("abcdefghijkl"), 4);
    reader.advance(0).unwrap();
    assert_eq!(buffer(&reader), "abcd");
    reader.advance(1).unwrap();
    assert_eq!(buffer(&reader), "bcd");
    assert_eq!(reader.byte(1), b'c');
    reader.advance(8).unwrap();
    assert_eq!(buffer(&reader), "jkl");
    reader.advance(100).unwrap();
    assert!(reader.is_eof());
    reader.advance(1).unwrap();
    assert!(reader.is_eof());
}

#[test]
fn the_state_is_held_back_while_there_was_a_line() {
    let mut reader = Reader::new(feed("ab"), 4);
    assert_eq!(reader.read_state(), 1);
    reader.force_eof();
    assert!(reader.is_eof());
    assert_eq!(reader.read_state(), 0);
    reader.set_last_len(3);
    assert_eq!(reader.read_state(), 1);
    reader.set_state(ReaderState::ERROR);
    assert_eq!(reader.read_state(), 1);
    reader.set_last_len(0);
    assert_eq!(reader.read_state(), -1);
    reader.set_state(ReaderState::OK);
    assert_eq!(reader.read_state(), 1);
}

#[test]
fn text_that_is_not_utf8_is_reported_as_std_does() {
    for bytes in [&b"a\xffb"[..], &b"a\xe2\x82"[..], &b"\xf0\x9f\x98x"[..], &b"ab\xc0\x80"[..]] {
        let mut reader = Reader::new(Feed::from_bytes(bytes), 64);
        let err = reader.advance(0).unwrap_err();
        let want = std::str::from_utf8(bytes).unwrap_err();
        assert!(matches!(err, Error::InvalidUtf8(_, _)));
        assert_eq!(err.message(), format!("invalid utf8: {}", want));
    }
}

#[test]
fn a_clipped_character_must_be_completed() {
    // The first chunk ends inside a character that the second one does not complete.
    let mut reader = Reader::new(Feed::from_bytes(b"abc\xe2xyz"), 4);
    reader.advance(0).unwrap();
    assert_eq!(buffer(&reader), "abc");
    let err = reader.advance(3).unwrap_err();
    assert!(matches!(err, Error::InvalidUtf8(0, Some(1))));
}

/// Bytes from all ranges that matter in UTF-8, and the boundaries between them.
const BYTES: [u8; 26] = [
    0x00, 0x41, 0x7f, 0x80, 0x8f, 0x90, 0x9f, 0xa0, 0xbf, 0xc0, 0xc1, 0xc2, 0xdf, 0xe0, 0xe1, 0xec,
    0xed, 0xee, 0xef, 0xf0, 0xf1, 0xf3, 0xf4, 0xf5, 0xf8, 0xff,
];

fn check_validation(bytes: &[u8]) {
    match std::str::from_utf8(bytes) {
        Ok(_) => {
            assert!(is_utf8(bytes));
            assert_eq!(validate_utf8_clipped(bytes), Some(bytes.len()));
        }
        Err(e) => {
            assert!(!is_utf8(bytes));
            let (at, len) = utf8_fault(bytes);
            assert_eq!((at, len.map(|n| n as usize)), (e.valid_up_to(), e.error_len()));
            let clip = if e.error_len().is_none() { Some(e.valid_up_to()) } else { None };
            assert_eq!(validate_utf8_clipped(bytes), clip);
        }
    }
}

#[test]
fn validation_agrees_with_std() {
    check_validation(b"");
    for a in 0..=255u8 {
        check_validation(&[a]);
        for b in 0..=255u8 {
            check_validation(&[a, b]);
        }
    }
    for a in BYTES {
        for b in BYTES {
            for c in BYTES {
                check_validation(&[a, b, c]);
                for d in BYTES {
                    check_validation(&[a, b, c, d]);
                }
            }
        }
    }
    check_validation("zażółć gęślą jaźń €😀".as_bytes());
}
