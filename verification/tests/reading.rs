//! Reading a source line by line.

use splitter::error::Error;
use splitter::field_set::FieldSet;
use splitter::lazy_vec::LazyVec;
use splitter::regex_cache::{RegexCache, RegexEngine};
use splitter::source::{Feed, Signal};
use splitter::str_impl::Str;
use splitter::{DefaultLine, DefaultSplitter, Line, LineReader, SimpleSplitter, SplitterImpl, WhiteSpace};

/// An engine that splits at white space, whatever the pattern.
struct Words;

impl RegexEngine for Words {
    fn split(&mut self, _pat: &Str, s: &Str, _used: &FieldSet) -> Result<Vec<Str>, String> {
        let text = String::from_utf8(s.as_bytes().to_vec()).unwrap();
        Ok(text.split_whitespace().map(|w| Str::new(w.as_bytes())).collect())
    }
}

fn text(s: &Str) -> String {
    String::from_utf8(s.as_bytes().to_vec()).unwrap()
}

fn string(s: &str) -> Str {
    Str::new(s.as_bytes())
}

fn bytes(s: &str) -> Feed {
    Feed::from_bytes(s.as_bytes())
}

fn signals(s: &str) -> Vec<Signal> {
    s.bytes().map(Signal::Byte).collect()
}

/// The line as a whole, and its fields.
fn contents(line: &mut DefaultLine) -> (String, Vec<String>) {
    let mut rc = RegexCache::new(Words);
    let sep = string(" ");
    let whole = line.get_col(0, &sep, &sep, &mut rc).unwrap();
    let nf = line.nf(&sep, &mut rc).unwrap();
    let fields = (1..=nf)
        .map(|i| text(&line.get_col(i as i64, &sep, &sep, &mut rc).unwrap()))
        .collect();
    (text(&whole), fields)
}

/// All lines, until the reader reports the end of the input.
fn all_lines<S: SplitterImpl>(splitter: S, feed: Feed, chunk: usize) -> Vec<(String, Vec<String>)> {
    let mut rc = RegexCache::new(Words);
    let mut reader = DefaultSplitter::new(splitter, feed, chunk, string("input"));
    let mut line = DefaultLine::default();
    let mut res = Vec::new();
    loop {
        reader.read_line_reuse(&string(" "), &mut rc, &mut line).unwrap();
        match reader.read_state() {
            1 => res.push(contents(&mut line)),
            0 => return res,
            code => panic!("read state {}", code),
        }
    }
}

fn expected(lines: &[(&str, &[&str])]) -> Vec<(String, Vec<String>)> {
    lines
        .iter()
        .map(|(line, fields)| {
            (line.to_string(), fields.iter().map(|f| f.to_string()).collect())
        })
        .collect()
}

#[test]
fn blanks_around_fields_do_not_count() {
    let got = all_lines(WhiteSpace, bytes("\n     \n 1 2    \n"), 64);
    assert_eq!(
        got,
        expected(&[("", &[]), ("     ", &[]), (" 1 2    ", &["1", "2"])])
    );
}

#[test]
fn all_kinds_of_blanks_separate_fields() {
    let got = all_lines(WhiteSpace, bytes("a b\tc\x0bd\x0ce\r\n"), 64);
    assert_eq!(got, expected(&[("a b\tc\x0bd\x0ce\r", &["a", "b", "c", "d", "e"])]));
}

#[test]
fn lines_do_not_depend_on_the_chunk_size() {
    let input = "ab cd\n  ef\tgh  \n\nij kl";
    let want = expected(&[
        ("ab cd", &["ab", "cd"]),
        ("  ef\tgh  ", &["ef", "gh"]),
        ("", &[]),
        ("ij kl", &["ij", "kl"]),
    ]);
    for chunk in 1..40 {
        assert_eq!(all_lines(WhiteSpace, bytes(input), chunk), want, "chunk size {}", chunk);
    }
}

#[test]
fn a_field_that_ends_with_its_chunk_is_kept() {
    assert_eq!(
        all_lines(WhiteSpace, bytes("ab cd\n"), 3),
        expected(&[("ab cd", &["ab", "cd"])])
    );
    assert_eq!(
        all_lines(WhiteSpace, bytes("ab cd\n"), 2),
        expected(&[("ab cd", &["ab", "cd"])])
    );
    assert_eq!(all_lines(WhiteSpace, bytes("abcd\n"), 4), expected(&[("abcd", &["abcd"])]));
}

#[test]
fn characters_may_cross_the_boundaries_of_chunks() {
    let input = "zażółć €€ x\n😀😀 \u{10ffff}\n";
    let want = expected(&[
        ("zażółć €€ x", &["zażółć", "€€", "x"]),
        ("😀😀 \u{10ffff}", &["😀😀", "\u{10ffff}"]),
    ]);
    for chunk in 4..50 {
        assert_eq!(all_lines(WhiteSpace, bytes(input), chunk), want, "chunk size {}", chunk);
    }
}

#[test]
fn short_chunks_are_enough_for_short_characters() {
    let want = expected(&[("é è", &["é", "è"])]);
    assert_eq!(all_lines(WhiteSpace, bytes("é è\n"), 3), want);
    let want = expected(&[("€ €", &["€", "€"])]);
    assert_eq!(all_lines(WhiteSpace, bytes("€ €\n"), 4), want);
}

#[test]
fn single_separators_leave_empty_fields() {
    let input = "a,,b\n\n,\nx y,z\n";
    let want = expected(&[
        ("a,,b", &["a", "", "b"]),
        ("", &[""]),
        (",", &["", ""]),
        ("x y,z", &["x y", "z"]),
    ]);
    for chunk in 1..20 {
        let splitter = SimpleSplitter::new(b'\n', b',');
        assert_eq!(all_lines(splitter, bytes(input), chunk), want, "chunk size {}", chunk);
    }
}

#[test]
fn single_separators_join_to_the_line_again() {
    for (whole, fields) in all_lines(SimpleSplitter::new(b';', b'|'), bytes("|a||bc|;d;"), 5) {
        assert_eq!(fields.join("|"), whole);
    }
}

#[test]
fn record_separators_may_be_chosen() {
    let got = all_lines(SimpleSplitter::new(b';', b'|'), bytes("a|b;c\nd;"), 64);
    assert_eq!(got, expected(&[("a|b", &["a", "b"]), ("c\nd", &["c\nd"])]));
}

#[test]
fn record_separators_come_before_field_separators() {
    let got = all_lines(SimpleSplitter::new(b',', b','), bytes("a,b,"), 64);
    assert_eq!(got, expected(&[("a", &["a"]), ("b", &["b"])]));
}

#[test]
fn the_last_line_needs_no_separator() {
    let got = all_lines(WhiteSpace, bytes("a b\nc d"), 64);
    assert_eq!(got, expected(&[("a b", &["a", "b"]), ("c d", &["c", "d"])]));
    let got = all_lines(SimpleSplitter::new(b'\n', b','), bytes("a,b\nc,d,"), 64);
    assert_eq!(got, expected(&[("a,b", &["a", "b"]), ("c,d,", &["c", "d", ""])]));
}

#[test]
fn blanks_at_the_end_of_the_input_do_not_count() {
    for chunk in 1..12 {
        let got = all_lines(WhiteSpace, bytes("1 2   "), chunk);
        assert_eq!(got, expected(&[("1 2   ", &["1", "2"])]), "chunk size {}", chunk);
        let got = all_lines(WhiteSpace, bytes("a\n "), chunk);
        assert_eq!(got, expected(&[("a", &["a"]), (" ", &[])]), "chunk size {}", chunk);
        let got = all_lines(WhiteSpace, bytes(" 1"), chunk);
        assert_eq!(got, expected(&[(" 1", &["1"])]), "chunk size {}", chunk);
    }
}

#[test]
fn the_fields_of_an_earlier_line_are_gone() {
    let mut reader = DefaultSplitter::new(WhiteSpace, bytes("a b c\n1 2 "), 1024, string("f"));
    let mut fields = LazyVec::new();
    let (whole, consumed) = reader.read_line_inner(&mut fields);
    assert_eq!((text(&whole).as_str(), consumed, fields.len()), ("a b c", 6, 3));
    let (whole, consumed) = reader.read_line_inner(&mut fields);
    assert_eq!((text(&whole).as_str(), consumed, fields.len()), ("1 2 ", 4, 2));
    assert_eq!(text(&fields.get(0).unwrap()), "1");
    assert_eq!(text(&fields.get(1).unwrap()), "2");
    assert!(fields.get(2).is_none());
    assert_eq!(reader.read_line_inner(&mut fields).1, 0);
    assert_eq!(fields.len(), 0);
}

#[test]
fn every_byte_is_taken_once() {
    for input in ["ab,c\n\nd", "ab,c\n\nd\n"] {
        for chunk in 1..12 {
            let splitter = SimpleSplitter::new(b'\n', b',');
            let mut reader = DefaultSplitter::new(splitter, bytes(input), chunk, string("f"));
            let mut fields = LazyVec::new();
            let mut taken = Vec::new();
            loop {
                let (whole, consumed) = reader.read_line_inner(&mut fields);
                if consumed == 0 {
                    break;
                }
                let commas = whole.as_bytes().iter().filter(|b| **b == b',').count();
                assert_eq!(fields.len(), 1 + commas);
                taken.push(consumed);
            }
            assert_eq!(taken.len(), 3);
            assert_eq!(taken.iter().sum::<usize>(), input.len());
        }
    }
}

#[test]
fn every_line_is_found_once_and_in_order() {
    let input: String = (0..200).map(|i| format!("line {}\n", i)).collect();
    let got = all_lines(WhiteSpace, bytes(&input), 7);
    assert_eq!(got.len(), 200);
    for (i, (whole, fields)) in got.iter().enumerate() {
        assert_eq!(*whole, format!("line {}", i));
        assert_eq!(*fields, vec!["line".to_string(), i.to_string()]);
    }
}

#[test]
fn the_end_of_the_input_shows_after_the_read() {
    let mut rc = RegexCache::new(Words);
    let mut reader = DefaultSplitter::new(WhiteSpace, bytes("a\n"), 64, string("input"));
    let mut line = DefaultLine::default();
    assert_eq!(reader.read_state(), 1);
    reader.read_line_reuse(&string(" "), &mut rc, &mut line).unwrap();
    assert_eq!(reader.read_state(), 1);
    assert_eq!(contents(&mut line).0, "a");
    for _ in 0..3 {
        reader.read_line_reuse(&string(" "), &mut rc, &mut line).unwrap();
        assert_eq!(reader.read_state(), 0);
        assert_eq!(contents(&mut line), (String::new(), vec![]));
    }
}

#[test]
fn an_empty_line_is_not_the_end_of_the_input() {
    let mut rc = RegexCache::new(Words);
    let mut reader = DefaultSplitter::new(WhiteSpace, bytes("\n"), 64, string("input"));
    let mut line = DefaultLine::default();
    reader.read_line_reuse(&string(" "), &mut rc, &mut line).unwrap();
    assert_eq!(reader.read_state(), 1);
    reader.read_line_reuse(&string(" "), &mut rc, &mut line).unwrap();
    assert_eq!(reader.read_state(), 0);
}

#[test]
fn an_empty_input_has_no_line() {
    assert_eq!(all_lines(WhiteSpace, bytes(""), 64), vec![]);
    assert_eq!(all_lines(SimpleSplitter::new(b'\n', b','), bytes(""), 64), vec![]);
}

#[test]
fn only_the_first_read_begins_a_file() {
    let mut rc = RegexCache::new(Words);
    let mut reader = DefaultSplitter::new(WhiteSpace, bytes("a\nb\n"), 64, string("input"));
    assert_eq!(text(&reader.filename()), "input");
    let (changed, mut line) = reader.read_line(&string(" "), &mut rc).unwrap();
    assert!(changed);
    assert_eq!(contents(&mut line).0, "a");
    let (changed, mut line) = reader.read_line(&string(" "), &mut rc).unwrap();
    assert!(!changed);
    assert_eq!(contents(&mut line).0, "b");
}

#[test]
fn a_file_can_be_left() {
    let mut rc = RegexCache::new(Words);
    let mut reader = DefaultSplitter::new(WhiteSpace, bytes("a\nb\nc\n"), 64, string("input"));
    let mut line = DefaultLine::default();
    reader.read_line_reuse(&string(" "), &mut rc, &mut line).unwrap();
    assert!(!reader.next_file());
    assert!(!reader.replace_line(&string(" "), &mut rc, &mut line).unwrap());
    assert_eq!(reader.read_state(), 0);
    assert_eq!(contents(&mut line).0, "");
}

#[test]
fn a_line_can_be_replaced() {
    let mut rc = RegexCache::new(Words);
    let mut reader = DefaultSplitter::new(WhiteSpace, bytes("a b\n"), 64, string("input"));
    let mut line = DefaultLine::default();
    line.set_col(0, &string("old"), &string(" "), &mut rc).unwrap();
    assert!(reader.replace_line(&string(" "), &mut rc, &mut line).unwrap());
    assert_eq!(contents(&mut line), ("a b".to_string(), vec!["a".to_string(), "b".to_string()]));
}

#[test]
fn interruptions_are_passed_over() {
    let mut tape = signals("ab");
    tape.push(Signal::Interrupted);
    tape.push(Signal::Interrupted);
    tape.extend(signals(" c\n"));
    tape.insert(0, Signal::Interrupted);
    let got = all_lines(WhiteSpace, Feed::new(tape), 4);
    assert_eq!(got, expected(&[("ab c", &["ab", "c"])]));
}

#[test]
fn an_unexpected_end_is_an_end() {
    let mut tape = signals("ab\ncd");
    tape.push(Signal::UnexpectedEof);
    let got = all_lines(WhiteSpace, Feed::new(tape), 64);
    assert_eq!(got, expected(&[("ab", &["ab"]), ("cd", &["cd"])]));
}

#[test]
fn a_failure_leaves_nothing_of_the_line() {
    let mut rc = RegexCache::new(Words);
    let mut tape = signals("ab\n");
    tape.push(Signal::Failed("disk on fire".to_string()));
    let mut reader = DefaultSplitter::new(WhiteSpace, Feed::new(tape), 3, string("input"));
    let mut line = DefaultLine::default();
    assert!(reader.read_line_reuse(&string(" "), &mut rc, &mut line).unwrap());
    assert_eq!(reader.read_state(), -1);
    assert_eq!(contents(&mut line), (String::new(), vec![]));
    // What was in the buffer is still there.
    assert!(!reader.read_line_reuse(&string(" "), &mut rc, &mut line).unwrap());
    assert_eq!(reader.read_state(), 1);
    assert_eq!(contents(&mut line).0, "ab");
    reader.read_line_reuse(&string(" "), &mut rc, &mut line).unwrap();
    assert_eq!(reader.read_state(), 0);
}

#[test]
fn input_that_is_not_utf8_is_an_error() {
    let mut rc = RegexCache::new(Words);
    for input in [&b"a\n\xff\n"[..], &b"\xe2\x82"[..], &b"\xed\xa0\x80\n"[..]] {
        let mut reader =
            DefaultSplitter::new(WhiteSpace, Feed::from_bytes(input), 64, string("input"));
        let mut line = DefaultLine::default();
        reader.read_line_reuse(&string(" "), &mut rc, &mut line).unwrap();
        assert_eq!(reader.read_state(), -1);
        assert_eq!(contents(&mut line), (String::new(), vec![]));
    }
}

#[test]
fn fields_that_are_not_used_are_left_out() {
    let mut rc = RegexCache::new(Words);
    for chunk in 1..12 {
        let mut reader =
            DefaultSplitter::new(WhiteSpace, bytes("aa bb cc\ndd\n"), chunk, string("input"));
        reader.set_used_fields(&FieldSet::empty().with(2));
        let mut line = DefaultLine::default();
        reader.read_line_reuse(&string(" "), &mut rc, &mut line).unwrap();
        assert_eq!(line.used_fields(), FieldSet::empty().with(2));
        let want = (String::new(), vec![String::new(), "bb".to_string(), String::new()]);
        assert_eq!(contents(&mut line), want, "chunk size {}", chunk);
        reader.read_line_reuse(&string(" "), &mut rc, &mut line).unwrap();
        assert_eq!(contents(&mut line), (String::new(), vec![String::new()]));
    }
}

#[test]
fn single_separators_leave_out_fields_too() {
    let mut rc = RegexCache::new(Words);
    for chunk in 1..12 {
        let mut reader = DefaultSplitter::new(
            SimpleSplitter::new(b'\n', b','),
            bytes("aa,bb,cc\ndd,ee"),
            chunk,
            string("input"),
        );
        reader.set_used_fields(&FieldSet::empty().with(0).with(2));
        let mut line = DefaultLine::default();
        reader.read_line_reuse(&string(","), &mut rc, &mut line).unwrap();
        let want = ("aa,bb,cc".to_string(), vec![String::new(), "bb".to_string(), String::new()]);
        assert_eq!(contents(&mut line), want, "chunk size {}", chunk);
        reader.read_line_reuse(&string(","), &mut rc, &mut line).unwrap();
        let want = ("dd,ee".to_string(), vec![String::new(), "ee".to_string()]);
        assert_eq!(contents(&mut line), want, "chunk size {}", chunk);
    }
}

#[test]
fn a_line_that_needs_all_fields_makes_the_next_one_have_them() {
    let mut rc = RegexCache::new(Words);
    let sep = string(" ");
    let mut reader = DefaultSplitter::new(WhiteSpace, bytes("a b c\nd e f\ng h i\n"), 64, string("in"));
    reader.set_used_fields(&FieldSet::empty().with(0).with(2));
    let mut line = DefaultLine::default();
    reader.read_line_reuse(&sep, &mut rc, &mut line).unwrap();
    line.set_col(2, &string("x"), &sep, &mut rc).unwrap();
    assert_eq!(text(&line.get_col(0, &sep, &sep, &mut rc).unwrap()), "a x c");
    assert_eq!(line.used_fields(), FieldSet::all());
    // The line that was being read into decides from the next read on.
    reader.read_line_reuse(&sep, &mut rc, &mut line).unwrap();
    assert_eq!(line.used_fields(), FieldSet::all());
    reader.read_line_reuse(&sep, &mut rc, &mut line).unwrap();
    let want = ("g h i".to_string(), vec!["g".to_string(), "h".to_string(), "i".to_string()]);
    assert_eq!(contents(&mut line), want);
}

/// A reader whose reads fail.
struct Broken;

impl LineReader for Broken {
    type Line = DefaultLine;

    fn filename(&self) -> Str {
        string("broken")
    }

    fn read_line_reuse<E: RegexEngine>(
        &mut self,
        _pat: &Str,
        _rc: &mut RegexCache<E>,
        _line: &mut DefaultLine,
    ) -> Result<bool, Error> {
        Err(Error::Read("gone".to_string()))
    }

    fn read_state(&self) -> i64 {
        -1
    }

    fn next_file(&mut self) -> bool {
        false
    }

    fn set_used_fields(&mut self, _used_fields: &FieldSet) {}
}

#[test]
fn a_line_that_cannot_be_replaced_stays() {
    let mut rc = RegexCache::new(Words);
    let mut line = DefaultLine::default();
    line.set_col(0, &string("old"), &string(" "), &mut rc).unwrap();
    let err = Broken.replace_line(&string(" "), &mut rc, &mut line).unwrap_err();
    assert_eq!(err.message(), "read error gone");
    assert_eq!(contents(&mut line).0, "old");
    assert!(Broken.read_line(&string(" "), &mut rc).is_err());
}
