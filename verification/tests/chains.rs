//! Several inputs, read one after the other.

use splitter::field_set::FieldSet;
use splitter::regex_cache::{RegexCache, RegexEngine};
use splitter::source::{Feed, Signal};
use splitter::str_impl::Str;
use splitter::{ChainedReader, DefaultLine, DefaultSplitter, Line, LineReader, WhiteSpace};

/// An engine that is not meant to be asked for anything.
struct Idle;

impl RegexEngine for Idle {
    fn split(&mut self, _pat: &Str, _s: &Str, _used: &FieldSet) -> Result<Vec<Str>, String> {
        Err("not expected to split".to_string())
    }
}

fn text(s: &Str) -> String {
    String::from_utf8(s.as_bytes().to_vec()).unwrap()
}

fn string(s: &str) -> Str {
    Str::new(s.as_bytes())
}

fn file(name: &str, contents: &str) -> DefaultSplitter<Feed, WhiteSpace> {
    DefaultSplitter::new(WhiteSpace, Feed::from_bytes(contents.as_bytes()), 16, string(name))
}

/// Reads on: whether a file has begun, the line, the state, and the file name.
fn next<R: LineReader<Line = DefaultLine>>(
    reader: &mut R,
    line: &mut DefaultLine,
) -> (bool, String, i64, String) {
    let mut rc = RegexCache::new(Idle);
    let sep = string(" ");
    let changed = reader.read_line_reuse(&sep, &mut rc, line).unwrap();
    let whole = line.get_col(0, &sep, &sep, &mut rc).unwrap();
    (changed, text(&whole), reader.read_state(), text(&reader.filename()))
}

fn row(changed: bool, line: &str, state: i64, name: &str) -> (bool, String, i64, String) {
    (changed, line.to_string(), state, name.to_string())
}

#[test]
fn files_are_read_in_turn() {
    let files = vec![file("one", "a\nb\n"), file("two", ""), file("three", "c\n")];
    let mut chain = ChainedReader::new(files.into_iter());
    let mut line = DefaultLine::default();
    assert_eq!(text(&chain.filename()), "one");
    assert_eq!(next(&mut chain, &mut line), row(true, "a", 1, "one"));
    assert_eq!(next(&mut chain, &mut line), row(false, "b", 1, "one"));
    assert_eq!(next(&mut chain, &mut line), row(true, "c", 1, "three"));
    assert_eq!(next(&mut chain, &mut line), row(true, "", 0, ""));
    assert_eq!(next(&mut chain, &mut line), row(false, "", 0, ""));
}

#[test]
fn a_chain_without_files_is_at_its_end() {
    let mut chain = ChainedReader::new(Vec::<DefaultSplitter<Feed, WhiteSpace>>::new().into_iter());
    let mut line = DefaultLine::default();
    assert_eq!(chain.read_state(), 0);
    assert_eq!(next(&mut chain, &mut line), row(false, "", 0, ""));
    assert!(!chain.next_file());
}

#[test]
fn the_rest_of_a_file_can_be_skipped() {
    let files = vec![file("one", "a\nb\n"), file("two", "c\nd\n")];
    let mut chain = ChainedReader::new(files.into_iter());
    let mut line = DefaultLine::default();
    assert_eq!(next(&mut chain, &mut line), row(true, "a", 1, "one"));
    assert!(chain.next_file());
    assert_eq!(next(&mut chain, &mut line), row(true, "c", 1, "two"));
    assert!(chain.next_file());
    assert!(!chain.next_file());
    assert_eq!(next(&mut chain, &mut line), row(false, "", 0, ""));
}

#[test]
fn a_failure_does_not_end_a_file() {
    let tape = vec![Signal::Failed("no".to_string()), Signal::Byte(b'x'), Signal::Byte(b'\n')];
    let first = DefaultSplitter::new(WhiteSpace, Feed::new(tape), 16, string("one"));
    let mut chain = ChainedReader::new(vec![first, file("two", "c\n")].into_iter());
    let mut line = DefaultLine::default();
    assert_eq!(next(&mut chain, &mut line), row(true, "", -1, "one"));
    assert_eq!(next(&mut chain, &mut line), row(false, "x", 1, "one"));
    assert_eq!(next(&mut chain, &mut line), row(true, "c", 1, "two"));
}

#[test]
fn all_files_are_told_of_the_used_fields() {
    let mut rc = RegexCache::new(Idle);
    let sep = string(" ");
    let files = vec![file("one", "a b\n"), file("two", "c d\n")];
    let mut chain = ChainedReader::new(files.into_iter());
    chain.set_used_fields(&FieldSet::empty().with(2));
    for want in ["b", "d"] {
        let (changed, mut line) = chain.read_line(&sep, &mut rc).unwrap();
        assert!(changed);
        assert_eq!(text(&line.get_col(0, &sep, &sep, &mut rc).unwrap()), "");
        assert_eq!(text(&line.get_col(1, &sep, &sep, &mut rc).unwrap()), "");
        assert_eq!(text(&line.get_col(2, &sep, &sep, &mut rc).unwrap()), want);
    }
}

#[test]
fn chains_can_be_chained() {
    let inner1 = ChainedReader::new(vec![file("one", "a\n"), file("two", "b\n")].into_iter());
    let inner2 = ChainedReader::new(vec![file("three", "c\n")].into_iter());
    let mut chain = ChainedReader::new(vec![inner1, inner2].into_iter());
    let mut line = DefaultLine::default();
    assert_eq!(next(&mut chain, &mut line), row(true, "a", 1, "one"));
    assert_eq!(next(&mut chain, &mut line), row(true, "b", 1, "two"));
    assert_eq!(next(&mut chain, &mut line), row(true, "c", 1, "three"));
    assert_eq!(next(&mut chain, &mut line), row(true, "", 0, ""));
}
