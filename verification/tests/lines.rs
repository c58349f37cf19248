//! Access to the fields of a line.

use splitter::error::Error;
use splitter::field_set::FieldSet;
use splitter::line::normalize_join_indexes;
use splitter::regex_cache::{RegexCache, RegexEngine};
use splitter::source::Feed;
use splitter::str_impl::Str;
use splitter::{DefaultLine, DefaultSplitter, Line, LineReader, WhiteSpace};

/// An engine that takes patterns literally, and notes what it was asked for.
struct Literal {
    asked: Vec<(String, String, FieldSet)>,
    fails: bool,
}

impl RegexEngine for Literal {
    fn split(&mut self, pat: &Str, s: &Str, used: &FieldSet) -> Result<Vec<Str>, String> {
        self.asked.push((text(pat), text(s), *used));
        if self.fails {
            return Err("cannot split".to_string());
        }
        if s.as_bytes().is_empty() {
            return Ok(Vec::new());
        }
        let pieces = text(s);
        Ok(pieces
            .split(&text(pat))
            .enumerate()
            .map(|(i, w)| if used.get(i + 1) { string(w) } else { Str::default() })
            .collect())
    }
}

fn text(s: &Str) -> String {
    String::from_utf8(s.as_bytes().to_vec()).unwrap()
}

fn string(s: &str) -> Str {
    Str::new(s.as_bytes())
}

fn cache() -> RegexCache<Literal> {
    RegexCache::new(Literal { asked: Vec::new(), fails: false })
}

fn failing() -> RegexCache<Literal> {
    RegexCache::new(Literal { asked: Vec::new(), fails: true })
}

fn line(s: &str) -> DefaultLine {
    let mut line = DefaultLine::default();
    line.set_col(0, &string(s), &string(" "), &mut cache()).unwrap();
    line
}

fn get(line: &mut DefaultLine, col: i64) -> String {
    text(&line.get_col(col, &string(" "), &string(" "), &mut cache()).unwrap())
}

fn set(line: &mut DefaultLine, col: i64, s: &str) {
    line.set_col(col, &string(s), &string(" "), &mut cache()).unwrap();
}

#[test]
fn a_new_line_is_empty() {
    let mut l = DefaultLine::default();
    assert_eq!(get(&mut l, 0), "");
    assert_eq!(get(&mut l, 1), "");
    assert_eq!(l.nf(&string(" "), &mut cache()).unwrap(), 0);
    assert_eq!(l.used_fields(), FieldSet::all());
}

#[test]
fn fields_are_split_when_they_are_asked_for() {
    let mut l = line("a b c");
    assert_eq!(l.nf(&string(" "), &mut cache()).unwrap(), 3);
    assert_eq!(get(&mut l, 1), "a");
    assert_eq!(get(&mut l, 3), "c");
    assert_eq!(get(&mut l, 4), "");
    assert_eq!(get(&mut l, i64::MAX), "");
    assert_eq!(get(&mut l, 0), "a b c");
}

#[test]
fn a_line_is_split_once() {
    let mut l = line("a b");
    assert_eq!(l.nf(&string(" "), &mut cache()).unwrap(), 2);
    // From here on, no engine is needed.
    assert_eq!(l.nf(&string(" "), &mut failing()).unwrap(), 2);
    let b = l.get_col(2, &string(" "), &string(" "), &mut failing()).unwrap();
    assert_eq!(text(&b), "b");
}

#[test]
fn the_pattern_decides_how_a_line_is_split() {
    let mut l = line("a-b c");
    let first = l.get_col(1, &string("-"), &string(" "), &mut cache()).unwrap();
    assert_eq!(text(&first), "a");
    assert_eq!(get(&mut l, 2), "b c");
}

#[test]
fn the_line_follows_assignments_to_fields() {
    let mut l = line("carrot leek kale");
    set(&mut l, 1, "turnip");
    set(&mut l, 2, "rutabaga");
    assert_eq!(get(&mut l, 0), "turnip rutabaga kale");
    set(&mut l, 3, "beet");
    let whole = l.get_col(0, &string(" "), &string(", "), &mut cache()).unwrap();
    assert_eq!(text(&whole), "turnip, rutabaga, beet");
    // The separator matters only when the line is put together.
    assert_eq!(get(&mut l, 0), "turnip, rutabaga, beet");
}

#[test]
fn an_assigned_field_reads_back() {
    let mut l = line("a b c");
    set(&mut l, 2, "x y");
    assert_eq!(get(&mut l, 2), "x y");
    assert_eq!(get(&mut l, 1), "a");
    assert_eq!(get(&mut l, 3), "c");
    assert_eq!(l.nf(&string(" "), &mut failing()).unwrap(), 3);
}

#[test]
fn assignment_past_the_last_field_makes_empty_ones() {
    let mut l = line("a b");
    set(&mut l, 5, "x");
    assert_eq!(l.nf(&string(" "), &mut failing()).unwrap(), 5);
    assert_eq!(get(&mut l, 3), "");
    assert_eq!(get(&mut l, 5), "x");
    assert_eq!(get(&mut l, 0), "a b   x");
}

#[test]
fn a_line_without_fields_can_be_assigned_to() {
    let mut l = DefaultLine::default();
    assert_eq!(l.nf(&string(" "), &mut cache()).unwrap(), 0);
    assert_eq!(get(&mut l, 2), "");
    assert_eq!(l.nf(&string(" "), &mut cache()).unwrap(), 0);
    set(&mut l, 3, "x");
    assert_eq!(l.nf(&string(" "), &mut failing()).unwrap(), 3);
    assert_eq!(get(&mut l, 0), "  x");
}

#[test]
fn nothing_is_left_of_a_line_that_was_assigned_to() {
    let mut l = line("a b c d");
    set(&mut l, 7, "x");
    assert_eq!(l.nf(&string(" "), &mut cache()).unwrap(), 7);
    set(&mut l, 0, "e f");
    let fresh = line("e f").nf(&string(" "), &mut cache()).unwrap();
    assert_eq!(l.nf(&string(" "), &mut cache()).unwrap(), fresh);
    assert_eq!(l.nf(&string(" "), &mut failing()).unwrap(), 2);
    assert_eq!(get(&mut l, 3), "");
}

#[test]
fn a_failure_to_put_the_line_together_keeps_its_fields() {
    let mut l = projected(FieldSet::empty().with(0).with(1));
    set(&mut l, 2, "x");
    let sep = string(" ");
    let err = l.get_col(0, &sep, &sep, &mut failing()).unwrap_err();
    assert_eq!(err.message(), "cannot split");
    assert_eq!(l.used_fields(), FieldSet::all());
    assert_eq!(get(&mut l, 1), "a");
    assert_eq!(get(&mut l, 2), "x");
}

#[test]
fn assignment_to_the_line_replaces_the_fields() {
    let mut l = line("a b c");
    assert_eq!(get(&mut l, 2), "b");
    set(&mut l, 0, "d e");
    assert_eq!(get(&mut l, 0), "d e");
    assert_eq!(get(&mut l, 2), "e");
    assert_eq!(l.nf(&string(" "), &mut failing()).unwrap(), 2);
}

#[test]
fn fields_that_were_left_out_return_with_the_line() {
    let mut rc = cache();
    let sep = string(" ");
    let mut reader =
        DefaultSplitter::new(WhiteSpace, Feed::from_bytes(b"a b c d\n"), 64, string("input"));
    reader.set_used_fields(&FieldSet::empty().with(0).with(2).with(4));
    let mut l = DefaultLine::default();
    reader.read_line_reuse(&sep, &mut rc, &mut l).unwrap();
    assert_eq!(get(&mut l, 1), "");
    set(&mut l, 2, "x");
    let whole = l.get_col(0, &sep, &string("-"), &mut rc).unwrap();
    assert_eq!(text(&whole), "a-x-c-d");
    assert_eq!(get(&mut l, 1), "a");
    assert_eq!(l.used_fields(), FieldSet::all());
}

/// The line `a b c d`, of which only some fields were filled in.
fn projected(used: FieldSet) -> DefaultLine {
    let feed = Feed::from_bytes(b"a b c d\n");
    let mut reader = DefaultSplitter::new(WhiteSpace, feed, 64, string("input"));
    reader.set_used_fields(&used);
    let mut l = DefaultLine::default();
    reader.read_line_reuse(&string(" "), &mut cache(), &mut l).unwrap();
    l
}

#[test]
fn an_assignment_to_a_field_that_was_left_out_is_kept() {
    let mut l = projected(FieldSet::empty().with(0).with(1));
    set(&mut l, 2, "x");
    assert_eq!(get(&mut l, 0), "a x c d");
    set(&mut l, 4, "y");
    assert_eq!(get(&mut l, 0), "a x c y");
}

#[test]
fn an_assignment_past_the_last_field_is_kept() {
    let mut l = projected(FieldSet::empty().with(0).with(1));
    set(&mut l, 6, "x");
    set(&mut l, 1, "y");
    set(&mut l, 3, "z");
    assert_eq!(get(&mut l, 0), "y b z d  x");
    assert_eq!(l.nf(&string(" "), &mut failing()).unwrap(), 6);
    assert_eq!(get(&mut l, 5), "");
}

#[test]
fn an_assignment_to_the_line_undoes_those_to_its_fields() {
    let mut l = line("a b");
    set(&mut l, 1, "x");
    set(&mut l, 0, "c d");
    assert_eq!(get(&mut l, 0), "c d");
    assert_eq!(get(&mut l, 1), "c");
    let mut l = projected(FieldSet::empty().with(0).with(1));
    set(&mut l, 3, "x");
    set(&mut l, 0, "e f g");
    assert_eq!(get(&mut l, 0), "e f g");
    set(&mut l, 2, "y");
    assert_eq!(get(&mut l, 0), "e y g");
}

#[test]
fn assignments_do_not_outlive_the_line() {
    let feed = Feed::from_bytes(b"a b c\nd e f\n");
    let mut reader = DefaultSplitter::new(WhiteSpace, feed, 64, string("input"));
    reader.set_used_fields(&FieldSet::empty().with(0).with(1));
    let mut l = DefaultLine::default();
    reader.read_line_reuse(&string(" "), &mut cache(), &mut l).unwrap();
    set(&mut l, 2, "x");
    reader.read_line_reuse(&string(" "), &mut cache(), &mut l).unwrap();
    set(&mut l, 3, "y");
    assert_eq!(get(&mut l, 0), "d e y");
}

#[test]
fn a_split_that_fails_is_an_error() {
    let mut l = line("a b");
    let sep = string(" ");
    let err = l.nf(&sep, &mut failing()).unwrap_err();
    assert_eq!(err.message(), "cannot split");
    assert!(matches!(l.get_col(1, &sep, &sep, &mut failing()), Err(Error::Split(_))));
    assert!(matches!(l.set_col(1, &sep, &sep, &mut failing()), Err(Error::Split(_))));
    // Nothing has changed.
    assert_eq!(get(&mut l, 0), "a b");
    assert_eq!(get(&mut l, 2), "b");
}

#[test]
fn negative_fields_are_errors() {
    let mut l = line("a b");
    let sep = string(" ");
    let err = l.get_col(-3, &sep, &sep, &mut cache()).unwrap_err();
    assert_eq!(err.message(), "attempt to access field -3; field must be nonnegative");
    let err = l.set_col(-1, &sep, &sep, &mut cache()).unwrap_err();
    assert_eq!(err.message(), "attempt to access field -1; field must be nonnegative");
    assert_eq!(get(&mut l, 0), "a b");
}

fn join(l: &mut DefaultLine, start: i64, end: i64) -> Result<String, Error> {
    let nf = l.nf(&string(" "), &mut cache()).unwrap();
    l.join_cols(start, end, &string("+"), nf, |s| s).map(|s| text(&s))
}

#[test]
fn columns_are_joined() {
    let mut l = line("a b c d");
    assert_eq!(join(&mut l, 1, 4).unwrap(), "a+b+c+d");
    assert_eq!(join(&mut l, 2, 3).unwrap(), "b+c");
    assert_eq!(join(&mut l, 3, 99).unwrap(), "c+d");
    assert_eq!(join(&mut l, 4, 4).unwrap(), "d");
    assert_eq!(join(&mut l, 3, 2).unwrap(), "");
    assert_eq!(join(&mut l, 9, 2).unwrap(), "");
    assert_eq!(join(&mut l, 9, 12).unwrap(), "");
    assert_eq!(get(&mut l, 0), "a b c d");
}

#[test]
fn joined_columns_are_transformed() {
    let mut l = line("a b c");
    assert_eq!(l.nf(&string(" "), &mut cache()).unwrap(), 3);
    let res = l
        .join_cols(1, 3, &string(""), 3, |s| {
            Str::concat(string("<"), Str::concat(string(&text(&s).to_uppercase()), string(">")))
        })
        .unwrap();
    assert_eq!(text(&res), "<A><B><C>");
}

#[test]
fn columns_below_one_cannot_be_joined() {
    let mut l = line("a b");
    let err = join(&mut l, 0, 2).unwrap_err();
    assert_eq!(err.message(), "smallest joinable column is 1, got 0");
    let err = join(&mut l, 2, -1).unwrap_err();
    assert_eq!(err.message(), "smallest joinable column is 1, got 2");
    let err = join(&mut l, i64::MIN, 1).unwrap_err();
    assert_eq!(err.message(), "smallest joinable column is 1, got -9223372036854775808");
}

#[test]
fn join_indexes_are_normalized() {
    assert_eq!(normalize_join_indexes(1, 3, 3).unwrap(), (0, 3));
    assert_eq!(normalize_join_indexes(2, 9, 3).unwrap(), (1, 3));
    assert_eq!(normalize_join_indexes(3, 2, 3).unwrap(), (2, 2));
    assert_eq!(normalize_join_indexes(7, 2, 3).unwrap(), (2, 2));
    assert_eq!(normalize_join_indexes(5, 9, 3).unwrap(), (3, 3));
    assert_eq!(normalize_join_indexes(i64::MAX, i64::MAX, 3).unwrap(), (3, 3));
    assert!(matches!(normalize_join_indexes(0, 1, 3), Err(Error::JoinColumn(0))));
    assert!(matches!(normalize_join_indexes(1, 0, 3), Err(Error::JoinColumn(1))));
}

#[test]
fn field_sets_hold_what_they_were_given() {
    let set = FieldSet::empty().with(0).with(5).with(63);
    let held: Vec<usize> = (0..70).filter(|i| set.get(*i)).collect();
    assert_eq!(held, vec![0, 5, 63]);
    assert!((0..70).all(|i| FieldSet::all().get(i)));
    assert_eq!(FieldSet::empty().with(64), FieldSet::all());
    assert!(set.get_after(4));
    assert!(!set.get_after(5));
    assert!(FieldSet::all().get_after(usize::MAX));
}
