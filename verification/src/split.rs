//! How lines are told apart, and how they fall into fields.

use crate::field_set::FieldSet;
use vstd::prelude::*;

verus! {

/// A simple way to split the input: by looking at one byte at a time.
pub trait SplitterImpl: Sized {
    /// Several field separators in a row count as one.
    const IS_REPEATED: bool;

    /// A field that is empty at its separator does not count.
    const TRIM_LEADING_EMPTY: bool;

    /// `b` separates fields.
    spec fn field_sep(&self, b: u8) -> bool;

    /// `b` ends a line, whether or not it would separate fields too.
    spec fn record_sep(&self, b: u8) -> bool;

    /// Says whether `b` separates fields.
    fn is_field_sep(&self, b: u8) -> (r: bool)
        ensures
            r == self.field_sep(b),
    ;

    /// Says whether `b` ends a line.
    fn is_record_sep(&self, b: u8) -> (r: bool)
        ensures
            r == self.record_sep(b),
    ;
}

/// Lines end with a newline, and fields are what stands between blanks.
#[derive(Copy, Clone)]
pub struct WhiteSpace;

impl SplitterImpl for WhiteSpace {
    const IS_REPEATED: bool = true;

    const TRIM_LEADING_EMPTY: bool = true;

    open spec fn field_sep(&self, b: u8) -> bool {
        b == 0x20 || 0x09 <= b <= 0x0d
    }

    open spec fn record_sep(&self, b: u8) -> bool {
        b == 0x0a
    }

    fn is_field_sep(&self, b: u8) -> (r: bool) {
        matches!(b, 0x20 | 0x09..=0x0d)
    }

    fn is_record_sep(&self, b: u8) -> (r: bool) {
        b == 0x0a
    }
}

/// Lines end with one given byte, and each occurrence of another separates two
/// fields.
#[derive(Copy, Clone)]
pub struct SimpleSplitter {
    record_sep: u8,
    field_sep: u8,
}

impl SimpleSplitter {
    /// The byte that ends a line.
    pub closed spec fn record_byte(self) -> u8 {
        self.record_sep
    }

    /// The byte that separates fields.
    pub closed spec fn field_byte(self) -> u8 {
        self.field_sep
    }

    /// Splits lines at `record_sep`, and fields at `field_sep`.
    pub fn new(record_sep: u8, field_sep: u8) -> (r: SimpleSplitter)
        ensures
            r.record_byte() == record_sep,
            r.field_byte() == field_sep,
    {
        SimpleSplitter { record_sep, field_sep }
    }
}

impl SplitterImpl for SimpleSplitter {
    const IS_REPEATED: bool = false;

    const TRIM_LEADING_EMPTY: bool = false;

    open spec fn field_sep(&self, b: u8) -> bool {
        b == self.field_byte()
    }

    open spec fn record_sep(&self, b: u8) -> bool {
        b == self.record_byte()
    }

    fn is_field_sep(&self, b: u8) -> (r: bool) {
        b == self.field_sep
    }

    fn is_record_sep(&self, b: u8) -> (r: bool) {
        b == self.record_sep
    }
}

/// The number of bytes of `text` in front of the first that ends a line; all of
/// them, if there is none.
pub open spec fn line_len<S: SplitterImpl>(splitter: S, text: Seq<u8>) -> nat
    decreases text.len(),
{
    if text.len() == 0 || splitter.record_sep(text[0]) {
        0
    } else {
        1 + line_len(splitter, text.skip(1))
    }
}

/// How far the splitting of a line has come.
#[verifier::ext_equal]
pub struct Scan {
    /// The fields that have ended.
    pub fields: Seq<Seq<u8>>,
    /// Where the field that has not ended begins. While separators are repeated, this
    /// is still where the last field began.
    pub start: int,
    /// The last byte was a separator of a kind that may be repeated.
    pub blank: bool,
}

/// Splits `line` as far as the separators in it tell where fields end.
pub open spec fn scan<S: SplitterImpl>(splitter: S, line: Seq<u8>) -> Scan
    decreases line.len(),
{
    if line.len() == 0 {
        Scan { fields: Seq::empty(), start: 0, blank: false }
    } else {
        let before = scan(splitter, line.drop_last());
        let i = line.len() - 1;
        if splitter.field_sep(line.last()) {
            if S::IS_REPEATED && before.blank {
                before
            } else {
                Scan {
                    fields: if S::TRIM_LEADING_EMPTY && before.start == i {
                        before.fields
                    } else {
                        before.fields.push(line.subrange(before.start, i))
                    },
                    start: if S::IS_REPEATED {
                        before.start
                    } else {
                        i + 1
                    },
                    blank: S::IS_REPEATED,
                }
            }
        } else {
            Scan {
                fields: before.fields,
                start: if S::IS_REPEATED && before.blank {
                    i
                } else {
                    before.start
                },
                blank: false,
            }
        }
    }
}

/// The fields of a line that was ended by a record separator.
pub open spec fn line_fields<S: SplitterImpl>(splitter: S, line: Seq<u8>) -> Seq<Seq<u8>> {
    let s = scan(splitter, line);
    if S::TRIM_LEADING_EMPTY && ((s.fields.len() == 0 && s.start == line.len()) || s.blank) {
        s.fields
    } else {
        s.fields.push(line.subrange(s.start, line.len() as int))
    }
}

/// The fields of a line that was ended by the end of the input. They are those of a line
/// that was ended by a record separator, but for the last one, which is no field if it is
/// not used.
pub open spec fn last_fields<S: SplitterImpl>(
    splitter: S,
    line: Seq<u8>,
    used: FieldSet,
) -> Seq<Seq<u8>> {
    let s = scan(splitter, line);
    if S::TRIM_LEADING_EMPTY && ((s.fields.len() == 0 && s.start == line.len()) || s.blank) {
        s.fields
    } else if used.has(s.fields.len() as int + 1) {
        s.fields.push(line.subrange(s.start, line.len() as int))
    } else {
        s.fields
    }
}

/// `fields`, with an empty string in place of each that is not used.
pub open spec fn shown(fields: Seq<Seq<u8>>, used: FieldSet) -> Seq<Seq<u8>> {
    Seq::new(
        fields.len(),
        |i: int|
            if used.has(i + 1) {
                fields[i]
            } else {
                Seq::empty()
            },
    )
}

/// If no byte of `line` ends a line, then a line of which it is the beginning is as
/// long, or longer.
pub proof fn lemma_line_len<S: SplitterImpl>(splitter: S, line: Seq<u8>, rest: Seq<u8>)
    requires
        forall|i: int| 0 <= i < line.len() ==> !splitter.record_sep(#[trigger] line[i]),
    ensures
        line_len(splitter, line + rest) == line.len() + line_len(splitter, rest),
    decreases line.len(),
{
    if line.len() == 0 {
        assert(line + rest =~= rest);
    } else {
        let tail = line.skip(1);
        assert((line + rest)[0] == line[0]);
        assert((line + rest).skip(1) =~= tail + rest);
        assert forall|i: int| 0 <= i < tail.len() implies !splitter.record_sep(
            #[trigger] tail[i],
        ) by {
            assert(tail[i] == line[i + 1]);
        }
        lemma_line_len(splitter, tail, rest);
    }
}

/// A field begins within the line, or at its end.
pub proof fn lemma_scan_start<S: SplitterImpl>(splitter: S, line: Seq<u8>)
    ensures
        0 <= scan(splitter, line).start <= line.len(),
        scan(splitter, line).blank ==> S::IS_REPEATED,
    decreases line.len(),
{
    if line.len() > 0 {
        lemma_scan_start(splitter, line.drop_last());
    }
}

/// White space separates fields in runs, and blanks around the fields do not count.
pub proof fn lemma_white_space_modes()
    ensures
        <WhiteSpace as SplitterImpl>::IS_REPEATED,
        <WhiteSpace as SplitterImpl>::TRIM_LEADING_EMPTY,
{
}

/// Each single separator counts, and so does each empty field.
pub proof fn lemma_simple_modes()
    ensures
        !<SimpleSplitter as SplitterImpl>::IS_REPEATED,
        !<SimpleSplitter as SplitterImpl>::TRIM_LEADING_EMPTY,
{
}

} // verus!
