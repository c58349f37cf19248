//! The reader for simple separators: it splits each line as it reads it.

use crate::error::Error;
use crate::field_set::FieldSet;
use crate::lazy_vec::{inserted, LazyVec};
use crate::line::{DefaultLine, LineView};
use crate::line_reader::{LineReader, ReadStep};
use crate::reader::{Reader, PADDING};
use crate::regex_cache::{RegexCache, RegexEngine};
use crate::source::Source;
use crate::split::{
    last_fields, lemma_line_len, lemma_scan_start, line_fields, line_len, scan, shown, SplitterImpl,
};
use crate::str_impl::Str;
use crate::stream::{flows, ReaderState, ReaderView};
use vstd::prelude::*;

verus! {

/// What one read comes to.
pub struct RecordRead {
    /// The reader afterwards.
    pub reader: ReaderView,
    /// The line, without what ended it; empty if the line is not used.
    pub line: Seq<u8>,
    /// The fields.
    pub fields: Seq<Seq<u8>>,
    /// The number of bytes that were taken.
    pub consumed: nat,
}

/// Reads the next line: the bytes up to the next record separator, or to the end of
/// the input. Nothing comes of a read at the end of the input, nor of one that
/// fails.
pub open spec fn read_record<S: SplitterImpl>(
    splitter: S,
    used: FieldSet,
    reader: ReaderView,
) -> RecordRead {
    let nothing = RecordRead {
        reader,
        line: Seq::empty(),
        fields: Seq::empty(),
        consumed: 0,
    };
    if reader.at_eof() {
        nothing
    } else {
        let begun = reader.begun();
        let text = begun.text();
        let n = line_len(splitter, text);
        let line = text.take(n as int);
        let consumed = if n < text.len() {
            n + 1
        } else {
            n
        };
        match begun.advance(consumed) {
            (next, Err(_)) => RecordRead {
                reader: ReaderView { state: ReaderState::ERROR, ..next },
                ..nothing
            },
            (next, Ok(_)) => RecordRead {
                reader: next,
                line: if used.has(0) {
                    line
                } else {
                    Seq::empty()
                },
                fields: shown(
                    if n < text.len() {
                        line_fields(splitter, line)
                    } else {
                        last_fields(splitter, line, used)
                    },
                    used,
                ),
                consumed,
            },
        }
    }
}

/// The least of `n` and the largest `usize`.
pub open spec fn saturated(n: nat) -> usize {
    if n <= usize::MAX {
        n as usize
    } else {
        usize::MAX
    }
}

/// Used for "simple" patterns. Instead of looking up and splitting by a full regex, it
/// eagerly splits by a simple predicate and populates lines accordingly.
pub struct DefaultSplitter<R, S> {
    reader: Reader<R>,
    name: Str,
    used_fields: FieldSet,
    /// Used to trigger updating the file name on the first read.
    start: bool,
    splitter: S,
}

/// A splitter, seen from outside.
pub struct SplitterView<S> {
    /// The reader that the lines are taken from.
    pub reader: ReaderView,
    /// The name of the input.
    pub name: Seq<u8>,
    /// The fields that are used.
    pub used: FieldSet,
    /// Nothing was read yet.
    pub start: bool,
    /// How lines and fields are told apart.
    pub splitter: S,
}

impl<R: Source, S: SplitterImpl> View for DefaultSplitter<R, S> {
    type V = SplitterView<S>;

    closed spec fn view(&self) -> SplitterView<S> {
        SplitterView {
            reader: self.reader@,
            name: self.name@,
            used: self.used_fields,
            start: self.start,
            splitter: self.splitter,
        }
    }
}

/// The variables of a read in the middle of a line agree with the part of the line that
/// they stand for. Of `line`, the first `seen` bytes come from earlier buffers; the
/// field that has not ended begins at position `field_start` of the current buffer, or,
/// if it is `carried`, in an earlier one, and then `prefix` is its text so far, where
/// that is kept.
spec fn agrees<S: SplitterImpl>(
    splitter: S,
    used: FieldSet,
    line: Seq<u8>,
    seen: int,
    fields: Seq<Seq<u8>>,
    blank: bool,
    carried: bool,
    field_start: int,
    prefix: Seq<u8>,
) -> bool {
    let s = scan(splitter, line);
    &&& fields == shown(s.fields, used)
    &&& blank == s.blank
    &&& carried == (s.start < seen)
    &&& field_start == if carried {
        0
    } else {
        s.start - seen
    }
    &&& (S::IS_REPEATED || used.has(fields.len() as int + 1)) ==> prefix == if carried {
        line.subrange(s.start, seen)
    } else {
        Seq::empty()
    }
}

/// One more field, shown as far as it is used.
proof fn lemma_shown_push(fields: Seq<Seq<u8>>, used: FieldSet, text: Seq<u8>)
    ensures
        shown(fields, used).len() == fields.len(),
        shown(fields.push(text), used) == inserted(
            shown(fields, used),
            fields.len() as int,
            if used.has(fields.len() as int + 1) {
                text
            } else {
                Seq::empty()
            },
        ),
{
    let item = if used.has(fields.len() as int + 1) {
        text
    } else {
        Seq::empty()
    };
    assert(shown(fields.push(text), used) =~= shown(fields, used).push(item));
    assert(inserted(shown(fields, used), fields.len() as int, item) =~= shown(fields, used).push(
        item,
    ));
}

/// One more byte of the line.
proof fn lemma_next<S: SplitterImpl>(splitter: S, seen: Seq<u8>, rest: Seq<u8>, i: int)
    requires
        0 <= i < rest.len(),
    ensures
        ({
            let line = seen + rest.take(i);
            let next = seen + rest.take(i + 1);
            &&& next.len() == line.len() + 1
            &&& next.drop_last() == line
            &&& next.last() == rest[i]
            &&& forall|j: int| 0 <= j < line.len() ==> #[trigger] next[j] == line[j]
            &&& forall|a: int, b: int|
                0 <= a <= b <= line.len() ==> #[trigger] next.subrange(a, b) == line.subrange(a, b)
        }),
{
    let line = seen + rest.take(i);
    let next = seen + rest.take(i + 1);
    assert(next.drop_last() =~= line);
    assert forall|a: int, b: int| 0 <= a <= b <= line.len() implies #[trigger] next.subrange(a, b)
        == line.subrange(a, b) by {
        assert(next.subrange(a, b) =~= line.subrange(a, b));
    }
}

/// The buffer holds the next bytes to come.
proof fn lemma_text_front(reader: ReaderView)
    ensures
        reader.rest.len() <= reader.text().len(),
        reader.text().take(reader.rest.len() as int) == reader.rest,
{
    assert(reader.text().take(reader.rest.len() as int) =~= reader.rest);
}

/// The first record separator of the text is where the buffer has it.
proof fn lemma_end_of_line<S: SplitterImpl>(
    splitter: S,
    reader: ReaderView,
    seen: Seq<u8>,
    i: int,
)
    requires
        0 <= i < reader.rest.len(),
        splitter.record_sep(reader.rest[i]),
        forall|j: int|
            0 <= j < seen.len() + i ==> !splitter.record_sep(
                #[trigger] (seen + reader.rest.take(i))[j],
            ),
    ensures
        ({
            let text = seen + reader.text();
            &&& line_len(splitter, text) == seen.len() + i
            &&& seen.len() + i < text.len()
            &&& text.take(seen.len() + i) == seen + reader.rest.take(i)
        }),
{
    lemma_text_front(reader);
    let line = seen + reader.rest.take(i);
    let text = seen + reader.text();
    let tail = text.skip(line.len() as int);
    assert(reader.text().take(reader.rest.len() as int)[i] == reader.rest[i]);
    assert(tail[0] == reader.rest[i]);
    assert forall|j: int| 0 <= j < line.len() implies #[trigger] text[j] == line[j] by {
        if j >= seen.len() {
            assert(reader.text().take(reader.rest.len() as int)[j - seen.len()]
                == reader.rest[j - seen.len()]);
        }
    }
    assert(text =~= line + tail);
    assert(text.take(line.len() as int) =~= line);
    lemma_line_len(splitter, line, tail);
}

impl<R: Source, S: SplitterImpl> DefaultSplitter<R, S> {
    /// The splitter is in order.
    pub closed spec fn ready(&self) -> bool {
        self.reader.inv()
    }

    /// The reader of a splitter that is in order is in order too.
    pub proof fn lemma_ready(&self)
        requires
            self.ready(),
        ensures
            self@.reader.ok(),
    {
    }

    /// Reads lines from `r`, in chunks of `chunk_size` bytes.
    pub fn new(splitter: S, r: R, chunk_size: usize, name: Str) -> (res: Self)
        requires
            chunk_size + PADDING <= isize::MAX,
            chunk_size >= 4 || flows(Seq::empty(), chunk_size as nat, r.tape()),
        ensures
            res.ready(),
            res@.reader == ReaderView::initial(r.tape(), chunk_size as nat),
            res@.name == name@,
            res.name() == name@,
            res@.used.is_all(),
            res@.start,
            res@.splitter == splitter,
    {
        DefaultSplitter {
            reader: Reader::new(r, chunk_size),
            name,
            used_fields: FieldSet::all(),
            start: true,
            splitter,
        }
    }

    /// Reads the next line, and puts its fields into `fields`. Returns the line, and the
    /// number of bytes that were taken.
    #[verifier::rlimit(60)]
    #[verifier::spinoff_prover]
    pub fn read_line_inner(&mut self, fields: &mut LazyVec) -> (r: (Str, usize))
        requires
            old(self).ready(),
        ensures
            final(self).ready(),
            ({
                let read = read_record(old(self)@.splitter, old(self)@.used, old(self)@.reader);
                &&& final(self)@ == (SplitterView { reader: read.reader, ..old(self)@ })
                &&& final(fields)@ == read.fields
                &&& r.0@ == read.line
                &&& r.1 == saturated(read.consumed)
            }),
    {
        fields.clear();
        let mut consumed: usize = 0;
        let mut line_prefix: Str = Str::default();
        let mut last_field_prefix: Str = Str::default();
        // The field that is being read (counted from 0).
        let mut current_field: usize = 0;
        let mut was_field: bool = false;
        // Whether that field has bytes in an earlier buffer.
        let mut carried: bool = false;
        if self.reader.is_eof() {
            return (line_prefix, consumed);
        }
        self.reader.set_state(ReaderState::OK);
        let ghost begun = self.reader@;
        let ghost text = begun.text();
        let ghost read = read_record(old(self)@.splitter, old(self)@.used, old(self)@.reader);
        let ghost splitter = self.splitter;
        let ghost used = self.used_fields;
        let ghost mut seen: Seq<u8> = Seq::empty();
        proof {
            assert(seen + text =~= text);
            assert(shown(Seq::empty(), used) =~= Seq::<Seq<u8>>::empty());
        }
        loop
            invariant
                self.ready(),
                !self.reader@.at_eof(),
                self.splitter == splitter,
                self.used_fields == used,
                self.name == old(self).name,
                self.start == old(self).start,
                splitter == old(self)@.splitter,
                used == old(self)@.used,
                begun == old(self)@.reader.begun(),
                !old(self)@.reader.at_eof(),
                text == begun.text(),
                read == read_record(splitter, used, old(self)@.reader),
                text == seen + self.reader@.text(),
                forall|k: nat| k >= seen.len() ==> #[trigger] begun.advance(k)
                    == self.reader@.advance((k - seen.len()) as nat),
                forall|i: int| 0 <= i < seen.len() ==> !splitter.record_sep(#[trigger] seen[i]),
                consumed == saturated(seen.len()),
                used.has(0) ==> line_prefix@ == seen,
                !used.has(0) ==> line_prefix@ == Seq::<u8>::empty(),
                current_field == fields@.len(),
                agrees(
                    splitter,
                    used,
                    seen,
                    seen.len() as int,
                    fields@,
                    was_field,
                    carried,
                    0,
                    last_field_prefix@,
                ),
            decreases self.reader@.tape.len(),
        {
            let ghost rest = self.reader@.rest;
            let n: usize = self.reader.remaining();
            let mut current_field_start: usize = 0;
            let mut i: usize = 0;
            proof {
                assert(seen + rest.take(0) =~= seen);
            }
            while i < n
                invariant
                    self.ready(),
                    !self.reader@.at_eof(),
                    self.splitter == splitter,
                    self.used_fields == used,
                    self.name == old(self).name,
                    self.start == old(self).start,
                    splitter == old(self)@.splitter,
                    used == old(self)@.used,
                    begun == old(self)@.reader.begun(),
                    !old(self)@.reader.at_eof(),
                    text == begun.text(),
                    read == read_record(splitter, used, old(self)@.reader),
                    text == seen + self.reader@.text(),
                    forall|k: nat| k >= seen.len() ==> #[trigger] begun.advance(k)
                        == self.reader@.advance((k - seen.len()) as nat),
                    consumed == saturated(seen.len()),
                    used.has(0) ==> line_prefix@ == seen,
                    !used.has(0) ==> line_prefix@ == Seq::<u8>::empty(),
                    rest == self.reader@.rest,
                    n == rest.len(),
                    i <= n,
                    forall|j: int|
                        0 <= j < seen.len() + i ==> !splitter.record_sep(
                            #[trigger] (seen + rest.take(i as int))[j],
                        ),
                    current_field == fields@.len(),
                    current_field_start <= i,
                    agrees(
                        splitter,
                        used,
                        seen + rest.take(i as int),
                        seen.len() as int,
                        fields@,
                        was_field,
                        carried,
                        current_field_start as int,
                        last_field_prefix@,
                    ),
                decreases n - i,
            {
                let b: u8 = self.reader.byte(i);
                let was_field_cur: bool = was_field;
                let is_field_sep: bool = self.splitter.is_field_sep(b);
                let is_record_sep: bool = self.splitter.is_record_sep(b);
                let ghost line = seen + rest.take(i as int);
                let ghost s = scan(splitter, line);
                let ghost field_text = line.subrange(s.start, line.len() as int);
                proof {
                    lemma_scan_start(splitter, line);
                    lemma_shown_push(s.fields, used, field_text);
                    assert(line.len() == seen.len() + i);
                    if carried {
                        assert(field_text =~= line.subrange(s.start, seen.len() as int)
                            + rest.subrange(0, i as int));
                    } else {
                        assert(field_text =~= Seq::<u8>::empty() + rest.subrange(
                            current_field_start as int,
                            i as int,
                        ));
                    }
                }
                if S::IS_REPEATED {
                    was_field = is_field_sep;
                }
                if is_record_sep {
                    // The end of a line. Finish off the last field, and get out of here.
                    if S::TRIM_LEADING_EMPTY && ((current_field == 0 && !carried
                        && current_field_start == i) || was_field_cur) {
                        // A line without fields, or with blanks behind the last one.
                    } else {
                        let last_field = if self.used_fields.get_after(current_field) {
                            Str::concat(
                                last_field_prefix,
                                self.reader.slice_to_str(current_field_start, i),
                            )
                        } else {
                            Str::default()
                        };
                        fields.insert(current_field, last_field);
                    }
                    let line = if self.used_fields.get(0) {
                        Str::concat(line_prefix, self.reader.slice_to_str(0, i))
                    } else {
                        Str::default()
                    };
                    let diff: usize = i + 1;
                    consumed = consumed.saturating_add(diff);
                    proof {
                        lemma_end_of_line(splitter, self.reader@, seen, i as int);
                        assert(rest.subrange(0, i as int) =~= rest.take(i as int));
                    }
                    match self.reader.advance(diff) {
                        Ok(_) => {},
                        Err(_) => {
                            fields.clear();
                            self.reader.set_state(ReaderState::ERROR);
                            return (Str::default(), 0);
                        },
                    }
                    return (line, consumed);
                }
                // The record separator takes priority over the field separators.
                if is_field_sep {
                    if S::IS_REPEATED && was_field_cur {
                        proof {
                            lemma_next(splitter, seen, rest, i as int);
                        }
                        i = i + 1;
                        continue;
                    }
                    // The end of a field.
                    if S::TRIM_LEADING_EMPTY && !carried && current_field_start == i {
                        // An empty leading field, do nothing.
                    } else {
                        let field = if self.used_fields.get_after(current_field) {
                            Str::concat(
                                last_field_prefix.clone(),
                                self.reader.slice_to_str(current_field_start, i),
                            )
                        } else {
                            Str::default()
                        };
                        fields.insert(current_field, field);
                        current_field = fields.len();
                    }
                    if !S::IS_REPEATED {
                        current_field_start = i + 1;
                        carried = false;
                        last_field_prefix = Str::default();
                    }
                } else if S::IS_REPEATED && was_field_cur {
                    // A run of field separators has ended.
                    current_field_start = i;
                    carried = false;
                    last_field_prefix = Str::default();
                }
                proof {
                    lemma_next(splitter, seen, rest, i as int);
                }
                i = i + 1;
            }
            assert(seen + rest.take(n as int) =~= seen + rest);
            if self.used_fields.get(0) {
                line_prefix = Str::concat(line_prefix, self.reader.slice_to_str(0, n));
            }
            let use_next_field: bool = self.used_fields.get_after(current_field);
            if S::IS_REPEATED || use_next_field {
                let part = self.reader.slice_to_str(current_field_start, n);
                last_field_prefix = Str::concat(last_field_prefix, part);
            }
            proof {
                let line = seen + rest;
                let start = scan(splitter, line).start;
                lemma_scan_start(splitter, line);
                if carried {
                    assert(line.subrange(start, line.len() as int) =~= line.subrange(
                        start,
                        seen.len() as int,
                    ) + rest.subrange(0, n as int));
                } else {
                    assert(line.subrange(start, line.len() as int) =~= Seq::<u8>::empty()
                        + rest.subrange(current_field_start as int, n as int));
                }
            }
            carried = carried || current_field_start < n;
            let remaining: usize = n;
            consumed = consumed.saturating_add(remaining);
            let ghost here = self.reader@;
            proof {
                let line = seen + rest;
                here.lemma_advance(rest.len());
                lemma_scan_start(splitter, line);
                lemma_shown_push(
                    scan(splitter, line).fields,
                    used,
                    line.subrange(scan(splitter, line).start, line.len() as int),
                );
                lemma_line_len(splitter, line, Seq::empty());
                assert(line + Seq::<u8>::empty() =~= line);
                assert(line.take(line.len() as int) =~= line);
                assert(begun.advance(line.len()) == here.advance(rest.len()));
            }
            match self.reader.advance(remaining) {
                Ok(_) => {},
                Err(_) => {
                    fields.clear();
                    self.reader.set_state(ReaderState::ERROR);
                    return (Str::default(), 0);
                },
            }
            if self.reader.is_eof() {
                if S::TRIM_LEADING_EMPTY && ((current_field == 0 && !carried) || was_field) {
                    // A line without fields, or with blanks behind the last one.
                } else if use_next_field {
                    fields.insert(current_field, last_field_prefix);
                }
                return (line_prefix, consumed);
            }
            proof {
                let line = seen + rest;
                assert forall|k: nat| k >= line.len() implies #[trigger] begun.advance(k)
                    == self.reader@.advance((k - line.len()) as nat) by {
                    here.lemma_advance_split((k - seen.len()) as nat);
                }
                assert(text =~= line + self.reader@.text());
                seen = line;
            }
        }
    }
}

/// One read: what becomes of a splitter, and of the line that is read into. The first
/// read hands the line the fields that are used; from then on the splitter goes by
/// what the line says.
pub open spec fn read_into<S: SplitterImpl>(
    splitter: SplitterView<S>,
    line: LineView,
) -> (SplitterView<S>, LineView) {
    let read = read_record(splitter.splitter, splitter.used, splitter.reader);
    let used = if splitter.start {
        splitter.used
    } else {
        line.used
    };
    (
        SplitterView {
            reader: ReaderView { last_len: saturated(read.consumed), ..read.reader },
            used,
            start: false,
            ..splitter
        },
        LineView {
            line: read.line,
            used,
            fields: read.fields,
            diverged: false,
            assigned: Set::empty(),
        },
    )
}

impl<R: Source, S: SplitterImpl> LineReader for DefaultSplitter<R, S> {
    type Line = DefaultLine;

    open spec fn inv(&self) -> bool {
        self.ready()
    }

    open spec fn files_left(&self) -> nat {
        0
    }

    open spec fn name(&self) -> Seq<u8> {
        self@.name
    }

    open spec fn state(&self) -> i64 {
        self@.reader.read_code()
    }

    open spec fn reads(before: Self, after: Self, step: ReadStep<DefaultLine>) -> bool {
        &&& (after@, step.line_after@) == read_into(before@, step.line_before@)
        &&& step.result == Ok::<bool, Error>(before@.start)
        &&& step.calls_after == step.calls_before
    }

    open spec fn moves(before: Self, after: Self, more: bool) -> bool {
        &&& !more
        &&& after@ == (SplitterView {
            reader: ReaderView {
                rest: Seq::empty(),
                state: ReaderState::EOF,
                ..before@.reader
            },
            ..before@
        })
    }

    open spec fn restricts(before: Self, after: Self, used: FieldSet) -> bool {
        after@ == (SplitterView { used, ..before@ })
    }

    fn filename(&self) -> (r: Str) {
        self.name.clone()
    }

    fn read_state(&self) -> (r: i64) {
        self.reader.read_state()
    }

    fn next_file(&mut self) -> (r: bool) {
        self.reader.force_eof();
        false
    }

    fn set_used_fields(&mut self, used_fields: &FieldSet) {
        self.used_fields = *used_fields;
    }

    fn read_line_reuse<E: RegexEngine>(
        &mut self,
        _pat: &Str,
        _rc: &mut RegexCache<E>,
        line: &mut DefaultLine,
    ) -> (r: Result<bool, Error>)
        ensures
            *final(_rc) == *old(_rc),
    {
        let (text, consumed) = self.read_line_inner(line.fields_mut());
        line.set_line(text);
        let start: bool = self.start;
        if start {
            line.set_used_fields(self.used_fields);
        } else if line.used_fields() != self.used_fields {
            // Doing this every time relies on the set of used fields being small, and
            // easy to compare. Used fields are never removed.
            self.used_fields = line.used_fields();
        }
        self.reader.set_last_len(consumed);
        self.start = false;
        Ok(start)
    }
}

} // verus!
