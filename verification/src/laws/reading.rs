//! What holds of reading a source line by line.

use crate::default_splitter::{read_into, read_record, DefaultSplitter, SplitterView};
use crate::error::Error;
use crate::field_set::FieldSet;
use crate::laws::fields::{
    ascii_separators, blank, is_run, is_word, law_fields_are_utf8, law_last_line_keeps_fields,
    law_last_line_splits_alike, law_line_is_utf8, law_words_are_runs,
    law_projection, law_simple_fields_are_counted, law_simple_fields_join_to_line,
    law_white_space_fields_are_words, law_words_hold_no_blank, occurrences, words,
};
use crate::laws::input::law_failure_keeps_buffer;
use crate::lazy_vec::joined;
use crate::line::{DefaultLine, LineView};
use crate::line_reader::{fresh, is_default, LineReader, ReadStep};
use crate::source::{Signal, Source};
use crate::split::{last_fields, line_fields, line_len, SimpleSplitter, SplitterImpl, WhiteSpace};
use crate::stream::{
    bytes_of, fill, flows, lemma_fill, lemma_flows, lemma_flows_on, quiet, ReaderState, ReaderView,
};
use vstd::prelude::*;
use vstd::utf8::valid_utf8;

verus! {

/// The two readers have the same text to come, and will come to the end of it.
pub open spec fn alike(a: ReaderView, b: ReaderView) -> bool {
    &&& a.at_eof() == b.at_eof()
    &&& !a.at_eof() ==> {
        &&& a.begun().text() == b.begun().text()
        &&& a.begun().unfailing()
        &&& b.begun().unfailing()
    }
}

/// Whatever the size of its chunks, a reader delivers all bytes of its source, in order,
/// if the source does not fail and its bytes are UTF-8. In particular, characters that
/// cross the boundaries of chunks come through. (Chunks of less than four bytes may be
/// too small for a character of the input; then reading would come to a standstill.)
pub proof fn law_whole_input(tape: Seq<Signal>, chunk: nat)
    requires
        chunk >= 4 || flows(Seq::empty(), chunk, tape),
        quiet(tape),
        valid_utf8(bytes_of(tape)),
    ensures
        ReaderView::initial(tape, chunk).ok(),
        ReaderView::initial(tape, chunk).begun().text() == bytes_of(tape),
        ReaderView::initial(tape, chunk).begun().unfailing(),
{
    let v = ReaderView::initial(tape, chunk);
    if chunk >= 4 {
        lemma_flows(v.prefix, chunk, tape);
    }
    assert(v.begun() == v);
    assert(v.prefix + bytes_of(tape) =~= bytes_of(tape));
    assert(v.rest + bytes_of(tape) =~= bytes_of(tape));
    v.lemma_text_quiet();
}

/// The size of the chunks does not show: readers of the same source with chunks of
/// different sizes start out alike.
pub proof fn law_chunk_size(tape: Seq<Signal>, chunk1: nat, chunk2: nat)
    requires
        chunk1 >= 4 || flows(Seq::empty(), chunk1, tape),
        chunk2 >= 4 || flows(Seq::empty(), chunk2, tape),
        quiet(tape),
        valid_utf8(bytes_of(tape)),
    ensures
        alike(ReaderView::initial(tape, chunk1), ReaderView::initial(tape, chunk2)),
{
    law_whole_input(tape, chunk1);
    law_whole_input(tape, chunk2);
}

/// Readers that are alike deliver the same line, with the same fields, and are alike
/// afterwards. So they deliver the same lines until the end of the input.
pub proof fn law_alike_read_alike<S: SplitterImpl>(
    splitter: S,
    used: FieldSet,
    a: ReaderView,
    b: ReaderView,
)
    requires
        a.ok(),
        b.ok(),
        alike(a, b),
    ensures
        ({
            let x = read_record(splitter, used, a);
            let y = read_record(splitter, used, b);
            &&& x.line == y.line
            &&& x.fields == y.fields
            &&& x.consumed == y.consumed
            &&& x.reader.ok()
            &&& y.reader.ok()
            &&& alike(x.reader, y.reader)
        }),
{
    if !a.at_eof() {
        lemma_line_len_bound(splitter, a.begun().text());
        let n = line_len(splitter, a.begun().text());
        let k = if n < a.begun().text().len() {
            n + 1
        } else {
            n
        };
        lemma_step(a.begun(), k);
        lemma_step(b.begun(), k);
    }
}

/// Passing over `k` bytes of an input that comes to its end.
proof fn lemma_step(v: ReaderView, k: nat)
    requires
        v.ok(),
        v.unfailing(),
        k <= v.text().len(),
    ensures
        ({
            let (next, r) = v.advance(k);
            &&& r is Ok
            &&& next.ok()
            &&& next.at_eof() == (k == v.text().len())
            &&& k < v.text().len() ==> {
                &&& next.begun().text() == v.text().skip(k as int)
                &&& next.begun().unfailing()
            }
        }),
{
    let (next, r) = v.advance(k);
    v.lemma_advance(k);
    v.lemma_text_advance(k);
    if k < v.text().len() {
        next.lemma_text_state(ReaderState::OK);
    }
}

/// A line is not longer than the text that it is the beginning of.
proof fn lemma_line_len_bound<S: SplitterImpl>(splitter: S, text: Seq<u8>)
    ensures
        line_len(splitter, text) <= text.len(),
    decreases text.len(),
{
    if text.len() > 0 && !splitter.record_sep(text[0]) {
        lemma_line_len_bound(splitter, text.skip(1));
    }
}

/// A line holds no record separator, and ends in front of one, or with the input.
pub proof fn law_line_ends_at_separator<S: SplitterImpl>(splitter: S, text: Seq<u8>)
    ensures
        line_len(splitter, text) <= text.len(),
        forall|i: int|
            0 <= i < line_len(splitter, text) ==> !splitter.record_sep(#[trigger] text[i]),
        line_len(splitter, text) < text.len() ==> splitter.record_sep(
            text[line_len(splitter, text) as int],
        ),
    decreases text.len(),
{
    if text.len() > 0 && !splitter.record_sep(text[0]) {
        let rest = text.skip(1);
        law_line_ends_at_separator(splitter, rest);
        assert forall|i: int| 0 <= i < line_len(splitter, text) implies !splitter.record_sep(
            #[trigger] text[i],
        ) by {
            if i > 0 {
                assert(rest[i - 1] == text[i]);
            }
        }
    }
}

/// Nothing is lost, and nothing is read twice: a read that has not failed takes a line,
/// and what ended it, from the front of the text; the rest of the text is still to come.
/// If nothing is left of it, the input has come to its end.
pub proof fn law_reads_in_order<S: SplitterImpl>(splitter: S, used: FieldSet, v: ReaderView)
    requires
        v.ok(),
        !v.at_eof(),
        read_record(splitter, used, v).reader.state != ReaderState::ERROR,
    ensures
        ({
            let text = v.begun().text();
            let read = read_record(splitter, used, v);
            &&& read.consumed <= text.len()
            &&& ({
                let n = line_len(splitter, text);
                if n < text.len() {
                    read.consumed == n + 1 && splitter.record_sep(text[n as int])
                } else {
                    read.consumed == n
                }
            })
            &&& used.has(0) ==> read.line == text.take(line_len(splitter, text) as int)
            &&& read.reader.at_eof() == (read.consumed == text.len())
            &&& !read.reader.at_eof() ==> read.reader.begun().text() == text.skip(
                read.consumed as int,
            )
        }),
{
    let b = v.begun();
    let text = b.text();
    lemma_line_len_bound(splitter, text);
    let n = line_len(splitter, text);
    let k = if n < text.len() {
        n + 1
    } else {
        n
    };
    law_line_ends_at_separator(splitter, text);
    b.lemma_advance(k);
    b.lemma_text_advance(k);
    if k < text.len() {
        b.advance(k).0.lemma_text_state(ReaderState::OK);
    }
}

/// The lines of a text.
pub open spec fn lines_in<S: SplitterImpl>(splitter: S, text: Seq<u8>) -> Seq<Seq<u8>>
    decreases text.len(),
{
    let n = line_len(splitter, text);
    if text.len() == 0 {
        Seq::empty()
    } else if n < text.len() {
        seq![text.take(n as int)] + lines_in(splitter, text.skip(n as int + 1))
    } else {
        seq![text]
    }
}

/// The lines that come of up to `n` reads, until one takes nothing.
pub open spec fn lines_read<S: SplitterImpl>(splitter: S, v: ReaderView, n: nat) -> Seq<Seq<u8>>
    decreases n,
{
    let read = read_record(splitter, FieldSet::everything(), v);
    if n == 0 || read.consumed == 0 {
        Seq::empty()
    } else {
        seq![read.line] + lines_read(splitter, read.reader, (n - 1) as nat)
    }
}

/// Reading until the end of the input finds each line of it, in order, and no other.
pub proof fn law_all_lines<S: SplitterImpl>(splitter: S, v: ReaderView, n: nat)
    requires
        v.ok(),
        !v.at_eof(),
        v.begun().unfailing(),
        n >= v.begun().text().len(),
    ensures
        lines_read(splitter, v, n) == lines_in(splitter, v.begun().text()),
    decreases n,
{
    let text = v.begun().text();
    let len = line_len(splitter, text);
    let k = if len < text.len() {
        len + 1
    } else {
        len
    };
    let next = read_record(splitter, FieldSet::everything(), v).reader;
    lemma_line_len_bound(splitter, text);
    lemma_step(v.begun(), k);
    FieldSet::everything().lemma_all_has(0);
    if text.len() > 0 {
        if k < text.len() {
            law_all_lines(splitter, next, (n - 1) as nat);
        } else {
            assert(lines_read(splitter, next, (n - 1) as nat) =~= Seq::<Seq<u8>>::empty());
            if len < text.len() {
                assert(lines_in(splitter, text.skip(len as int + 1)) =~= Seq::<Seq<u8>>::empty());
            } else {
                assert(text.take(len as int) =~= text);
            }
        }
    }
}

/// The lines that are left to read.
pub open spec fn lines_left<S: SplitterImpl>(splitter: S, v: ReaderView) -> Seq<Seq<u8>> {
    if v.at_eof() {
        Seq::empty()
    } else {
        lines_in(splitter, v.begun().text())
    }
}

/// The input will come to its end without a failure.
pub open spec fn will_end(v: ReaderView) -> bool {
    &&& v.ok()
    &&& v.at_eof() || v.begun().unfailing()
}

/// A read delivers the first of the lines that are left, and leaves the others; it finds the
/// end of the input if there is none.
pub proof fn law_read_takes_first_line<S: SplitterImpl>(splitter: SplitterView<S>, line: LineView)
    requires
        will_end(splitter.reader),
        splitter.used.is_all(),
    ensures
        ({
            let left = lines_left(splitter.splitter, splitter.reader);
            let (after, got) = read_into(splitter, line);
            &&& will_end(after.reader)
            &&& after.splitter == splitter.splitter
            &&& left.len() == 0 ==> after.reader.read_code() == 0
            &&& left.len() > 0 ==> {
                &&& after.reader.read_code() == 1
                &&& got.line == left[0]
                &&& lines_left(after.splitter, after.reader) == left.skip(1)
            }
        }),
{
    let v = splitter.reader;
    let (after, got) = read_into(splitter, line);
    splitter.used.lemma_all_has(0);
    if !v.at_eof() {
        let text = v.begun().text();
        let n = line_len(splitter.splitter, text);
        let k = if n < text.len() {
            n + 1
        } else {
            n
        };
        let read = read_record(splitter.splitter, splitter.used, v);
        lemma_line_len_bound(splitter.splitter, text);
        lemma_step(v.begun(), k);
        read.reader.begun().lemma_text_last_len(after.reader.last_len);
        assert(after.reader.begun() == (ReaderView {
            last_len: after.reader.last_len,
            ..read.reader.begun()
        }));
        if text.len() > 0 {
            assert(after.reader.last_len > 0);
            if n == text.len() {
                assert(text.take(n as int) =~= text);
            }
            let left = lines_in(splitter.splitter, text);
            let rest = lines_left(splitter.splitter, after.reader);
            if n < text.len() {
                assert(text.skip(k as int) == text.skip(n as int + 1));
                if k == text.len() {
                    assert(lines_in(splitter.splitter, text.skip(n as int + 1)) =~= Seq::<
                        Seq<u8>,
                    >::empty());
                }
            }
            assert(left.skip(1) =~= rest);
        }
    }
}

/// The number of bytes that up to `n` reads take, until one takes nothing.
pub open spec fn bytes_read<S: SplitterImpl>(splitter: S, v: ReaderView, n: nat) -> nat
    decreases n,
{
    let read = read_record(splitter, FieldSet::everything(), v);
    if n == 0 || read.consumed == 0 {
        0
    } else {
        read.consumed + bytes_read(splitter, read.reader, (n - 1) as nat)
    }
}

/// Reading until the end of the input takes every byte of it once.
pub proof fn law_all_bytes<S: SplitterImpl>(splitter: S, v: ReaderView, n: nat)
    requires
        v.ok(),
        !v.at_eof(),
        v.begun().unfailing(),
        n >= v.begun().text().len(),
    ensures
        bytes_read(splitter, v, n) == v.begun().text().len(),
    decreases n,
{
    let text = v.begun().text();
    let len = line_len(splitter, text);
    let k = if len < text.len() {
        len + 1
    } else {
        len
    };
    let next = read_record(splitter, FieldSet::everything(), v).reader;
    lemma_line_len_bound(splitter, text);
    lemma_step(v.begun(), k);
    if text.len() > 0 {
        if k < text.len() {
            law_all_bytes(splitter, next, (n - 1) as nat);
        } else {
            assert(bytes_read(splitter, next, (n - 1) as nat) == 0);
        }
    }
}

/// The reader after `k` reads.
pub open spec fn reader_after<S: SplitterImpl>(
    splitter: S,
    used: FieldSet,
    v: ReaderView,
    k: nat,
) -> ReaderView
    decreases k,
{
    if k == 0 {
        v
    } else {
        read_record(splitter, used, reader_after(splitter, used, v, (k - 1) as nat)).reader
    }
}

/// The size of the chunks never shows: whatever it is, each read delivers the same line,
/// with the same fields, and takes as many bytes.
pub proof fn law_chunk_size_never_shows<S: SplitterImpl>(
    splitter: S,
    used: FieldSet,
    tape: Seq<Signal>,
    chunk1: nat,
    chunk2: nat,
    k: nat,
)
    requires
        chunk1 >= 4 || flows(Seq::empty(), chunk1, tape),
        chunk2 >= 4 || flows(Seq::empty(), chunk2, tape),
        quiet(tape),
        valid_utf8(bytes_of(tape)),
    ensures
        ({
            let a = reader_after(splitter, used, ReaderView::initial(tape, chunk1), k);
            let b = reader_after(splitter, used, ReaderView::initial(tape, chunk2), k);
            let x = read_record(splitter, used, a);
            let y = read_record(splitter, used, b);
            &&& x.line == y.line
            &&& x.fields == y.fields
            &&& x.consumed == y.consumed
            &&& a.ok()
            &&& b.ok()
            &&& alike(a, b)
        }),
    decreases k,
{
    let a = reader_after(splitter, used, ReaderView::initial(tape, chunk1), k);
    let b = reader_after(splitter, used, ReaderView::initial(tape, chunk2), k);
    if k == 0 {
        law_chunk_size(tape, chunk1, chunk2);
        law_whole_input(tape, chunk1);
        law_whole_input(tape, chunk2);
    } else {
        law_chunk_size_never_shows(splitter, used, tape, chunk1, chunk2, (k - 1) as nat);
        law_alike_read_alike(
            splitter,
            used,
            reader_after(splitter, used, ReaderView::initial(tape, chunk1), (k - 1) as nat),
            reader_after(splitter, used, ReaderView::initial(tape, chunk2), (k - 1) as nat),
        );
    }
    law_alike_read_alike(splitter, used, a, b);
}

/// A read that splits at white space delivers a line and its words: the longest runs of
/// bytes in it that are not blank, in order. It makes no difference whether a newline or
/// the end of the input has ended the line.
pub proof fn law_white_space_read(v: ReaderView)
    requires
        v.ok(),
        !v.at_eof(),
        read_record(WhiteSpace, FieldSet::everything(), v).reader.state != ReaderState::ERROR,
    ensures
        ({
            let text = v.begun().text();
            let read = read_record(WhiteSpace, FieldSet::everything(), v);
            &&& read.line == text.take(line_len(WhiteSpace, text) as int)
            &&& read.fields == words(read.line)
            &&& forall|k: int| 0 <= k < read.fields.len() ==> is_word(#[trigger] read.fields[k])
        }),
{
    let text = v.begun().text();
    let line = text.take(line_len(WhiteSpace, text) as int);
    law_reads_in_order(WhiteSpace, FieldSet::everything(), v);
    FieldSet::everything().lemma_all_has(0);
    law_white_space_fields_are_words(line);
    law_words_hold_no_blank(line);
    law_projection(words(line), FieldSet::everything());
}

/// A read that splits at single separators delivers a line that is its fields with the
/// separator between each two. There is one field more than separators, and none holds a
/// separator, neither of fields nor of records. It makes no difference whether a record
/// separator or the end of the input has ended the line.
pub proof fn law_simple_read(splitter: SimpleSplitter, v: ReaderView)
    requires
        v.ok(),
        !v.at_eof(),
        read_record(splitter, FieldSet::everything(), v).reader.state != ReaderState::ERROR,
    ensures
        ({
            let text = v.begun().text();
            let read = read_record(splitter, FieldSet::everything(), v);
            &&& read.line == text.take(line_len(splitter, text) as int)
            &&& read.fields.len() == 1 + occurrences(read.line, splitter.field_byte())
            &&& joined(read.fields, seq![splitter.field_byte()]) == read.line
            &&& forall|k: int, i: int|
                0 <= k < read.fields.len() && 0 <= i < read.fields[k].len() ==> {
                    let b = #[trigger] read.fields[k][i];
                    b != splitter.field_byte() && b != splitter.record_byte()
                }
        }),
{
    let text = v.begun().text();
    let n = line_len(splitter, text);
    let line = text.take(n as int);
    let read = read_record(splitter, FieldSet::everything(), v);
    law_reads_in_order(splitter, FieldSet::everything(), v);
    law_line_ends_at_separator(splitter, text);
    FieldSet::everything().lemma_all_has(0);
    law_simple_fields_join_to_line(splitter, line);
    law_simple_fields_are_counted(splitter, line);
    law_projection(line_fields(splitter, line), FieldSet::everything());
    assert(read.fields == line_fields(splitter, line));
    assert forall|k: int, i: int|
        0 <= k < read.fields.len() && 0 <= i < read.fields[k].len() implies {
        let b = #[trigger] read.fields[k][i];
        b != splitter.field_byte() && b != splitter.record_byte()
    } by {
        let b = line_fields(splitter, line)[k][i];
        assert(line.contains(b));
        let j = choose|j: int| 0 <= j < line.len() && line[j] == b;
        assert(line[j] == text[j]);
        assert(!splitter.record_sep(text[j]));
    }
}

/// Not to use some fields leaves them empty in what a read delivers, and changes nothing
/// else: not the bytes that are taken, nor what is left to read, nor the number of fields.
/// (Only at the end of the input, a last field that is not used does not count.)
pub proof fn law_read_projection<S: SplitterImpl>(splitter: S, used: FieldSet, v: ReaderView)
    requires
        !v.at_eof(),
        ({
            let text = v.begun().text();
            let all = line_fields(splitter, text);
            line_len(splitter, text) < text.len() || all.len() == 0 || used.has(all.len() as int)
        }),
    ensures
        ({
            let read = read_record(splitter, used, v);
            let all = read_record(splitter, FieldSet::everything(), v);
            &&& read.reader == all.reader
            &&& read.consumed == all.consumed
            &&& read.line == if used.has(0) {
                all.line
            } else {
                Seq::empty()
            }
            &&& read.fields.len() == all.fields.len()
            &&& forall|i: int|
                0 <= i < all.fields.len() ==> #[trigger] read.fields[i] == if used.has(i + 1) {
                    all.fields[i]
                } else {
                    Seq::empty()
                }
        }),
{
    let text = v.begun().text();
    let n = line_len(splitter, text);
    let line = text.take(n as int);
    let fields = line_fields(splitter, line);
    lemma_line_len_bound(splitter, text);
    FieldSet::everything().lemma_all_has(0);
    if n == text.len() {
        assert(line =~= text);
        FieldSet::everything().lemma_all_has(fields.len() as int);
        law_last_line_splits_alike(splitter, line, used);
        law_last_line_splits_alike(splitter, line, FieldSet::everything());
    }
    law_projection(fields, used);
    law_projection(fields, FieldSet::everything());
}

/// Each used field comes out right, whichever others are used: it has the text that it has if
/// all are. So does the line, if it is used. What is not used is empty. There are as many
/// fields as if all were used, but for a last one that is not used and that the end of the
/// input has ended. What is taken, and what is left to read, is the same.
pub proof fn law_used_fields_are_right<S: SplitterImpl>(
    splitter: S,
    used: FieldSet,
    v: ReaderView,
)
    ensures
        ({
            let read = read_record(splitter, used, v);
            let all = read_record(splitter, FieldSet::everything(), v);
            &&& read.reader == all.reader
            &&& read.consumed == all.consumed
            &&& used.has(0) ==> read.line == all.line
            &&& !used.has(0) ==> read.line.len() == 0
            &&& forall|i: int|
                0 <= i < all.fields.len() && used.has(i + 1) ==> i < read.fields.len()
                    && #[trigger] all.fields[i] == read.fields[i]
            &&& forall|i: int|
                0 <= i < read.fields.len() && !used.has(i + 1) ==> (
                #[trigger] read.fields[i]).len() == 0
            &&& read.fields.len() <= all.fields.len()
            &&& read.fields.len() < all.fields.len() ==> {
                &&& read.fields.len() == all.fields.len() - 1
                &&& !used.has(all.fields.len() as int)
                &&& line_len(splitter, v.begun().text()) == v.begun().text().len()
            }
        }),
{
    if !v.at_eof() {
        let text = v.begun().text();
        let line = text.take(line_len(splitter, text) as int);
        let fields = line_fields(splitter, line);
        lemma_line_len_bound(splitter, text);
        FieldSet::everything().lemma_all_has(0);
        FieldSet::everything().lemma_all_has(fields.len() as int);
        law_last_line_keeps_fields(splitter, line, used);
        law_last_line_keeps_fields(splitter, line, FieldSet::everything());
        law_last_line_splits_alike(splitter, line, FieldSet::everything());
        law_projection(fields, used);
        law_projection(fields, FieldSet::everything());
        law_projection(last_fields(splitter, line, used), used);
        let all = read_record(splitter, FieldSet::everything(), v);
        if all.fields.len() > 0 {
            assert(all.fields == fields);
        }
    }
}

/// With all fields used, a line that ends in front of a record separator has the fields that
/// its text splits into, and the line that the end of the input has ended does, too.
pub proof fn law_all_fields_of_line<S: SplitterImpl>(splitter: S, v: ReaderView)
    requires
        v.ok(),
        !v.at_eof(),
        read_record(splitter, FieldSet::everything(), v).reader.state != ReaderState::ERROR,
    ensures
        ({
            let text = v.begun().text();
            let read = read_record(splitter, FieldSet::everything(), v);
            &&& read.line == text.take(line_len(splitter, text) as int)
            &&& read.fields == line_fields(splitter, read.line)
        }),
{
    let text = v.begun().text();
    let line = text.take(line_len(splitter, text) as int);
    let fields = line_fields(splitter, line);
    law_reads_in_order(splitter, FieldSet::everything(), v);
    FieldSet::everything().lemma_all_has(0);
    FieldSet::everything().lemma_all_has(fields.len() as int);
    law_last_line_splits_alike(splitter, line, FieldSet::everything());
    law_projection(fields, FieldSet::everything());
}

/// A read hands over the line and the fields of the record that it has found, and nothing of
/// the line that was read into before shows in them: neither its text, nor its fields, nor
/// assignments to them. It changes nothing of the splitter but what is left to read, the
/// used fields, and that it was read from.
pub proof fn law_read_replaces_line<S: SplitterImpl>(
    splitter: SplitterView<S>,
    line1: LineView,
    line2: LineView,
)
    ensures
        ({
            let read = read_record(splitter.splitter, splitter.used, splitter.reader);
            let (after, got) = read_into(splitter, line1);
            let other = read_into(splitter, line2).1;
            &&& got.line == read.line
            &&& got.fields == read.fields
            &&& other.line == got.line
            &&& other.fields == got.fields
            &&& !got.diverged
            &&& got.assigned == Set::<int>::empty()
            &&& got.ok()
            &&& after.name == splitter.name
            &&& after.splitter == splitter.splitter
            &&& after.reader.rest == read.reader.rest
            &&& after.reader.prefix == read.reader.prefix
            &&& after.reader.tape == read.reader.tape
            &&& after.reader.chunk == read.reader.chunk
            &&& after.reader.state == read.reader.state
            &&& read.consumed <= usize::MAX ==> after.reader.last_len == read.consumed
            &&& read.consumed > usize::MAX ==> after.reader.last_len == usize::MAX
            &&& got.used == if splitter.start {
                splitter.used
            } else {
                line1.used
            }
            &&& after.used == got.used
        }),
{
}

/// A read into any line, with the fields split at white space and all of them used, leaves
/// the words of the next line of the input in it, and nothing else.
pub proof fn law_white_space_line(splitter: SplitterView<WhiteSpace>, line: LineView) -> (starts:
    Seq<int>)
    requires
        splitter.reader.ok(),
        !splitter.reader.at_eof(),
        splitter.used.is_all(),
        read_into(splitter, line).0.reader.read_code() != -1,
    ensures
        ({
            let text = splitter.reader.begun().text();
            let got = read_into(splitter, line).1;
            &&& got.line == text.take(line_len(WhiteSpace, text) as int)
            &&& got.fields == words(got.line)
            &&& starts.len() == got.fields.len()
            &&& forall|k: int|
                0 <= k < starts.len() ==> {
                    let b = #[trigger] starts[k] + got.fields[k].len();
                    is_run(got.line, starts[k], b) && got.fields[k] == got.line.subrange(
                        starts[k],
                        b,
                    )
                }
            &&& forall|k: int, l: int|
                0 <= k < l < starts.len() ==> #[trigger] starts[k] < #[trigger] starts[l]
            &&& forall|i: int|
                0 <= i < got.line.len() && !blank(#[trigger] got.line[i]) ==> exists|k: int|
                    0 <= k < starts.len() && #[trigger] starts[k] <= i < starts[k]
                        + got.fields[k].len()
        }),
{
    law_read_state(splitter, line);
    law_white_space_read(splitter.reader);
    law_words_are_runs(read_into(splitter, line).1.line)
}

/// A read into any line, with the fields split at single separators and all of them used,
/// leaves the pieces between separators of the next line of the input in it.
pub proof fn law_simple_line(splitter: SplitterView<SimpleSplitter>, line: LineView)
    requires
        splitter.reader.ok(),
        !splitter.reader.at_eof(),
        splitter.used.is_all(),
        read_into(splitter, line).0.reader.read_code() != -1,
    ensures
        ({
            let text = splitter.reader.begun().text();
            let sep = splitter.splitter.field_byte();
            let got = read_into(splitter, line).1;
            &&& got.line == text.take(line_len(splitter.splitter, text) as int)
            &&& got.fields.len() == 1 + occurrences(got.line, sep)
            &&& joined(got.fields, seq![sep]) == got.line
            &&& forall|k: int, i: int|
                0 <= k < got.fields.len() && 0 <= i < got.fields[k].len() ==> {
                    let b = #[trigger] got.fields[k][i];
                    b != sep && b != splitter.splitter.record_byte()
                }
        }),
{
    law_read_state(splitter, line);
    law_simple_read(splitter.splitter, splitter.reader);
}

/// What the last read came to, from what there was to read: at the end of the input, the end.
/// Otherwise, a line, if there was some text and the read did not come to a failure; the end,
/// if there was none; and an error, if the read took all of the text and something other than
/// the end of the input came behind it.
pub proof fn law_state_tells<S: SplitterImpl>(splitter: SplitterView<S>, line: LineView)
    requires
        splitter.reader.ok(),
    ensures
        ({
            let v = splitter.reader;
            let text = v.begun().text();
            let n = line_len(splitter.splitter, text);
            let code = read_into(splitter, line).0.reader.read_code();
            if v.at_eof() {
                code == 0
            } else if n + 1 >= text.len() && !v.begun().unfailing() {
                code == -1
            } else if text.len() == 0 {
                code == 0
            } else {
                code == 1
            }
        }),
{
    let v = splitter.reader;
    law_read_state(splitter, line);
    if !v.at_eof() {
        let b = v.begun();
        let text = b.text();
        let n = line_len(splitter.splitter, text);
        let k = if n < text.len() {
            n + 1
        } else {
            n
        };
        lemma_line_len_bound(splitter.splitter, text);
        b.lemma_advance(k);
        b.lemma_text_advance(k);
        lemma_state_kept(b, k);
    }
}

/// A read that fails takes nothing, and leaves what is in the buffer for the next one: that is
/// the end of the text that there was to read.
pub proof fn law_failed_read_keeps_buffer<S: SplitterImpl>(
    splitter: S,
    used: FieldSet,
    v: ReaderView,
)
    requires
        v.ok(),
        !v.at_eof(),
        read_record(splitter, used, v).reader.state == ReaderState::ERROR,
    ensures
        ({
            let text = v.begun().text();
            let read = read_record(splitter, used, v);
            let left = read.reader.rest;
            &&& read.consumed == 0
            &&& read.line.len() == 0
            &&& read.fields.len() == 0
            &&& left.len() <= text.len()
            &&& left == text.skip(text.len() - left.len())
            &&& v.rest.len() > 0 ==> left.len() > 0
            &&& read.reader.tape == v.begun().advance(text.len()).0.tape
            &&& read.reader.prefix == v.begun().advance(text.len()).0.prefix
            &&& read.reader.chunk == v.chunk
        }),
{
    let b = v.begun();
    let text = b.text();
    let n = line_len(splitter, text);
    let k = if n < text.len() {
        n + 1
    } else {
        n
    };
    lemma_line_len_bound(splitter, text);
    b.lemma_advance(k);
    b.lemma_text_advance(k);
    lemma_state_kept(b, k);
    law_failure_keeps_buffer(b);
}

/// How the state of a reader is told: a line as long as there was one; otherwise, what the
/// state is.
pub proof fn law_read_code(v: ReaderView)
    ensures
        v.last_len > 0 ==> v.read_code() == 1,
        v.last_len == 0 && v.state == ReaderState::OK ==> v.read_code() == 1,
        v.last_len == 0 && v.state == ReaderState::EOF ==> v.read_code() == 0,
        v.last_len == 0 && v.state == ReaderState::ERROR ==> v.read_code() == -1,
{
}

/// What one call of each method does to a splitter and to the line that is read into, in
/// terms of the input: `law_white_space_line` and the laws beside it go on from here.
pub proof fn law_splitter_reads<R: Source, S: SplitterImpl>(
    before: DefaultSplitter<R, S>,
    after: DefaultSplitter<R, S>,
    step: ReadStep<DefaultLine>,
)
    requires
        before.ready(),
        <DefaultSplitter<R, S> as LineReader>::reads(before, after, step),
    ensures
        before@.reader.ok(),
        after@ == read_into(before@, step.line_before@).0,
        step.line_after@ == read_into(before@, step.line_before@).1,
        step.result == Ok::<bool, Error>(before@.start),
        step.calls_after == step.calls_before,
        after.name() == before.name(),
        !after@.start,
        after.state() == after@.reader.read_code(),
{
    before.lemma_ready();
}

/// A file that was left has nothing more to read, whatever was in it: every later read finds
/// the end of the input, and an empty line. There is no further file.
pub proof fn law_left_file_is_over<R: Source, S: SplitterImpl>(
    before: DefaultSplitter<R, S>,
    after: DefaultSplitter<R, S>,
    more: bool,
    line: LineView,
)
    requires
        <DefaultSplitter<R, S> as LineReader>::moves(before, after, more),
    ensures
        !more,
        after@.reader.at_eof(),
        lines_left(after@.splitter, after@.reader).len() == 0,
        after.name() == before.name(),
        after@.used == before@.used,
        after@.start == before@.start,
        after@.splitter == before@.splitter,
        ({
            let (later, got) = read_into(after@, line);
            &&& later.reader.at_eof()
            &&& later.reader.read_code() == 0
            &&& got.line.len() == 0
            &&& got.fields.len() == 0
        }),
{
    law_end_stays(after@, line);
}

/// A splitter that is told of the used fields takes note of just these, and the first line
/// that is read from it does, too.
pub proof fn law_told_fields_are_used<R: Source, S: SplitterImpl>(
    before: DefaultSplitter<R, S>,
    after: DefaultSplitter<R, S>,
    used: FieldSet,
    line: LineView,
)
    requires
        <DefaultSplitter<R, S> as LineReader>::restricts(before, after, used),
    ensures
        after@.used == used,
        after@.reader == before@.reader,
        after@.splitter == before@.splitter,
        after@.start == before@.start,
        after.name() == before.name(),
        after.state() == before.state(),
        before@.start ==> read_into(after@, line).1.used == used,
        read_into(after@, line).1.fields == read_record(
            before@.splitter,
            used,
            before@.reader,
        ).fields,
{
}

/// A read into a new line comes to what a read into a default line comes to.
pub proof fn law_fresh_read<L: Default>(step: ReadStep<L>, r: Result<(bool, L), Error>)
    requires
        fresh(step, r),
    ensures
        is_default(step.line_before),
        r matches Ok((changed, line)) ==> step.result == Ok::<bool, Error>(changed)
            && step.line_after == line,
        r matches Err(e) ==> step.result == Err::<bool, Error>(e),
{
}

/// What the last read came to is told from the bytes that it has taken: it was a line if
/// there were any. Otherwise it was the end of the input, or, if that could not be read,
/// an error. An error leaves nothing of the line.
pub proof fn law_read_state<S: SplitterImpl>(splitter: SplitterView<S>, line: LineView)
    requires
        splitter.reader.ok(),
    ensures
        ({
            let read = read_record(splitter.splitter, splitter.used, splitter.reader);
            let (after, got) = read_into(splitter, line);
            let code = after.reader.read_code();
            &&& code == 1 <==> read.consumed > 0
            &&& code == 0 <==> after.reader.at_eof() && read.consumed == 0
            &&& code == -1 <==> read.reader.state == ReaderState::ERROR
            &&& code == -1 ==> got.line.len() == 0 && got.fields.len() == 0
        }),
{
    let v = splitter.reader;
    if !v.at_eof() {
        let b = v.begun();
        let text = b.text();
        let n = line_len(splitter.splitter, text);
        let k = if n < text.len() {
            n + 1
        } else {
            n
        };
        lemma_line_len_bound(splitter.splitter, text);
        b.lemma_advance(k);
        b.lemma_text_advance(k);
        lemma_state_kept(b, k);
    }
}

/// Passing over bytes does not put a reader into the error state.
proof fn lemma_state_kept(v: ReaderView, n: nat)
    requires
        v.state != ReaderState::ERROR,
    ensures
        v.advance(n).0.state != ReaderState::ERROR,
    decreases v.tape.len(),
{
    let f = fill(v.prefix, v.chunk, v.tape);
    if v.rest.len() <= n && !v.at_eof() && f.outcome is Ok {
        let next = v.refilled(f);
        if !next.at_eof() && f.tape.len() < v.tape.len() {
            lemma_state_kept(next, (n - v.rest.len()) as nat);
        }
    }
}

/// Only the first read begins a file. It hands the line the fields that are used; from
/// then on the line decides.
pub proof fn law_first_read<S: SplitterImpl>(splitter: SplitterView<S>, line: LineView)
    ensures
        !read_into(splitter, line).0.start,
        splitter.start ==> read_into(splitter, line).1.used == splitter.used,
        !splitter.start ==> read_into(splitter, line).0.used == line.used,
{
}

/// At the end of the input, and after the file was left, there is nothing to read, and
/// the end of the input is what every further read comes to.
pub proof fn law_end_stays<S: SplitterImpl>(splitter: SplitterView<S>, line: LineView)
    requires
        splitter.reader.at_eof(),
    ensures
        ({
            let (after, got) = read_into(splitter, line);
            &&& got.line.len() == 0
            &&& got.fields.len() == 0
            &&& after.reader.at_eof()
            &&& after.reader.read_code() == 0
        }),
{
}

/// Once a line has come to use all fields, so does the splitter that the next line is
/// read from.
pub proof fn law_widening_lasts<S: SplitterImpl>(splitter: SplitterView<S>, line: LineView)
    requires
        !splitter.start,
        line.used.is_all(),
    ensures
        read_into(splitter, line).0.used.is_all(),
        read_into(splitter, line).1.used.is_all(),
{
}

/// Whatever a source delivers, all text that comes out of a reader is UTF-8.
pub proof fn law_text_is_utf8(v: ReaderView)
    requires
        v.ok(),
        valid_utf8(v.rest),
    ensures
        valid_utf8(v.text()),
    decreases v.tape.len(),
{
    let (next, r) = v.advance(v.rest.len());
    if !v.at_eof() && r is Ok && next.rest.len() > 0 && next.tape.len() < v.tape.len() {
        v.lemma_advance(v.rest.len());
        lemma_refilled_utf8(v);
        law_text_is_utf8(next);
        vstd::utf8::valid_utf8_concat(v.rest, next.text());
    }
}

/// A buffer that was filled anew holds UTF-8.
proof fn lemma_refilled_utf8(v: ReaderView)
    requires
        v.ok(),
        !v.at_eof(),
        v.advance(v.rest.len()).1 is Ok,
    ensures
        valid_utf8(v.advance(v.rest.len()).0.rest),
    decreases v.tape.len(),
{
    lemma_fill(v.prefix, v.chunk, v.tape);
    lemma_flows_on(v.prefix, v.chunk, v.tape);
    let next = v.refilled(fill(v.prefix, v.chunk, v.tape));
    if !next.at_eof() {
        if next.rest.len() == 0 {
            lemma_refilled_utf8(next);
        } else {
            v.lemma_refill();
        }
    }
}

/// Where the separators are ASCII characters, each line that is read from text in UTF-8
/// is UTF-8, and so are its fields, and so is the text that is still to come.
pub proof fn law_reads_are_utf8<S: SplitterImpl>(splitter: S, used: FieldSet, v: ReaderView)
    requires
        v.ok(),
        ascii_separators(splitter),
        !v.at_eof(),
        valid_utf8(v.begun().text()),
    ensures
        ({
            let read = read_record(splitter, used, v);
            &&& valid_utf8(read.line)
            &&& forall|k: int| 0 <= k < read.fields.len() ==> valid_utf8(#[trigger] read.fields[k])
            &&& read.reader.state != ReaderState::ERROR && !read.reader.at_eof() ==> valid_utf8(
                read.reader.begun().text(),
            )
        }),
{
    let text = v.begun().text();
    let n = line_len(splitter, text);
    law_line_ends_at_separator(splitter, text);
    law_line_is_utf8(splitter, text);
    law_fields_are_utf8(splitter, text.take(n as int), used);
    if read_record(splitter, used, v).reader.state != ReaderState::ERROR {
        law_reads_in_order(splitter, used, v);
    }
}

} // verus!
