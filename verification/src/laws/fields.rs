//! What holds of the fields that lines are split into.

use crate::field_set::FieldSet;
use crate::lazy_vec::joined;
use crate::split::{
    last_fields, lemma_scan_start, lemma_simple_modes, lemma_white_space_modes, line_fields, scan,
    shown, SimpleSplitter, SplitterImpl, WhiteSpace,
};
use vstd::prelude::*;
use vstd::utf8::{
    is_char_boundary, is_char_boundary_iff_not_is_continuation_byte,
    is_char_boundary_start_end_of_seq, length_of_first_scalar, pop_first_scalar, valid_utf8,
    valid_utf8_split,
};

verus! {

/// `b` is a blank.
pub open spec fn blank(b: u8) -> bool {
    b == 0x20 || 0x09 <= b <= 0x0d
}

/// Where the run of bytes that are not blank begins that `line` ends with.
pub open spec fn last_word(line: Seq<u8>) -> nat
    decreases line.len(),
{
    if line.len() == 0 || blank(line.last()) {
        line.len()
    } else {
        last_word(line.drop_last())
    }
}

/// The words of a line: the longest runs of bytes that are not blank.
pub open spec fn words(line: Seq<u8>) -> Seq<Seq<u8>>
    decreases line.len(),
    via words_decreases
{
    if line.len() == 0 {
        Seq::empty()
    } else if blank(line.last()) {
        words(line.drop_last())
    } else {
        words(line.take(last_word(line) as int)).push(line.skip(last_word(line) as int))
    }
}

/// What is in front of the last word is shorter than the line.
#[via_fn]
proof fn words_decreases(line: Seq<u8>) {
    lemma_last_word(line);
}

/// A last word is not empty if the line does not end with a blank, and it is free of
/// blanks; in front of it stands a blank, or nothing.
proof fn lemma_last_word(line: Seq<u8>)
    ensures
        last_word(line) <= line.len(),
        line.len() > 0 && !blank(line.last()) ==> last_word(line) < line.len(),
        forall|i: int| last_word(line) <= i < line.len() ==> !blank(#[trigger] line[i]),
        last_word(line) > 0 ==> blank(line[last_word(line) - 1]) || last_word(line) == line.len(),
    decreases line.len(),
{
    if line.len() > 0 && !blank(line.last()) {
        let front = line.drop_last();
        lemma_last_word(front);
        assert forall|i: int| last_word(line) <= i < line.len() implies !blank(
            #[trigger] line[i],
        ) by {
            if i < front.len() {
                assert(front[i] == line[i]);
            }
        }
        if front.len() > 0 && blank(front.last()) {
            assert(line[last_word(line) - 1] == front.last());
        }
    }
}

/// The fields that have ended are the words in front of the last one, or, after a blank,
/// all words.
proof fn lemma_scan_words(line: Seq<u8>)
    ensures
        ({
            let s = scan(WhiteSpace, line);
            if line.len() > 0 && blank(line.last()) {
                s.blank && s.fields == words(line)
            } else {
                &&& !s.blank
                &&& s.start == last_word(line)
                &&& s.fields == words(line.take(last_word(line) as int))
            }
        }),
    decreases line.len(),
{
    lemma_white_space_modes();
    reveal_with_fuel(words, 2);
    if line.len() == 0 {
        assert(line.take(0) =~= line);
    } else {
        let front = line.drop_last();
        let i = line.len() - 1;
        lemma_scan_words(front);
        lemma_last_word(front);
        lemma_last_word(line);
        let s = scan(WhiteSpace, front);
        if blank(line.last()) {
            if !s.blank {
                assert(line.subrange(s.start, i) =~= front.skip(last_word(front) as int));
            }
        } else {
            if s.blank {
                assert(line.take(i) =~= front);
            } else {
                assert(line.take(last_word(line) as int) =~= front.take(last_word(front) as int));
            }
        }
    }
}

/// The end of the input ends a line as a record separator does, if the last field is used.
pub proof fn law_last_line_splits_alike<S: SplitterImpl>(
    splitter: S,
    line: Seq<u8>,
    used: FieldSet,
)
    requires
        line_fields(splitter, line).len() == 0 || used.has(
            line_fields(splitter, line).len() as int,
        ),
    ensures
        last_fields(splitter, line, used) == line_fields(splitter, line),
{
}

/// Split at white space, the fields of a line are its words, and so are those of the last
/// line of the input.
pub proof fn law_white_space_fields_are_words(line: Seq<u8>)
    ensures
        line_fields(WhiteSpace, line) == words(line),
        last_fields(WhiteSpace, line, FieldSet::everything()) == words(line),
{
    FieldSet::everything().lemma_all_has(line_fields(WhiteSpace, line).len() as int);
    law_last_line_splits_alike(WhiteSpace, line, FieldSet::everything());
    let s = scan(WhiteSpace, line);
    lemma_white_space_modes();
    lemma_scan_words(line);
    lemma_last_word(line);
    if line.len() > 0 && !blank(line.last()) {
        assert(line.subrange(s.start, line.len() as int) =~= line.skip(last_word(line) as int));
    } else if line.len() == 0 {
        assert(line.take(0) =~= line);
    }
}

/// `word` is not empty, and holds no blank.
pub open spec fn is_word(word: Seq<u8>) -> bool {
    &&& word.len() > 0
    &&& forall|i: int| 0 <= i < word.len() ==> !blank(#[trigger] word[i])
}

/// No word is empty, and none holds a blank.
pub proof fn law_words_hold_no_blank(line: Seq<u8>)
    ensures
        forall|k: int| 0 <= k < words(line).len() ==> is_word(#[trigger] words(line)[k]),
    decreases line.len(),
{
    reveal_with_fuel(words, 2);
    lemma_last_word(line);
    if line.len() > 0 {
        if blank(line.last()) {
            law_words_hold_no_blank(line.drop_last());
            assert(words(line) == words(line.drop_last()));
        } else {
            let front = line.take(last_word(line) as int);
            let last = line.skip(last_word(line) as int);
            law_words_hold_no_blank(front);
            assert forall|i: int| 0 <= i < last.len() implies !blank(#[trigger] last[i]) by {
                assert(last[i] == line[i + last_word(line)]);
            }
            assert(is_word(last));
            assert(words(line) == words(front).push(last));
            assert forall|k: int| 0 <= k < words(line).len() implies is_word(
                #[trigger] words(line)[k],
            ) by {
                if k < words(front).len() {
                    assert(words(line)[k] == words(front)[k]);
                }
            }
        }
    }
}

/// From `a` up to, but without, `b` the line is not blank, and in front of that and behind
/// it there is a blank, or nothing.
pub open spec fn is_run(line: Seq<u8>, a: int, b: int) -> bool {
    &&& 0 <= a < b <= line.len()
    &&& forall|i: int| a <= i < b ==> !blank(#[trigger] line[i])
    &&& a == 0 || blank(line[a - 1])
    &&& b == line.len() || blank(line[b])
}

/// The words of a line are exactly its runs of bytes that are not blank, from left to right:
/// `starts` says where each begins, and there is no byte outside of them that is not blank.
pub proof fn law_words_are_runs(line: Seq<u8>) -> (starts: Seq<int>)
    ensures
        starts.len() == words(line).len(),
        forall|k: int|
            0 <= k < starts.len() ==> {
                let b = #[trigger] starts[k] + words(line)[k].len();
                is_run(line, starts[k], b) && words(line)[k] == line.subrange(starts[k], b)
            },
        forall|k: int, l: int|
            0 <= k < l < starts.len() ==> #[trigger] starts[k] < #[trigger] starts[l],
        forall|i: int|
            0 <= i < line.len() && !blank(#[trigger] line[i]) ==> exists|k: int|
                0 <= k < starts.len() && #[trigger] starts[k] <= i < starts[k] + words(
                    line,
                )[k].len(),
    decreases line.len(),
{
    lemma_last_word(line);
    if line.len() == 0 {
        Seq::empty()
    } else {
        let m = if blank(line.last()) {
            line.len() - 1
        } else {
            last_word(line) as int
        };
        let front = line.take(m);
        let before = law_words_are_runs(front);
        assert forall|k: int| 0 <= k < before.len() implies {
            let b = #[trigger] before[k] + words(front)[k].len();
            is_run(line, before[k], b) && words(front)[k] == line.subrange(before[k], b)
        } by {
            let a = before[k];
            let b = a + words(front)[k].len();
            assert(is_run(front, a, b));
            assert(front.subrange(a, b) =~= line.subrange(a, b));
            assert forall|i: int| a <= i < b implies !blank(#[trigger] line[i]) by {
                assert(front[i] == line[i]);
            }
            if a > 0 {
                assert(front[a - 1] == line[a - 1]);
            }
            if b < front.len() {
                assert(front[b] == line[b]);
            } else if !blank(line.last()) {
                // The last word has a blank in front of it, which no run holds.
                assert(m > 0);
                assert(blank(line[m - 1]));
                assert(front[m - 1] == line[m - 1]);
            }
        }
        if blank(line.last()) {
            assert(front =~= line.drop_last());
            assert(words(line) == words(front));
            assert forall|i: int| 0 <= i < line.len() && !blank(#[trigger] line[i]) implies exists|
                k: int,
            |
                0 <= k < before.len() && #[trigger] before[k] <= i < before[k] + words(
                    line,
                )[k].len() by {
                assert(front[i] == line[i]);
            }
            before
        } else {
            let word = line.skip(m);
            let starts = before.push(m);
            assert(words(line) == words(front).push(word));
            assert(word =~= line.subrange(m, line.len() as int));
            assert(is_run(line, m, line.len() as int));
            assert forall|k: int| 0 <= k < starts.len() implies {
                let b = #[trigger] starts[k] + words(line)[k].len();
                is_run(line, starts[k], b) && words(line)[k] == line.subrange(starts[k], b)
            } by {
                if k < before.len() {
                    assert(starts[k] == before[k]);
                    assert(words(line)[k] == words(front)[k]);
                }
            }
            assert forall|k: int, l: int| 0 <= k < l < starts.len() implies #[trigger] starts[k]
                < #[trigger] starts[l] by {
                assert(starts[k] == before[k]);
                assert(is_run(line, before[k], before[k] + words(front)[k].len()));
                assert(is_run(front, before[k], before[k] + words(front)[k].len()));
                if l < before.len() {
                    assert(starts[l] == before[l]);
                }
            }
            assert forall|i: int| 0 <= i < line.len() && !blank(#[trigger] line[i]) implies exists|
                k: int,
            |
                0 <= k < starts.len() && #[trigger] starts[k] <= i < starts[k] + words(
                    line,
                )[k].len() by {
                if i < m {
                    assert(front[i] == line[i]);
                    let k = choose|k: int|
                        0 <= k < before.len() && #[trigger] before[k] <= i < before[k] + words(
                            front,
                        )[k].len();
                    assert(starts[k] == before[k]);
                    assert(words(line)[k] == words(front)[k]);
                } else {
                    assert(starts[before.len() as int] == m);
                }
            }
            starts
        }
    }
}

/// What separates fields, and what ends lines: at white space, fields are separated by
/// spaces, tabs, newlines, vertical tabs, form feeds and carriage returns, and lines end with
/// newlines; a simple splitter goes by its two bytes.
pub proof fn law_separators(splitter: SimpleSplitter, b: u8)
    ensures
        blank(b) <==> b == 0x20 || b == 0x09 || b == 0x0a || b == 0x0b || b == 0x0c || b == 0x0d,
        WhiteSpace.field_sep(b) <==> blank(b),
        WhiteSpace.record_sep(b) <==> b == 0x0a,
        splitter.field_sep(b) <==> b == splitter.field_byte(),
        splitter.record_sep(b) <==> b == splitter.record_byte(),
{
}

/// At the end of the input, all but the last field are those of a line that was ended by a
/// record separator. The last one is there too, if it is used, or if the line has ended it.
pub proof fn law_last_line_keeps_fields<S: SplitterImpl>(
    splitter: S,
    line: Seq<u8>,
    used: FieldSet,
)
    ensures
        ({
            let all = line_fields(splitter, line);
            let last = last_fields(splitter, line, used);
            &&& all.len() - 1 <= last.len() <= all.len()
            &&& forall|i: int| 0 <= i < last.len() ==> #[trigger] last[i] == all[i]
            &&& used.has(all.len() as int) ==> last.len() == all.len()
        }),
{
}

/// Split at single separators, a line is its fields with the separator between each two,
/// and no field holds the separator.
pub proof fn law_simple_fields_join_to_line(splitter: SimpleSplitter, line: Seq<u8>)
    ensures
        line_fields(splitter, line).len() > 0,
        joined(line_fields(splitter, line), seq![splitter.field_byte()]) == line,
        forall|k: int, i: int|
            0 <= k < line_fields(splitter, line).len() && 0 <= i < line_fields(
                splitter,
                line,
            )[k].len() ==> #[trigger] line_fields(splitter, line)[k][i] != splitter.field_byte(),
    decreases line.len(),
{
    lemma_simple_modes();
    let sep = seq![splitter.field_byte()];
    let s = scan(splitter, line);
    let fields = line_fields(splitter, line);
    lemma_scan_start(splitter, line);
    if line.len() == 0 {
        assert(fields[0] =~= Seq::<u8>::empty());
        assert(joined(fields, sep) =~= line);
    } else {
        let front = line.drop_last();
        let i = line.len() - 1;
        let before = scan(splitter, front);
        let front_fields = line_fields(splitter, front);
        lemma_scan_start(splitter, front);
        law_simple_fields_join_to_line(splitter, front);
        if splitter.field_sep(line.last()) {
            assert(line.subrange(before.start, i) =~= front.subrange(before.start, i));
            assert(s.fields =~= front_fields);
            assert(fields.last() =~= Seq::<u8>::empty());
            assert(fields.drop_last() =~= front_fields);
            assert(joined(fields, sep) =~= line);
            assert forall|k: int, j: int|
                0 <= k < fields.len() && 0 <= j < fields[k].len() implies #[trigger] fields[k][j]
                != splitter.field_byte() by {
                assert(fields[k] == front_fields[k]);
                assert(front_fields[k][j] != splitter.field_byte());
            }
        } else {
            let last = line.subrange(s.start, line.len() as int);
            assert(last =~= front_fields.last().push(line.last()));
            assert(fields.drop_last() =~= front_fields.drop_last());
            assert(joined(fields, sep) =~= joined(front_fields, sep).push(line.last()));
            assert(line =~= front.push(line.last()));
            assert forall|k: int, j: int|
                0 <= k < fields.len() && 0 <= j < fields[k].len() implies #[trigger] fields[k][j]
                != splitter.field_byte() by {
                if k < fields.len() - 1 {
                    assert(fields[k] == front_fields[k]);
                    assert(front_fields[k][j] != splitter.field_byte());
                } else if j < last.len() - 1 {
                    assert(front_fields[k][j] != splitter.field_byte());
                }
            }
        }
    }
}

/// The number of times that `b` occurs in `text`.
pub open spec fn occurrences(text: Seq<u8>, b: u8) -> nat
    decreases text.len(),
{
    if text.len() == 0 {
        0
    } else {
        occurrences(text.drop_last(), b) + if text.last() == b {
            1nat
        } else {
            0nat
        }
    }
}

/// Split at single separators, a line has one field more than separators, and no field holds
/// a byte that the line does not hold; in particular, none holds a record separator. The
/// same is true of the last line of the input.
pub proof fn law_simple_fields_are_counted(splitter: SimpleSplitter, line: Seq<u8>)
    ensures
        line_fields(splitter, line).len() == 1 + occurrences(line, splitter.field_byte()),
        forall|k: int, i: int|
            0 <= k < line_fields(splitter, line).len() && 0 <= i < line_fields(
                splitter,
                line,
            )[k].len() ==> line.contains(#[trigger] line_fields(splitter, line)[k][i]),
        last_fields(splitter, line, FieldSet::everything()) == line_fields(splitter, line),
    decreases line.len(),
{
    lemma_simple_modes();
    lemma_scan_start(splitter, line);
    FieldSet::everything().lemma_all_has(line_fields(splitter, line).len() as int);
    law_last_line_splits_alike(splitter, line, FieldSet::everything());
    let s = scan(splitter, line);
    let fields = line_fields(splitter, line);
    if line.len() > 0 {
        let front = line.drop_last();
        let front_fields = line_fields(splitter, front);
        lemma_scan_start(splitter, front);
        law_simple_fields_are_counted(splitter, front);
        let before = scan(splitter, front);
        assert forall|k: int, i: int|
            0 <= k < fields.len() && 0 <= i < fields[k].len() implies line.contains(
            #[trigger] fields[k][i],
        ) by {
            if k == s.fields.len() {
                assert(fields[k][i] == line[s.start + i]);
            } else if k < before.fields.len() {
                assert(fields[k] == front_fields[k]);
                assert(front.contains(front_fields[k][i]));
                let j = choose|j: int| 0 <= j < front.len() && front[j] == front_fields[k][i];
                assert(line[j] == fields[k][i]);
            } else {
                assert(fields[k][i] == line[before.start + i]);
            }
        }
    }
}

/// Not to use some fields leaves them empty, and changes nothing else: there are as many
/// fields, and those that are used stay. If all are used, they all stay.
pub proof fn law_projection(fields: Seq<Seq<u8>>, used: FieldSet)
    ensures
        shown(fields, used).len() == fields.len(),
        forall|i: int|
            0 <= i < fields.len() ==> #[trigger] shown(fields, used)[i] == if used.has(i + 1) {
                fields[i]
            } else {
                Seq::empty()
            },
        used.is_all() ==> shown(fields, used) == fields,
{
    if used.is_all() {
        assert forall|i: int| 0 <= i < fields.len() implies #[trigger] shown(fields, used)[i]
            == fields[i] by {
            used.lemma_all_has(i + 1);
        }
        assert(shown(fields, used) =~= fields);
    }
}

/// The separators are ASCII characters.
pub open spec fn ascii_separators<S: SplitterImpl>(splitter: S) -> bool {
    &&& forall|b: u8| #[trigger] splitter.field_sep(b) ==> b < 0x80
    &&& forall|b: u8| #[trigger] splitter.record_sep(b) ==> b < 0x80
}

/// After an ASCII character comes the boundary of a character.
proof fn lemma_boundary_after_ascii(text: Seq<u8>, i: int)
    requires
        valid_utf8(text),
        0 <= i < text.len(),
        text[i] < 0x80,
    ensures
        is_char_boundary(text, i),
        is_char_boundary(text, i + 1),
    decreases text.len(),
{
    is_char_boundary_iff_not_is_continuation_byte(text, i);
    let k = length_of_first_scalar(text);
    let rest = pop_first_scalar(text);
    reveal_with_fuel(is_char_boundary, 3);
    if i >= k {
        lemma_boundary_after_ascii(rest, i - k);
    } else {
        assert(i == 0);
    }
}

/// What stands between two boundaries of characters is UTF-8.
proof fn lemma_valid_between(text: Seq<u8>, a: int, b: int)
    requires
        valid_utf8(text),
        0 <= a <= b <= text.len(),
        is_char_boundary(text, a),
        is_char_boundary(text, b),
    ensures
        valid_utf8(text.subrange(a, b)),
{
    let front = text.subrange(0, b);
    valid_utf8_split(text, b);
    lemma_boundary_in_front(text, a, b);
    valid_utf8_split(front, a);
    assert(front.subrange(a, b) =~= text.subrange(a, b));
}

/// A boundary of the text is a boundary of a part of the text that begins it.
proof fn lemma_boundary_in_front(text: Seq<u8>, a: int, b: int)
    requires
        valid_utf8(text),
        0 <= a <= b <= text.len(),
        is_char_boundary(text, a),
        is_char_boundary(text, b),
        valid_utf8(text.subrange(0, b)),
    ensures
        is_char_boundary(text.subrange(0, b), a),
{
    let front = text.subrange(0, b);
    if a == b {
        is_char_boundary_start_end_of_seq(front);
    } else {
        is_char_boundary_iff_not_is_continuation_byte(text, a);
        is_char_boundary_iff_not_is_continuation_byte(front, a);
    }
}

/// A line of UTF-8 text is UTF-8.
pub proof fn law_line_is_utf8<S: SplitterImpl>(splitter: S, text: Seq<u8>)
    requires
        valid_utf8(text),
        ascii_separators(splitter),
    ensures
        ({
            let n = crate::split::line_len(splitter, text) as int;
            &&& valid_utf8(text.take(n))
            &&& n < text.len() ==> valid_utf8(text.skip(n + 1))
        }),
{
    let n = crate::split::line_len(splitter, text) as int;
    crate::laws::reading::law_line_ends_at_separator(splitter, text);
    if n < text.len() {
        lemma_boundary_after_ascii(text, n);
        valid_utf8_split(text, n);
        valid_utf8_split(text, n + 1);
        assert(text.take(n) =~= text.subrange(0, n));
        assert(text.skip(n + 1) =~= text.subrange(n + 1, text.len() as int));
    } else {
        assert(text.take(n) =~= text);
    }
}

/// The fields of the first `m` bytes of a line that is UTF-8 are UTF-8, and the next
/// field begins at the boundary of a character.
proof fn lemma_scan_utf8<S: SplitterImpl>(splitter: S, line: Seq<u8>, m: int)
    requires
        valid_utf8(line),
        ascii_separators(splitter),
        0 <= m <= line.len(),
    ensures
        ({
            let s = scan(splitter, line.take(m));
            &&& 0 <= s.start <= m
            &&& is_char_boundary(line, s.start)
            &&& forall|k: int| 0 <= k < s.fields.len() ==> valid_utf8(#[trigger] s.fields[k])
            &&& s.blank ==> m > 0 && splitter.field_sep(line[m - 1])
        }),
    decreases m,
{
    is_char_boundary_start_end_of_seq(line);
    if m > 0 {
        let part = line.take(m);
        let before = scan(splitter, line.take(m - 1));
        lemma_scan_utf8(splitter, line, m - 1);
        assert(part.drop_last() =~= line.take(m - 1));
        assert(part.last() == line[m - 1]);
        if splitter.field_sep(line[m - 1]) {
            lemma_boundary_after_ascii(line, m - 1);
            lemma_valid_between(line, before.start, m - 1);
            assert(part.subrange(before.start, m - 1) =~= line.subrange(before.start, m - 1));
        } else if before.blank {
            lemma_boundary_after_ascii(line, m - 2);
        }
    }
}

/// The fields of a line that is UTF-8 are UTF-8.
pub proof fn law_fields_are_utf8<S: SplitterImpl>(splitter: S, line: Seq<u8>, used: FieldSet)
    requires
        valid_utf8(line),
        ascii_separators(splitter),
    ensures
        forall|k: int|
            0 <= k < line_fields(splitter, line).len() ==> valid_utf8(
                #[trigger] line_fields(splitter, line)[k],
            ),
        forall|k: int|
            0 <= k < last_fields(splitter, line, used).len() ==> valid_utf8(
                #[trigger] last_fields(splitter, line, used)[k],
            ),
{
    let n = line.len() as int;
    assert(line.take(n) =~= line);
    lemma_scan_utf8(splitter, line, n);
    is_char_boundary_start_end_of_seq(line);
    lemma_valid_between(line, scan(splitter, line).start, n);
}

} // verus!
