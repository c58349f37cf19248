//! What holds of the way from the signals of a source to text.

use crate::error::Error;
use crate::source::{delivers, ReadError, Signal};
use crate::stream::{
    bytes_of, fill, lemma_fill, lemma_flows_on, lemma_pull, lemma_pull_quiet, pull, quiet,
    ReaderState, ReaderView,
};
use crate::utf8::{
    clip_point, clipped_char, fault_len, lemma_clip_point, lemma_clipped_len, lemma_longest_valid,
    lemma_valid_front, valid_up_to,
};
use vstd::prelude::*;
use vstd::utf8::{valid_first_scalar, valid_utf8};

verus! {

/// There is nothing but bytes and interruptions.
pub open spec fn plain(tape: Seq<Signal>) -> bool {
    forall|i: int|
        0 <= i < tape.len() ==> (#[trigger] tape[i]) is Byte || tape[i] is Interrupted
}

/// What is left of a plain tape is plain.
proof fn lemma_plain_skip(tape: Seq<Signal>)
    requires
        plain(tape),
        tape.len() > 0,
    ensures
        plain(tape.skip(1)),
{
    assert forall|i: int| 0 <= i < tape.skip(1).len() implies (#[trigger] tape.skip(1)[i]) is Byte
        || tape.skip(1)[i] is Interrupted by {
        assert(tape.skip(1)[i] == tape[i + 1]);
    }
}

/// A source that delivers bytes writes them as they stand on its tape, and goes on behind
/// them; an end or an error is the next thing on the tape, or the tape is empty.
pub proof fn law_delivers(
    before: Seq<Signal>,
    after: Seq<Signal>,
    buf: Seq<u8>,
    r: Result<usize, ReadError>,
)
    requires
        delivers(before, after, buf, r),
    ensures
        r matches Ok(n) && n > 0 ==> {
            let n = (r->Ok_0) as int;
            &&& n <= buf.len()
            &&& n <= before.len()
            &&& before == buf.take(n).map_values(|b: u8| Signal::Byte(b)) + after
        },
        r == Ok::<usize, ReadError>(0) ==> before == after && before.len() == 0 || before
            == seq![Signal::End] + after,
        r matches Err(ReadError::Interrupted) ==> before == seq![Signal::Interrupted] + after,
        r matches Err(ReadError::UnexpectedEof) ==> before == seq![Signal::UnexpectedEof] + after,
        r matches Err(ReadError::Other(why)) ==> before == seq![Signal::Failed(why)] + after,
{
    match r {
        Ok(n) => {
            if n > 0 {
                let front = buf.take(n as int).map_values(|b: u8| Signal::Byte(b));
                assert forall|i: int| 0 <= i < before.len() implies #[trigger] before[i] == (front
                    + after)[i] by {
                    if i < n {
                        assert(before[i] == Signal::Byte(buf[i]));
                    } else {
                        assert(after[i - n] == before[i]);
                    }
                }
                assert(before =~= front + after);
            } else if before.len() > 0 {
                assert(before =~= seq![Signal::End] + after);
            }
        },
        Err(e) => {
            assert(before =~= seq![before[0]] + after);
        },
    }
}

/// Reading stops at the first end or failure, if there are less bytes in front of it than
/// asked for. The bytes in front of it are read, interruptions are passed over, and a failure
/// is reported as it is; what comes behind is left.
pub proof fn law_reading_stops(tape: Seq<Signal>, limit: nat, j: int)
    requires
        0 <= j < tape.len(),
        plain(tape.take(j)),
        tape[j] is End || tape[j] is UnexpectedEof || tape[j] is Failed,
        bytes_of(tape.take(j)).len() < limit,
    ensures
        pull(tape, limit).bytes == bytes_of(tape.take(j)),
        pull(tape, limit).tape == tape.skip(j + 1),
        pull(tape, limit).failed == match tape[j] {
            Signal::Failed(why) => Some(why),
            _ => None,
        },
    decreases tape.len(),
{
    let front = tape.take(j);
    if j > 0 {
        let rest = tape.skip(1);
        assert(front.skip(1) =~= rest.take(j - 1));
        assert(front[0] == tape[0]);
        lemma_plain_skip(front);
        assert(rest.skip(j) =~= tape.skip(j + 1));
        match tape[0] {
            Signal::Byte(b) => {
                assert(bytes_of(front) == seq![b] + bytes_of(front.skip(1)));
                law_reading_stops(rest, (limit - 1) as nat, j - 1);
            },
            _ => {
                law_reading_stops(rest, limit, j - 1);
            },
        }
    } else {
        assert(front =~= Seq::<Signal>::empty());
    }
}

/// Reading stops when there are as many bytes as asked for, and leaves what comes behind the
/// last of them.
pub proof fn law_reading_is_limited(tape: Seq<Signal>, limit: nat, j: int)
    requires
        0 <= j <= tape.len(),
        plain(tape.take(j)),
        j > 0 ==> tape[j - 1] is Byte,
        bytes_of(tape.take(j)).len() == limit,
    ensures
        pull(tape, limit).bytes == bytes_of(tape.take(j)),
        pull(tape, limit).tape == tape.skip(j),
        pull(tape, limit).failed is None,
    decreases tape.len(),
{
    let front = tape.take(j);
    if j > 0 {
        let rest = tape.skip(1);
        assert(front.skip(1) =~= rest.take(j - 1));
        assert(front[0] == tape[0]);
        lemma_plain_skip(front);
        assert(rest.skip(j - 1) =~= tape.skip(j));
        if j > 1 {
            assert(rest[j - 2] == tape[j - 1]);
        }
        lemma_some_byte(front);
        match tape[0] {
            Signal::Byte(b) => {
                assert(bytes_of(front) == seq![b] + bytes_of(front.skip(1)));
                law_reading_is_limited(rest, (limit - 1) as nat, j - 1);
            },
            _ => {
                law_reading_is_limited(rest, limit, j - 1);
            },
        }
    } else {
        assert(front =~= Seq::<Signal>::empty());
        assert(tape.skip(0) =~= tape);
    }
}

/// Where the last signal is a byte, there is at least one byte.
proof fn lemma_some_byte(tape: Seq<Signal>)
    requires
        tape.len() > 0,
        tape.last() is Byte,
    ensures
        bytes_of(tape).len() > 0,
    decreases tape.len(),
{
    if tape.len() > 1 && !(tape[0] is Byte) {
        assert(tape.skip(1).last() == tape.last());
        lemma_some_byte(tape.skip(1));
    }
}

/// A source that runs dry delivers all it has.
pub proof fn law_reading_runs_dry(tape: Seq<Signal>, limit: nat)
    requires
        plain(tape),
        bytes_of(tape).len() < limit,
    ensures
        pull(tape, limit).bytes == bytes_of(tape),
        pull(tape, limit).tape.len() == 0,
        pull(tape, limit).failed is None,
    decreases tape.len(),
{
    if tape.len() > 0 {
        let rest = tape.skip(1);
        lemma_plain_skip(tape);
        match tape[0] {
            Signal::Byte(b) => {
                law_reading_runs_dry(rest, (limit - 1) as nat);
            },
            _ => {
                law_reading_runs_dry(rest, limit);
            },
        }
    }
}

/// What becomes of a chunk, from the bytes that are kept from the one before and those that
/// are read. If reading fails, the chunk fails with the reason. If it comes out short, the
/// input has ended, and the chunk is handed out as a whole if it is UTF-8. If it is full, the
/// longest part that is UTF-8 is handed out, and what is left is kept, if it can be the start of a
/// character. No byte is lost or added unless the chunk fails.
pub proof fn law_chunk(prefix: Seq<u8>, chunk: nat, tape: Seq<Signal>)
    requires
        prefix.len() < chunk,
    ensures
        ({
            let p = pull(tape, (chunk - prefix.len()) as nat);
            let bytes = prefix + p.bytes;
            let f = fill(prefix, chunk, tape);
            &&& f.tape == p.tape
            &&& p.failed matches Some(why) ==> f.outcome == Err::<(Seq<u8>, bool), Error>(
                Error::Read(why),
            )
            &&& p.failed is None && bytes.len() < chunk ==> {
                &&& f.outcome is Ok <==> valid_utf8(bytes)
                &&& f.outcome is Ok ==> f.outcome == Ok::<(Seq<u8>, bool), Error>((bytes, true))
                &&& f.prefix.len() == 0
            }
            &&& p.failed is None && bytes.len() == chunk ==> {
                &&& f.outcome matches Ok((whole, done)) ==> {
                    &&& !done
                    &&& valid_utf8(whole)
                    &&& whole + f.prefix == bytes
                    &&& f.prefix.len() == 0 || clipped_char(f.prefix)
                }
                &&& f.outcome is Err ==> forall|n: int|
                    0 <= n <= bytes.len() && valid_utf8(#[trigger] bytes.take(n)) ==> !(n
                        == bytes.len() || clipped_char(bytes.skip(n)))
            }
            &&& f.outcome is Err ==> f.prefix.len() == 0
            &&& f.outcome is Err && p.failed is None ==> f.outcome->Err_0 is InvalidUtf8
        }),
{
    let p = pull(tape, (chunk - prefix.len()) as nat);
    let bytes = prefix + p.bytes;
    let f = fill(prefix, chunk, tape);
    lemma_pull(tape, (chunk - prefix.len()) as nat);
    lemma_clip_point(bytes);
    if p.failed is None && bytes.len() == chunk {
        if f.outcome is Ok {
            assert(f.outcome->Ok_0.0 + f.prefix =~= bytes);
        } else {
            assert forall|n: int|
                0 <= n <= bytes.len() && valid_utf8(#[trigger] bytes.take(n)) implies !(n
                == bytes.len() || clipped_char(bytes.skip(n))) by {
                if n == bytes.len() {
                    assert(bytes.take(n) =~= bytes);
                } else if clipped_char(bytes.skip(n)) {
                    lemma_valid_front(bytes, n);
                }
            }
        }
    }
}

/// Where text is not UTF-8, the fault is said to be behind the longest part that is, and as
/// long as what a character could have begun with, but at least one byte. It has no length
/// exactly if the text ends inside a character.
pub proof fn law_fault(bytes: Seq<u8>)
    requires
        !valid_utf8(bytes),
    ensures
        ({
            let at = valid_up_to(bytes) as int;
            let tail = bytes.skip(at);
            &&& 0 <= at < bytes.len()
            &&& valid_utf8(bytes.take(at))
            &&& forall|n: int|
                0 <= n <= bytes.len() && valid_utf8(#[trigger] bytes.take(n)) ==> n <= at
            &&& fault_len(tail) is None <==> clipped_char(tail)
            &&& fault_len(tail) matches Some(k) ==> {
                &&& 1 <= k <= 3
                &&& k == 1 || clipped_char(tail.take(k as int))
                &&& k < 3 ==> k == 1 && !clipped_char(tail.take(1)) || !clipped_char(
                    tail.take(k + 1),
                )
            }
        }),
{
    lemma_clip_point(bytes);
    assert forall|n: int| 0 <= n <= bytes.len() && valid_utf8(#[trigger] bytes.take(n)) implies n
        <= valid_up_to(bytes) by {
        lemma_longest_valid(bytes, n);
    }
}

/// A chunk is cut where the characters that are whole end: in front of that it is UTF-8, and
/// behind it there is nothing, or a character that has begun and can be completed. There is
/// just one such place, if there is any.
pub proof fn law_clip_point(bytes: Seq<u8>, n: nat)
    requires
        n <= bytes.len(),
    ensures
        clip_point(bytes) == Some(n) <==> valid_utf8(bytes.take(n as int)) && (n == bytes.len()
            || clipped_char(bytes.skip(n as int))),
{
    lemma_clip_point(bytes);
    if valid_utf8(bytes.take(n as int)) {
        if n == bytes.len() {
            assert(bytes.take(n as int) =~= bytes);
        } else if clipped_char(bytes.skip(n as int)) {
            lemma_valid_front(bytes, n as int);
        }
    }
}

/// A character that is cut off has one to three bytes, is not UTF-8 as it stands, and begins
/// one that is, together with the bytes `more`.
pub proof fn law_clipped_char(tail: Seq<u8>) -> (more: Seq<u8>)
    requires
        clipped_char(tail),
    ensures
        1 <= tail.len() <= 3,
        !valid_utf8(tail),
        valid_first_scalar(tail + more),
{
    lemma_clipped_len(tail);
    choose|more: Seq<u8>| valid_first_scalar(#[trigger] (tail + more))
}

/// The state of a reader at the beginning of a read, and its end: nothing is lost when a read
/// begins, and the end is reached when nothing is left and the source has ended.
pub proof fn law_read_begins(v: ReaderView)
    ensures
        v.begun().rest == v.rest,
        v.begun().prefix == v.prefix,
        v.begun().tape == v.tape,
        v.begun().chunk == v.chunk,
        v.begun().last_len == v.last_len,
        !v.begun().at_eof(),
        v.at_eof() <==> v.rest.len() == 0 && v.state == ReaderState::EOF,
{
}

/// To pass over less than the buffer holds takes that from its front, and nothing else. To
/// pass over all of it, or more, has the next chunk fetched, and what is missing is passed
/// over there. If the chunk cannot be had, the error is that of the chunk, and the buffer
/// stays. At the end of the input nothing happens.
pub proof fn law_passing_over(v: ReaderView, n: nat)
    requires
        v.ok(),
    ensures
        ({
            let (next, r) = v.advance(n);
            let f = fill(v.prefix, v.chunk, v.tape);
            &&& n < v.rest.len() ==> {
                &&& r is Ok
                &&& next.rest == v.rest.skip(n as int)
                &&& next.prefix == v.prefix
                &&& next.tape == v.tape
                &&& next.state == v.state
            }
            &&& v.at_eof() ==> next == v && r is Ok
            &&& n >= v.rest.len() && !v.at_eof() ==> match f.outcome {
                Err(e) => {
                    &&& r == Err::<(), Error>(e)
                    &&& next.rest == v.rest
                    &&& next.prefix == f.prefix
                    &&& next.tape == f.tape
                    &&& next.state == v.state
                },
                Ok((bytes, done)) => {
                    let filled = ReaderView {
                        rest: bytes,
                        prefix: f.prefix,
                        tape: f.tape,
                        chunk: v.chunk,
                        state: if done {
                            ReaderState::EOF
                        } else {
                            v.state
                        },
                        last_len: v.last_len,
                    };
                    &&& bytes.len() > 0 || done
                    &&& (next, r) == filled.advance((n - v.rest.len()) as nat)
                },
            }
            &&& next.chunk == v.chunk
            &&& next.last_len == v.last_len
        }),
{
    let f = fill(v.prefix, v.chunk, v.tape);
    v.lemma_advance(n);
    lemma_fill(v.prefix, v.chunk, v.tape);
    lemma_flows_on(v.prefix, v.chunk, v.tape);
    reveal_with_fuel(ReaderView::advance, 2);
    if f.outcome is Ok {
        assert(v.refilled(f).rest.len() > 0 || f.outcome->Ok_0.1);
    }
}

/// The source fails before it comes to an end.
pub open spec fn fails_first(tape: Seq<Signal>) -> bool {
    exists|j: int|
        0 <= j < tape.len() && (#[trigger] tape[j]) is Failed && plain(tape.take(j))
}

/// A source that fails still does so after some of its bytes were read, unless the read was
/// the one that failed.
proof fn lemma_pull_fails_first(tape: Seq<Signal>, limit: nat)
    requires
        fails_first(tape),
    ensures
        pull(tape, limit).failed is Some || (pull(tape, limit).bytes.len() == limit && fails_first(
            pull(tape, limit).tape,
        )),
    decreases tape.len(),
{
    if limit > 0 {
        let j = choose|j: int|
            0 <= j < tape.len() && (#[trigger] tape[j]) is Failed && plain(tape.take(j));
        let rest = tape.skip(1);
        if j > 0 {
            let front = tape.take(j);
            assert(front[0] == tape[0]);
            lemma_plain_skip(front);
            assert(front.skip(1) =~= rest.take(j - 1));
            assert(rest[j - 1] == tape[j]);
            assert(fails_first(rest));
            match tape[0] {
                Signal::Byte(_) => {
                    lemma_pull_fails_first(rest, (limit - 1) as nat);
                },
                _ => {
                    lemma_pull_fails_first(rest, limit);
                },
            }
        }
    }
}

/// A failure of the source is not passed over: the input cannot be read to its end.
pub proof fn law_failure_shows(v: ReaderView)
    requires
        v.ok(),
        !v.at_eof(),
        fails_first(v.tape),
    ensures
        !v.unfailing(),
    decreases v.tape.len(),
{
    let f = fill(v.prefix, v.chunk, v.tape);
    let next = v.refilled(f);
    lemma_fill(v.prefix, v.chunk, v.tape);
    lemma_flows_on(v.prefix, v.chunk, v.tape);
    lemma_pull_fails_first(v.tape, (v.chunk - v.prefix.len()) as nat);
    if f.outcome is Ok {
        assert(!f.outcome->Ok_0.1);
        v.lemma_refill();
        law_failure_shows(next);
        v.lemma_advance_split(v.text().len());
    }
}

/// Input that is not UTF-8 is not passed over: it cannot be read to its end.
pub proof fn law_fault_shows(v: ReaderView)
    requires
        v.ok(),
        !v.at_eof(),
        quiet(v.tape),
        !valid_utf8(v.prefix + bytes_of(v.tape)),
    ensures
        !v.unfailing(),
    decreases v.tape.len(),
{
    let f = fill(v.prefix, v.chunk, v.tape);
    let next = v.refilled(f);
    let limit = (v.chunk - v.prefix.len()) as nat;
    let p = pull(v.tape, limit);
    let all = v.prefix + bytes_of(v.tape);
    let bytes = v.prefix + p.bytes;
    lemma_fill(v.prefix, v.chunk, v.tape);
    lemma_flows_on(v.prefix, v.chunk, v.tape);
    lemma_pull(v.tape, limit);
    lemma_pull_quiet(v.tape, limit);
    law_chunk(v.prefix, v.chunk, v.tape);
    assert(all =~= bytes + bytes_of(p.tape));
    if f.outcome is Ok {
        let whole = f.outcome->Ok_0.0;
        if f.outcome->Ok_0.1 {
            assert(bytes_of(p.tape) =~= Seq::<u8>::empty());
            assert(all =~= whole);
        } else {
            let left = f.prefix + bytes_of(f.tape);
            assert(all =~= whole + left);
            if valid_utf8(left) {
                vstd::utf8::valid_utf8_concat(whole, left);
            }
            v.lemma_refill();
            law_fault_shows(next);
            v.lemma_advance_split(v.text().len());
        }
    }
}

/// Where a source does not fail, reading comes to the end of the input exactly if its bytes
/// are UTF-8.
pub proof fn law_ends_if_utf8(v: ReaderView)
    requires
        v.ok(),
        !v.at_eof(),
        quiet(v.tape),
    ensures
        v.unfailing() <==> valid_utf8(v.prefix + bytes_of(v.tape)),
{
    if valid_utf8(v.prefix + bytes_of(v.tape)) {
        v.lemma_text_quiet();
    } else {
        law_fault_shows(v);
    }
}

/// If a read fails at the end of the text, the part of the text that is in the buffer stays
/// there.
pub proof fn law_failure_keeps_buffer(v: ReaderView)
    requires
        v.ok(),
        !v.unfailing(),
    ensures
        ({
            let left = v.advance(v.text().len()).0.rest;
            &&& left.len() <= v.text().len()
            &&& left == v.text().skip(v.text().len() - left.len())
            &&& v.rest.len() > 0 ==> left.len() > 0
        }),
    decreases v.tape.len(),
{
    let (next, r) = v.advance(v.rest.len());
    v.lemma_advance(v.rest.len());
    if !v.at_eof() {
        v.lemma_advance_split(v.text().len());
        if r is Ok && next.rest.len() > 0 {
            law_failure_keeps_buffer(next);
            let left = v.advance(v.text().len()).0.rest;
            assert(left =~= v.text().skip(v.text().len() - left.len()));
        } else {
            lemma_failed_rest(v);
            assert(v.text().skip(0) =~= v.text());
        }
    }
}

/// Where the next chunk cannot be had, the buffer stays as it was.
proof fn lemma_failed_rest(v: ReaderView)
    requires
        v.ok(),
        !v.at_eof(),
    ensures
        v.advance(v.rest.len()).1 is Err ==> v.advance(v.rest.len()).0.rest == v.rest,
{
    let f = fill(v.prefix, v.chunk, v.tape);
    lemma_fill(v.prefix, v.chunk, v.tape);
    lemma_flows_on(v.prefix, v.chunk, v.tape);
    if f.outcome is Ok {
        let next = v.refilled(f);
        if next.rest.len() > 0 {
            v.lemma_refill();
        } else {
            assert(next.at_eof());
        }
    }
}

} // verus!
