//! What a reader makes of the signals of its source.
//!
//! A reader takes its input in chunks of a fixed size. The bytes of a chunk that
//! form whole characters become the reader's buffer; a character that the end of
//! the chunk cuts off is kept and put in front of the next chunk.

use crate::error::Error;
use crate::source::Signal;
use crate::utf8::{clip_point, clipped_char, fault_len, valid_up_to};
use vstd::prelude::*;
use vstd::utf8::valid_utf8;

verus! {

/// The state of a reader, as the last read left it.
#[derive(Copy, Clone, PartialEq, Eq, Structural, Debug)]
pub enum ReaderState {
    /// Something went wrong.
    ERROR,
    /// The input has come to its end.
    EOF,
    /// There may be more to read.
    OK,
}

/// What came of an attempt to read a number of bytes.
pub struct Pull {
    /// The bytes that were read.
    pub bytes: Seq<u8>,
    /// What the source has left.
    pub tape: Seq<Signal>,
    /// The reason why reading failed, if it did.
    pub failed: Option<String>,
}

/// Reads up to `limit` bytes: interruptions are passed over; an end of the input,
/// expected or not, stops the reading, and so does a failure.
pub open spec fn pull(tape: Seq<Signal>, limit: nat) -> Pull
    decreases tape.len(),
{
    if limit == 0 || tape.len() == 0 {
        Pull { bytes: Seq::empty(), tape, failed: None }
    } else {
        match tape[0] {
            Signal::Byte(b) => {
                let rest = pull(tape.skip(1), (limit - 1) as nat);
                Pull { bytes: seq![b] + rest.bytes, ..rest }
            },
            Signal::Interrupted => pull(tape.skip(1), limit),
            Signal::End | Signal::UnexpectedEof => Pull {
                bytes: Seq::empty(),
                tape: tape.skip(1),
                failed: None,
            },
            Signal::Failed(why) => Pull {
                bytes: Seq::empty(),
                tape: tape.skip(1),
                failed: Some(why),
            },
        }
    }
}

/// What came of an attempt to fill the buffer.
pub struct Fill {
    /// What the source has left.
    pub tape: Seq<Signal>,
    /// The cut-off character that is kept for the next chunk.
    pub prefix: Seq<u8>,
    /// The new contents of the buffer, and whether the input ended with them.
    pub outcome: Result<(Seq<u8>, bool), Error>,
}

/// The error for a chunk that holds something that is not UTF-8.
pub open spec fn utf8_error(bytes: Seq<u8>) -> Error {
    let n = valid_up_to(bytes);
    Error::InvalidUtf8(n as usize, fault_len(bytes.skip(n as int)))
}

/// Fills the buffer with a chunk of `chunk` bytes, the first of which are `prefix`.
/// A chunk that comes out shorter is the last one before an end of the input, and
/// must be UTF-8 as a whole; a full chunk may end inside a character.
pub open spec fn fill(prefix: Seq<u8>, chunk: nat, tape: Seq<Signal>) -> Fill {
    let p = pull(tape, (chunk - prefix.len()) as nat);
    let bytes = prefix + p.bytes;
    match p.failed {
        Some(why) => Fill {
            tape: p.tape,
            prefix: Seq::empty(),
            outcome: Err(Error::Read(why)),
        },
        None => if bytes.len() != chunk {
            Fill {
                tape: p.tape,
                prefix: Seq::empty(),
                outcome: if valid_utf8(bytes) {
                    Ok((bytes, true))
                } else {
                    Err(utf8_error(bytes))
                },
            }
        } else {
            match clip_point(bytes) {
                Some(n) => Fill {
                    tape: p.tape,
                    prefix: bytes.skip(n as int),
                    outcome: Ok((bytes.take(n as int), false)),
                },
                None => Fill {
                    tape: p.tape,
                    prefix: Seq::empty(),
                    outcome: Err(utf8_error(bytes)),
                },
            }
        },
    }
}

/// A reader, seen from outside.
#[verifier::ext_equal]
pub struct ReaderView {
    /// What is left of the buffer.
    pub rest: Seq<u8>,
    /// The cut-off character that is kept for the next chunk.
    pub prefix: Seq<u8>,
    /// What the source has left.
    pub tape: Seq<Signal>,
    /// The size of a chunk.
    pub chunk: nat,
    /// The state.
    pub state: ReaderState,
    /// The number of bytes that the last read has taken.
    pub last_len: usize,
}

impl ReaderView {
    /// A reader that was not used yet.
    pub open spec fn initial(tape: Seq<Signal>, chunk: nat) -> ReaderView {
        ReaderView {
            rest: Seq::empty(),
            prefix: Seq::empty(),
            tape,
            chunk,
            state: ReaderState::OK,
            last_len: 0,
        }
    }

    /// The reader at the beginning of a read.
    pub open spec fn begun(self) -> ReaderView {
        ReaderView { state: ReaderState::OK, ..self }
    }

    /// The input has come to its end, and everything was taken.
    pub open spec fn at_eof(self) -> bool {
        self.rest.len() == 0 && self.state == ReaderState::EOF
    }

    /// What the last read came to, as `getline` reports it: 1 for a line, 0 for the end
    /// of the input, -1 for an error. A read that has taken some bytes has always
    /// come to a line.
    pub open spec fn read_code(self) -> i64 {
        if self.state == ReaderState::OK || self.last_len != 0 {
            1
        } else if self.state == ReaderState::EOF {
            0
        } else {
            -1i64
        }
    }

    /// The reader with the buffer that a successful fill has made.
    pub open spec fn refilled(self, f: Fill) -> ReaderView {
        ReaderView {
            rest: f.outcome->Ok_0.0,
            prefix: f.prefix,
            tape: f.tape,
            state: if f.outcome->Ok_0.1 {
                ReaderState::EOF
            } else {
                self.state
            },
            ..self
        }
    }

    /// The reader after it has passed over `n` bytes, or as far as there were any. It
    /// never leaves an empty buffer behind but at the end of the input: it fills the
    /// buffer anew, as often as that takes. If filling fails, the buffer stays as it
    /// was.
    pub open spec fn advance(self, n: nat) -> (ReaderView, Result<(), Error>)
        decreases self.tape.len(),
    {
        if self.rest.len() > n {
            (ReaderView { rest: self.rest.skip(n as int), ..self }, Ok(()))
        } else if self.at_eof() {
            (self, Ok(()))
        } else {
            let f = fill(self.prefix, self.chunk, self.tape);
            match f.outcome {
                Err(e) => (ReaderView { prefix: f.prefix, tape: f.tape, ..self }, Err(e)),
                Ok(_) => {
                    let next = self.refilled(f);
                    if next.at_eof() || f.tape.len() >= self.tape.len() {
                        (next, Ok(()))
                    } else {
                        next.advance((n - self.rest.len()) as nat)
                    }
                },
            }
        }
    }

    /// The bytes that are to come: all that passing over the input would find, up to the
    /// end of the input, or to a chunk that cannot be had.
    pub open spec fn text(self) -> Seq<u8>
        decreases self.tape.len(),
    {
        let (next, r) = self.advance(self.rest.len());
        if !self.at_eof() && r is Ok && next.rest.len() > 0 && next.tape.len() < self.tape.len() {
            self.rest + next.text()
        } else {
            self.rest
        }
    }

    /// What is kept of a character is the start of one, and it never takes up a whole
    /// chunk: not now, and not at any later fill.
    pub open spec fn ok(self) -> bool {
        &&& self.prefix.len() == 0 || clipped_char(self.prefix)
        &&& flows(self.prefix, self.chunk, self.tape)
    }
}

/// Each chunk has room for at least one byte after the character that is kept from
/// the chunk before. With chunks of less than four bytes, a character may be longer
/// than a chunk, and reading would come to a standstill.
pub open spec fn flows(prefix: Seq<u8>, chunk: nat, tape: Seq<Signal>) -> bool
    decreases tape.len(),
{
    &&& prefix.len() < chunk
    &&& {
        let f = fill(prefix, chunk, tape);
        f.tape.len() < tape.len() ==> flows(f.prefix, chunk, f.tape)
    }
}

/// Reading takes no more bytes than asked for, and takes something where there is
/// something to take.
pub proof fn lemma_pull(tape: Seq<Signal>, limit: nat)
    ensures
        pull(tape, limit).bytes.len() <= limit,
        pull(tape, limit).tape.len() <= tape.len(),
        limit > 0 && tape.len() > 0 ==> pull(tape, limit).tape.len() < tape.len(),
        tape.len() == 0 ==> pull(tape, limit).bytes.len() == 0 && pull(tape, limit).failed is None,
    decreases tape.len(),
{
    if limit > 0 && tape.len() > 0 {
        match tape[0] {
            Signal::Byte(_) => lemma_pull(tape.skip(1), (limit - 1) as nat),
            Signal::Interrupted => lemma_pull(tape.skip(1), limit),
            _ => {},
        }
    }
}

/// A fill makes progress, or it finds the end of the input; what it puts into the
/// buffer is UTF-8, and what it keeps is the start of a character.
pub proof fn lemma_fill(prefix: Seq<u8>, chunk: nat, tape: Seq<Signal>)
    requires
        prefix.len() < chunk,
        prefix.len() == 0 || clipped_char(prefix),
    ensures
        ({
            let f = fill(prefix, chunk, tape);
            &&& f.tape.len() <= tape.len()
            &&& f.prefix.len() == 0 || clipped_char(f.prefix)
            &&& f.prefix.len() <= 3
            &&& f.outcome matches Ok((bytes, done)) ==> {
                &&& valid_utf8(bytes)
                &&& bytes.len() + f.prefix.len() <= chunk
                &&& done || bytes.len() + f.prefix.len() == chunk
                &&& f.tape.len() < tape.len() || (tape.len() == 0 && done && bytes.len() == 0)
            }
            &&& f.outcome is Err ==> f.tape.len() < tape.len() || prefix.len() > 0
        }),
{
    let limit = (chunk - prefix.len()) as nat;
    lemma_pull(tape, limit);
    let p = pull(tape, limit);
    let bytes = prefix + p.bytes;
    crate::utf8::lemma_clip_point(bytes);
    if tape.len() == 0 {
        assert(bytes =~= prefix);
    }
    if p.failed is None && bytes.len() == chunk {
        if let Some(n) = clip_point(bytes) {
            if bytes.skip(n as int).len() > 0 {
                crate::utf8::lemma_clipped_len(bytes.skip(n as int));
            }
        }
    }
}

/// What holds of all fills to come still holds after the next one.
pub proof fn lemma_flows_on(prefix: Seq<u8>, chunk: nat, tape: Seq<Signal>)
    requires
        prefix.len() == 0 || clipped_char(prefix),
        flows(prefix, chunk, tape),
    ensures
        ({
            let f = fill(prefix, chunk, tape);
            &&& f.prefix.len() == 0 || clipped_char(f.prefix)
            &&& flows(f.prefix, chunk, f.tape)
        }),
{
    lemma_fill(prefix, chunk, tape);
    let f = fill(prefix, chunk, tape);
    if f.tape.len() == tape.len() {
        lemma_pull(tape, (chunk - prefix.len()) as nat);
        assert(tape.len() == 0);
        assert(f.prefix.len() < chunk);
        lemma_fill(f.prefix, chunk, f.tape);
    }
}

/// With chunks of four bytes or more, every chunk has room for new bytes.
pub proof fn lemma_flows(prefix: Seq<u8>, chunk: nat, tape: Seq<Signal>)
    requires
        chunk >= 4,
        prefix.len() == 0 || clipped_char(prefix),
    ensures
        flows(prefix, chunk, tape),
    decreases tape.len(),
{
    if prefix.len() > 0 {
        crate::utf8::lemma_clipped_len(prefix);
    }
    lemma_fill(prefix, chunk, tape);
    let f = fill(prefix, chunk, tape);
    if f.tape.len() < tape.len() {
        lemma_flows(f.prefix, chunk, f.tape);
    }
}

impl ReaderView {
    /// Passing over bytes keeps a reader in order. It leaves the buffer empty at the end
    /// of the input only, and takes something from the source whenever it fills the
    /// buffer anew.
    pub proof fn lemma_advance(self, n: nat)
        requires
            self.ok(),
        ensures
            ({
                let (next, r) = self.advance(n);
                &&& next.ok()
                &&& next.chunk == self.chunk
                &&& next.last_len == self.last_len
                &&& next.tape.len() <= self.tape.len()
                &&& r is Ok ==> next.rest.len() > 0 || next.at_eof()
                &&& r is Ok && n >= self.rest.len() && next.rest.len() > 0 ==> next.tape.len()
                    < self.tape.len()
            }),
        decreases self.tape.len(),
    {
        if self.rest.len() > n || self.at_eof() {
        } else {
            lemma_fill(self.prefix, self.chunk, self.tape);
            lemma_flows_on(self.prefix, self.chunk, self.tape);
            let f = fill(self.prefix, self.chunk, self.tape);
            if f.outcome is Ok {
                let next = self.refilled(f);
                if !next.at_eof() {
                    next.lemma_advance((n - self.rest.len()) as nat);
                }
            }
        }
    }

    /// To pass over more than the buffer holds is to pass over the buffer first, and
    /// then over what is missing.
    pub proof fn lemma_advance_split(self, n: nat)
        requires
            self.ok(),
            !self.at_eof(),
            n >= self.rest.len(),
        ensures
            ({
                let (next, r) = self.advance(self.rest.len());
                &&& r is Err ==> self.advance(n) == (next, r)
                &&& r is Ok ==> self.advance(n) == next.advance((n - self.rest.len()) as nat)
            }),
        decreases self.tape.len(),
    {
        reveal_with_fuel(ReaderView::advance, 2);
        lemma_fill(self.prefix, self.chunk, self.tape);
        lemma_flows_on(self.prefix, self.chunk, self.tape);
        let f = fill(self.prefix, self.chunk, self.tape);
        if f.outcome is Ok {
            let next = self.refilled(f);
            if !next.at_eof() {
                if next.rest.len() == 0 {
                    next.lemma_advance_split((n - self.rest.len()) as nat);
                } else {
                    assert(next.rest.skip(0) =~= next.rest);
                }
            }
        }
    }
}

impl ReaderView {
    /// The input comes to its end without a failure.
    pub open spec fn unfailing(self) -> bool {
        self.advance(self.text().len()).1 is Ok
    }

    /// Where the buffer is filled anew, it does not matter what was left in it.
    proof fn lemma_same_refill(self, other: ReaderView)
        requires
            !self.at_eof(),
            !other.at_eof(),
            other == (ReaderView { rest: other.rest, ..self }),
        ensures
            ({
                let (a, ra) = self.advance(self.rest.len());
                let (b, rb) = other.advance(other.rest.len());
                &&& ra == rb
                &&& ra is Ok ==> a == b
            }),
    {
    }

    /// Passing over bytes takes them from the front of what is to come, and fails only
    /// where all of it was passed over.
    pub proof fn lemma_text_advance(self, k: nat)
        requires
            self.ok(),
            k <= self.text().len(),
        ensures
            ({
                let (next, r) = self.advance(k);
                &&& k < self.text().len() ==> r is Ok && next.text() == self.text().skip(k as int)
                    && next.rest.len() > 0 && next.unfailing() == self.unfailing()
                &&& k == self.text().len() && r is Ok ==> next.at_eof()
            }),
        decreases self.tape.len(),
    {
        let (next, r) = self.advance(k);
        let (n1, r1) = self.advance(self.rest.len());
        self.lemma_advance(k);
        self.lemma_advance(self.rest.len());
        if k < self.rest.len() {
            self.lemma_same_refill(next);
            if r1 is Ok && n1.rest.len() > 0 {
                assert(next.text() =~= self.text().skip(k as int));
                next.lemma_advance_split(next.text().len());
                self.lemma_advance_split(self.text().len());
            } else {
                assert(next.text() =~= self.text().skip(k as int));
            }
        } else if !self.at_eof() {
            self.lemma_advance_split(k);
            self.lemma_advance_split(self.text().len());
            if r1 is Ok && n1.rest.len() > 0 {
                let j = (k - self.rest.len()) as nat;
                n1.lemma_text_advance(j);
                assert(n1.text().skip(j as int) =~= self.text().skip(k as int));
            }
        }
    }

    /// A successful fill that puts something into the buffer is all that it takes to go on.
    pub proof fn lemma_refill(self)
        requires
            !self.at_eof(),
            fill(self.prefix, self.chunk, self.tape).outcome is Ok,
            fill(self.prefix, self.chunk, self.tape).tape.len() < self.tape.len(),
            fill(self.prefix, self.chunk, self.tape).outcome->Ok_0.0.len() > 0,
        ensures
            self.advance(self.rest.len()) == (
                self.refilled(fill(self.prefix, self.chunk, self.tape)),
                Ok::<(), Error>(()),
            ),
    {
        reveal_with_fuel(ReaderView::advance, 2);
        let next = self.refilled(fill(self.prefix, self.chunk, self.tape));
        assert(next.rest.skip(0) =~= next.rest);
    }

    /// What is to come does not depend on the state that the reader is in, as long as
    /// there is something in the buffer.
    pub proof fn lemma_text_state(self, state: ReaderState)
        requires
            self.ok(),
            self.rest.len() > 0,
        ensures
            (ReaderView { state, ..self }).ok(),
            (ReaderView { state, ..self }).text() == self.text(),
            (ReaderView { state, ..self }).unfailing() == self.unfailing(),
        decreases self.tape.len(),
    {
        let other = ReaderView { state, ..self };
        let (n1, r1) = self.advance(self.rest.len());
        let (n2, r2) = other.advance(other.rest.len());
        self.lemma_advance(self.rest.len());
        other.lemma_advance(other.rest.len());
        lemma_fill(self.prefix, self.chunk, self.tape);
        lemma_flows_on(self.prefix, self.chunk, self.tape);
        let f = fill(self.prefix, self.chunk, self.tape);
        if f.outcome is Ok {
            let next = self.refilled(f);
            if next.rest.len() > 0 {
                self.lemma_refill();
                other.lemma_refill();
                assert(n2 == (ReaderView { state: n2.state, ..n1 }));
                n1.lemma_text_state(n2.state);
                self.lemma_advance_split(self.text().len());
                other.lemma_advance_split(other.text().len());
            } else {
                assert(f.outcome->Ok_0.1);
            }
        }
    }
}

impl ReaderView {
    /// The number of bytes that the last read has taken does not matter for passing over
    /// bytes.
    proof fn lemma_advance_last_len(self, last_len: usize, n: nat)
        ensures
            ({
                let (a, ra) = self.advance(n);
                let (b, rb) = (ReaderView { last_len, ..self }).advance(n);
                ra == rb && b == (ReaderView { last_len, ..a })
            }),
        decreases self.tape.len(),
    {
        let other = ReaderView { last_len, ..self };
        let f = fill(self.prefix, self.chunk, self.tape);
        if self.rest.len() <= n && !self.at_eof() && f.outcome is Ok {
            let next = self.refilled(f);
            assert(other.refilled(f) == (ReaderView { last_len, ..next }));
            if !next.at_eof() && f.tape.len() < self.tape.len() {
                next.lemma_advance_last_len(last_len, (n - self.rest.len()) as nat);
            }
        }
    }

    /// The number of bytes that the last read has taken does not matter for what is to come.
    pub proof fn lemma_text_last_len(self, last_len: usize)
        ensures
            (ReaderView { last_len, ..self }).text() == self.text(),
            (ReaderView { last_len, ..self }).unfailing() == self.unfailing(),
        decreases self.tape.len(),
    {
        let next = self.advance(self.rest.len()).0;
        self.lemma_advance_last_len(last_len, self.rest.len());
        if next.tape.len() < self.tape.len() {
            next.lemma_text_last_len(last_len);
        }
        self.lemma_advance_last_len(last_len, self.text().len());
    }
}

/// The bytes among the signals of a tape.
pub open spec fn bytes_of(tape: Seq<Signal>) -> Seq<u8>
    decreases tape.len(),
{
    if tape.len() == 0 {
        Seq::empty()
    } else if let Signal::Byte(b) = tape[0] {
        seq![b] + bytes_of(tape.skip(1))
    } else {
        bytes_of(tape.skip(1))
    }
}

/// The source delivers nothing but bytes and interruptions, and may report the end of
/// the input after them.
pub open spec fn quiet(tape: Seq<Signal>) -> bool {
    forall|i: int|
        0 <= i < tape.len() ==> match #[trigger] tape[i] {
            Signal::Byte(_) | Signal::Interrupted => true,
            Signal::End | Signal::UnexpectedEof => i == tape.len() - 1,
            Signal::Failed(_) => false,
        }
}

/// A quiet source delivers as many bytes as asked for, or all it has.
pub proof fn lemma_pull_quiet(tape: Seq<Signal>, limit: nat)
    requires
        quiet(tape),
    ensures
        ({
            let p = pull(tape, limit);
            &&& p.failed is None
            &&& quiet(p.tape)
            &&& p.bytes + bytes_of(p.tape) == bytes_of(tape)
            &&& p.bytes.len() < limit ==> p.tape.len() == 0
        }),
    decreases tape.len(),
{
    if limit == 0 || tape.len() == 0 {
        assert(Seq::<u8>::empty() + bytes_of(tape) =~= bytes_of(tape));
    } else {
        let rest = tape.skip(1);
        assert(quiet(rest)) by {
            assert forall|i: int| 0 <= i < rest.len() implies match #[trigger] rest[i] {
                Signal::Byte(_) | Signal::Interrupted => true,
                Signal::End | Signal::UnexpectedEof => i == rest.len() - 1,
                Signal::Failed(_) => false,
            } by {
                assert(rest[i] == tape[i + 1]);
            }
        }
        match tape[0] {
            Signal::Byte(b) => {
                lemma_pull_quiet(rest, (limit - 1) as nat);
                let p = pull(rest, (limit - 1) as nat);
                assert(seq![b] + p.bytes + bytes_of(p.tape) =~= seq![b] + (p.bytes + bytes_of(
                    p.tape,
                )));
            },
            Signal::Interrupted => {
                lemma_pull_quiet(rest, limit);
            },
            _ => {
                assert(tape.len() == 1);
                assert(bytes_of(rest) =~= Seq::<u8>::empty());
                assert(Seq::<u8>::empty() + bytes_of(rest) =~= bytes_of(tape));
            },
        }
    }
}

/// Filling the buffer from a quiet source with UTF-8 text succeeds, and loses nothing.
proof fn lemma_fill_quiet(prefix: Seq<u8>, chunk: nat, tape: Seq<Signal>)
    requires
        prefix.len() == 0 || clipped_char(prefix),
        flows(prefix, chunk, tape),
        quiet(tape),
        valid_utf8(prefix + bytes_of(tape)),
    ensures
        ({
            let f = fill(prefix, chunk, tape);
            let all = prefix + bytes_of(tape);
            &&& f.outcome matches Ok((bytes, done)) && {
                &&& bytes + (f.prefix + bytes_of(f.tape)) == all
                &&& bytes.len() == 0 ==> done && all.len() == 0
            }
            &&& quiet(f.tape)
            &&& valid_utf8(f.prefix + bytes_of(f.tape))
        }),
{
    let limit = (chunk - prefix.len()) as nat;
    let all = prefix + bytes_of(tape);
    let p = pull(tape, limit);
    let bytes = prefix + p.bytes;
    let f = fill(prefix, chunk, tape);
    lemma_pull(tape, limit);
    lemma_pull_quiet(tape, limit);
    lemma_fill(prefix, chunk, tape);
    lemma_flows_on(prefix, chunk, tape);
    assert(all == bytes + bytes_of(p.tape)) by {
        assert(all =~= bytes + bytes_of(p.tape));
    }
    if bytes.len() == chunk {
        lemma_clip_front(bytes, bytes_of(p.tape));
        let n = valid_up_to(bytes) as int;
        assert(f.prefix == bytes.skip(n));
        assert(f.outcome->Ok_0.0 == bytes.take(n));
    } else {
        assert(bytes_of(p.tape) == Seq::<u8>::empty());
        assert(bytes + Seq::<u8>::empty() == bytes) by {
            assert(bytes + Seq::<u8>::empty() =~= bytes);
        }
        assert(Seq::<u8>::empty() + Seq::<u8>::empty() == Seq::<u8>::empty()) by {
            assert(Seq::<u8>::empty() + Seq::<u8>::empty() =~= Seq::<u8>::empty());
        }
    }
}

/// UTF-8 text that begins with `bytes` falls into the part of `bytes` in front of its
/// clip point, and the rest.
proof fn lemma_clip_front(bytes: Seq<u8>, more: Seq<u8>)
    requires
        valid_utf8(bytes + more),
    ensures
        ({
            let n = valid_up_to(bytes) as int;
            &&& clip_point(bytes) == Some(n as nat)
            &&& bytes.take(n) + (bytes.skip(n) + more) == bytes + more
            &&& valid_utf8(bytes.skip(n) + more)
        }),
{
    let all = bytes + more;
    let n = valid_up_to(bytes) as int;
    crate::utf8::lemma_clip_valid(all, bytes.len() as int);
    assert(all.take(bytes.len() as int) =~= bytes);
    crate::utf8::lemma_clip_point(bytes);
    assert(all.skip(n) =~= bytes.skip(n) + more);
    assert(bytes.take(n) + (bytes.skip(n) + more) =~= all);
}

impl ReaderView {
    /// If a source is quiet, and its bytes are UTF-8, then all of them come through.
    pub proof fn lemma_text_quiet(self)
        requires
            self.ok(),
            !self.at_eof(),
            quiet(self.tape),
            valid_utf8(self.prefix + bytes_of(self.tape)),
        ensures
            self.text() == self.rest + (self.prefix + bytes_of(self.tape)),
            self.unfailing(),
        decreases self.tape.len(),
    {
        let all = self.prefix + bytes_of(self.tape);
        let f = fill(self.prefix, self.chunk, self.tape);
        let next = self.refilled(f);
        lemma_fill(self.prefix, self.chunk, self.tape);
        lemma_fill_quiet(self.prefix, self.chunk, self.tape);
        lemma_flows_on(self.prefix, self.chunk, self.tape);
        if next.rest.len() == 0 {
            assert(self.advance(self.rest.len()) == (next, Ok::<(), Error>(())));
            assert(self.rest + all =~= self.rest);
        } else {
            self.lemma_refill();
            next.lemma_text_quiet();
            assert(self.text() =~= self.rest + all);
            self.lemma_advance_split(self.text().len());
        }
    }
}

} // verus!
