//! Buffer management: a source, read chunk by chunk.

use crate::error::Error;
use crate::source::{ReadError, Signal, Source};
use crate::str_impl::{Buf, Str, UniqueBuf};
use crate::stray::{stray_bytes, Stray};
use crate::stream::{
    fill, flows, lemma_fill, lemma_flows, lemma_flows_on, lemma_pull, pull, ReaderState, ReaderView,
};
use crate::utf8::{
    is_utf8, lemma_clip_point, lemma_clipped_len, utf8_fault, validate_utf8_clipped,
};
use vstd::prelude::*;

verus! {

/// The zeros that follow the bytes of a chunk in its buffer.
pub const PADDING: usize = 32;

/// Fills `buf` from a source, as far as there is input. Returns the number of bytes
/// that were read; they stand at the front of `buf`, and what is behind them is as it was.
pub fn read_to_slice<R: Source>(r: &mut R, buf: &mut [u8]) -> (res: Result<usize, Error>)
    ensures
        ({
            let p = pull(old(r).tape(), old(buf)@.len());
            &&& final(r).tape() == p.tape
            &&& p.bytes.len() <= old(buf)@.len()
            &&& final(buf)@ == p.bytes + old(buf)@.skip(p.bytes.len() as int)
            &&& match p.failed {
                Some(why) => res == Err::<usize, Error>(Error::Read(why)),
                None => res == Ok::<usize, Error>(p.bytes.len() as usize),
            }
        }),
{
    let ghost tape0 = r.tape();
    let ghost limit = buf@.len();
    let mut read: usize = 0;
    while read < buf.len()
        invariant_except_break
            ({
                let all = pull(tape0, limit);
                let left = pull(r.tape(), (limit - read) as nat);
                &&& all.bytes == buf@.take(read as int) + left.bytes
                &&& all.tape == left.tape
                &&& all.failed == left.failed
            }),
        invariant
            tape0 == old(r).tape(),
            limit == old(buf)@.len(),
            buf@.len() == limit,
            read <= limit,
            forall|i: int| read <= i < limit ==> #[trigger] buf@[i] == old(buf)@[i],
        ensures
            pull(tape0, limit).bytes == buf@.take(read as int),
            pull(tape0, limit).tape == r.tape(),
            pull(tape0, limit).failed is None,
        decreases r.tape().len(), limit - read,
    {
        let ghost tape1 = r.tape();
        let ghost buf1 = buf@;
        let (_, tail) = buf.split_at_mut(read);
        let outcome = r.read(tail);
        assert(buf@.take(read as int) =~= buf1.take(read as int));
        match outcome {
            Ok(n) => {
                if n == 0 {
                    break;
                }
                proof {
                    lemma_pull_run(tape1, (limit - read) as nat, n as nat);
                    assert(buf@.take(read + n) =~= buf1.take(read as int) + Seq::new(
                        n as nat,
                        |i: int| tape1[i]->Byte_0,
                    ));
                    assert(pull(tape0, limit).bytes =~= buf@.take(read + n) + pull(
                        r.tape(),
                        (limit - read - n) as nat,
                    ).bytes);
                }
                read = read + n;
            },
            Err(ReadError::Interrupted) => {},
            Err(ReadError::UnexpectedEof) => {
                break;
            },
            Err(ReadError::Other(why)) => {
                proof {
                    assert(pull(tape0, limit).bytes =~= buf@.take(read as int));
                    assert(buf@ =~= buf@.take(read as int) + old(buf)@.skip(read as int));
                }
                return Err(Error::Read(why));
            },
        }
    }
    assert(buf@ =~= buf@.take(read as int) + old(buf)@.skip(read as int));
    Ok(read)
}

/// A run of bytes at the front of the tape is read as it stands.
proof fn lemma_pull_run(tape: Seq<Signal>, limit: nat, n: nat)
    requires
        n <= limit,
        n <= tape.len(),
        forall|i: int| 0 <= i < n ==> #[trigger] tape[i] is Byte,
    ensures
        ({
            let run = Seq::new(n, |i: int| tape[i]->Byte_0);
            let all = pull(tape, limit);
            let left = pull(tape.skip(n as int), (limit - n) as nat);
            &&& all.bytes == run + left.bytes
            &&& all.tape == left.tape
            &&& all.failed == left.failed
        }),
    decreases n,
{
    if n == 0 {
        assert(tape.skip(0) =~= tape);
    } else {
        let rest = tape.skip(1);
        assert(tape[0] is Byte);
        assert forall|i: int| 0 <= i < n - 1 implies #[trigger] rest[i] is Byte by {
            assert(tape[i + 1] is Byte);
        }
        lemma_pull_run(rest, (limit - 1) as nat, (n - 1) as nat);
        assert(rest.skip(n - 1) =~= tape.skip(n as int));
        assert(Seq::new(n, |i: int| tape[i]->Byte_0) =~= seq![tape[0]->Byte_0] + Seq::new(
            (n - 1) as nat,
            |i: int| rest[i]->Byte_0,
        ));
    }
}

/// Reads a source in chunks, and hands out what is in the current chunk.
pub struct Reader<R> {
    inner: R,
    /// The stray bytes that will stand in front of the next chunk.
    prefix: Stray,
    buf: Buf,
    start: usize,
    end: usize,
    chunk_size: usize,
    state: ReaderState,
    last_len: usize,
}

impl<R: Source> View for Reader<R> {
    type V = ReaderView;

    closed spec fn view(&self) -> ReaderView {
        ReaderView {
            rest: self.buf@.subrange(self.start as int, self.end as int),
            prefix: stray_bytes(self.prefix),
            tape: self.inner.tape(),
            chunk: self.chunk_size as nat,
            state: self.state,
            last_len: self.last_len,
        }
    }
}

impl<R: Source> Reader<R> {
    /// The bounds of what is left lie within the buffer, and the buffers to come can
    /// be allocated.
    pub closed spec fn bounds(&self) -> bool {
        &&& self.start <= self.end <= self.buf@.len()
        &&& self.chunk_size + PADDING <= isize::MAX
    }

    /// The reader is in order.
    pub open spec fn inv(&self) -> bool {
        self.bounds() && self@.ok()
    }

    /// A reader that takes `r` in chunks of `chunk_size` bytes.
    pub fn new(r: R, chunk_size: usize) -> (res: Self)
        requires
            chunk_size + PADDING <= isize::MAX,
            chunk_size >= 4 || flows(Seq::empty(), chunk_size as nat, r.tape()),
        ensures
            res.inv(),
            res@ == ReaderView::initial(r.tape(), chunk_size as nat),
    {
        let res = Reader {
            inner: r,
            prefix: Stray::new(),
            buf: UniqueBuf::new(0).into_buf(),
            start: 0,
            end: 0,
            chunk_size,
            state: ReaderState::OK,
            last_len: 0,
        };
        proof {
            assert(res@.rest =~= Seq::<u8>::empty());
            if chunk_size >= 4 {
                lemma_flows(res@.prefix, chunk_size as nat, res@.tape);
            }
        }
        res
    }

    /// The number of bytes that are left in the buffer.
    pub fn remaining(&self) -> (r: usize)
        requires
            self.inv(),
        ensures
            r == self@.rest.len(),
    {
        self.end - self.start
    }

    /// The byte at position `i` of what is left in the buffer.
    pub fn byte(&self, i: usize) -> (r: u8)
        requires
            self.inv(),
            i < self@.rest.len(),
        ensures
            r == self@.rest[i as int],
    {
        self.buf.as_bytes()[self.start + i]
    }

    /// What is left in the buffer, from position `from` up to, but without, `to`.
    pub fn slice_to_str(&self, from: usize, to: usize) -> (r: Str)
        requires
            self.inv(),
            from <= to <= self@.rest.len(),
        ensures
            r@ == self@.rest.subrange(from as int, to as int),
    {
        let r = self.buf.slice_to_str(self.start + from, self.start + to);
        assert(r@ =~= self@.rest.subrange(from as int, to as int));
        r
    }

    /// Says whether the input has come to its end, and everything was taken.
    pub fn is_eof(&self) -> (r: bool)
        requires
            self.inv(),
        ensures
            r == self@.at_eof(),
    {
        self.end == self.start && self.state == ReaderState::EOF
    }

    /// Gives up what is left in the buffer, and takes the input for ended.
    pub fn force_eof(&mut self)
        requires
            old(self).inv(),
        ensures
            final(self).inv(),
            final(self)@ == (ReaderView {
                rest: Seq::empty(),
                state: ReaderState::EOF,
                ..old(self)@
            }),
    {
        self.start = self.end;
        self.state = ReaderState::EOF;
        assert(self@.rest =~= Seq::<u8>::empty());
    }

    /// Sets the state.
    pub fn set_state(&mut self, state: ReaderState)
        requires
            old(self).inv(),
        ensures
            final(self).inv(),
            final(self)@ == (ReaderView { state, ..old(self)@ }),
    {
        self.state = state;
    }

    /// Notes the number of bytes that a read has taken.
    pub fn set_last_len(&mut self, last_len: usize)
        requires
            old(self).inv(),
        ensures
            final(self).inv(),
            final(self)@ == (ReaderView { last_len, ..old(self)@ }),
    {
        self.last_len = last_len;
    }

    /// What the last read came to, as `getline` reports it: 1 for a line, 0 for the end
    /// of the input, -1 for an error. An end or an error is reported only once a read
    /// has taken nothing.
    pub fn read_state(&self) -> (r: i64)
        ensures
            r == self@.read_code(),
    {
        match self.state {
            ReaderState::OK => 1,
            ReaderState::ERROR => {
                if self.last_len == 0 {
                    -1
                } else {
                    1
                }
            },
            ReaderState::EOF => {
                if self.last_len == 0 {
                    0
                } else {
                    1
                }
            },
        }
    }

    /// Passes over `n` bytes, and fills the buffer anew where they use it up.
    pub fn advance(&mut self, n: usize) -> (r: Result<(), Error>)
        requires
            old(self).inv(),
        ensures
            final(self).inv(),
            (final(self)@, r) == old(self)@.advance(n as nat),
        decreases
            old(self)@.tape.len(),
            (if old(self)@.at_eof() {
                0nat
            } else {
                1nat
            }),
    {
        let len: usize = self.end - self.start;
        if len > n {
            self.start = self.start + n;
            assert(self@.rest =~= old(self)@.rest.skip(n as int));
            return Ok(());
        }
        if self.is_eof() {
            return Ok(());
        }
        proof {
            lemma_fill(self@.prefix, self@.chunk, self@.tape);
            lemma_flows_on(self@.prefix, self@.chunk, self@.tape);
        }
        let residue: usize = n - len;
        let (next_buf, next_len) = match self.get_next_buf() {
            Ok(next) => next,
            Err(e) => {
                return Err(e);
            },
        };
        self.buf = next_buf;
        self.end = next_len;
        self.start = 0;
        assert(self@ =~= old(self)@.refilled(
            fill(old(self)@.prefix, old(self)@.chunk, old(self)@.tape),
        ));
        self.advance(residue)
    }

    /// Reads the next chunk. On success the new buffer comes with the number of bytes
    /// in it that are whole characters. The buffer has room for a whole chunk, and for the
    /// padding behind it; all of it that was not read is zero.
    pub fn get_next_buf(&mut self) -> (r: Result<(Buf, usize), Error>)
        requires
            old(self).inv(),
        ensures
            final(self).inv(),
            ({
                let f = fill(old(self)@.prefix, old(self)@.chunk, old(self)@.tape);
                match r {
                    Err(e) => {
                        &&& f.outcome == Err::<(Seq<u8>, bool), Error>(e)
                        &&& final(self)@ == (ReaderView {
                            prefix: f.prefix,
                            tape: f.tape,
                            ..old(self)@
                        })
                    },
                    Ok((buf, len)) => {
                        &&& f.outcome is Ok
                        &&& len <= buf@.len()
                        &&& buf@.len() == old(self)@.chunk + PADDING
                        &&& ({
                            let prefix = old(self)@.prefix;
                            let p = pull(
                                old(self)@.tape,
                                (old(self)@.chunk - prefix.len()) as nat,
                            );
                            &&& prefix.len() + p.bytes.len() <= old(self)@.chunk
                            &&& buf@ == prefix + p.bytes + Seq::new(
                                (buf@.len() - prefix.len() - p.bytes.len()) as nat,
                                |i: int| 0u8,
                            )
                        })
                        &&& f.outcome->Ok_0.0 == buf@.take(len as int)
                        &&& final(self)@ == (ReaderView {
                            rest: old(self)@.rest,
                            ..old(self)@.refilled(f)
                        })
                    },
                }
            }),
    {
        let ghost v0 = self@;
        let ghost p = pull(v0.tape, (v0.chunk - v0.prefix.len()) as nat);
        proof {
            lemma_pull(v0.tape, (v0.chunk - v0.prefix.len()) as nat);
            lemma_fill(v0.prefix, v0.chunk, v0.tape);
            lemma_flows_on(v0.prefix, v0.chunk, v0.tape);
        }
        let chunk_size: usize = self.chunk_size;
        let mut data = UniqueBuf::new(chunk_size + PADDING);
        let plen: usize = self.prefix.len();
        let bytes = data.as_mut_bytes();
        let stray = self.prefix.as_slice();
        let mut i: usize = 0;
        while i < plen
            invariant
                i <= plen == stray@.len(),
                plen < chunk_size <= bytes@.len(),
                bytes@.len() == chunk_size + PADDING,
                bytes@.take(i as int) == stray@.take(i as int),
                forall|k: int| i <= k < bytes@.len() ==> #[trigger] bytes@[k] == 0,
            decreases plen - i,
        {
            bytes[i] = stray[i];
            i = i + 1;
            assert(bytes@.take(i as int) =~= stray@.take(i as int));
        }
        assert(bytes@.take(plen as int) =~= v0.prefix);
        let (chunk, _) = bytes.split_at_mut(chunk_size);
        let (_, tail) = chunk.split_at_mut(plen);
        self.prefix.clear();
        // Try to fill up the rest of the chunk with new bytes.
        let bytes_read: usize = match read_to_slice(&mut self.inner, tail) {
            Ok(n) => plen + n,
            Err(e) => {
                return Err(e);
            },
        };
        let data = data.into_buf();
        let bytes = vstd::slice::slice_subrange(data.as_bytes(), 0, bytes_read);
        assert(bytes@ =~= v0.prefix + p.bytes);
        proof {
            lemma_clip_point(bytes@);
        }
        let done: bool = bytes_read != chunk_size;
        let opt: Option<usize> = if done {
            if is_utf8(bytes) {
                Some(bytes.len())
            } else {
                None
            }
        } else {
            validate_utf8_clipped(bytes)
        };
        let ulen: usize = match opt {
            Some(u) => u,
            None => {
                let (at, len) = utf8_fault(bytes);
                return Err(Error::InvalidUtf8(at, len));
            },
        };
        if !done && ulen != bytes_read {
            // A character was clipped at the end of the buffer. Keep it for the next one.
            let clipped = vstd::slice::slice_subrange(bytes, ulen, bytes_read);
            assert(clipped@ =~= bytes@.skip(ulen as int));
            proof {
                lemma_clipped_len(clipped@);
            }
            self.prefix.extend_from_slice(clipped);
        }
        if done {
            self.state = ReaderState::EOF;
        }
        proof {
            let f = fill(v0.prefix, v0.chunk, v0.tape);
            assert(f.outcome->Ok_0.0 =~= data@.take(ulen as int));
            assert(self@.prefix =~= f.prefix);
            assert(self@.rest =~= v0.rest);
            assert(data@ =~= v0.prefix + p.bytes + Seq::new(
                (data@.len() - v0.prefix.len() - p.bytes.len()) as nat,
                |i: int| 0u8,
            ));
        }
        Ok((data, ulen))
    }
}

} // verus!
