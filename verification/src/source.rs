//! Where the bytes come from.

use vstd::prelude::*;

verus! {

/// One thing that a source can deliver.
#[derive(Debug)]
pub enum Signal {
    /// A byte of the input.
    Byte(u8),
    /// The end of what there is to read for now.
    End,
    /// The read was interrupted, and can be tried again.
    Interrupted,
    /// The input ended before the source expected it to.
    UnexpectedEof,
    /// The read failed, for the reason given.
    Failed(String),
}

/// Why a read did not deliver.
#[derive(Debug)]
pub enum ReadError {
    /// The read was interrupted, and can be tried again.
    Interrupted,
    /// The input ended before the source expected it to.
    UnexpectedEof,
    /// The read failed, for the reason given.
    Other(String),
}

/// What a read does to a source that had `before` to deliver, and leaves it with
/// `after`: it takes a run of bytes from the front and writes them to the front of
/// `buf`, or it takes one other signal and reports it. A source that has nothing
/// more to deliver reports its end, as often as it is read.
pub open spec fn delivers(
    before: Seq<Signal>,
    after: Seq<Signal>,
    buf: Seq<u8>,
    r: Result<usize, ReadError>,
) -> bool {
    match r {
        Ok(n) => if n == 0 {
            ||| before.len() == 0 && after == before
            ||| before.len() > 0 && before[0] is End && after == before.skip(1)
        } else {
            &&& n <= buf.len()
            &&& n <= before.len()
            &&& forall|i: int| 0 <= i < n ==> #[trigger] before[i] == Signal::Byte(buf[i])
            &&& after == before.skip(n as int)
        },
        Err(ReadError::Interrupted) => {
            before.len() > 0 && before[0] is Interrupted && after == before.skip(1)
        },
        Err(ReadError::UnexpectedEof) => {
            before.len() > 0 && before[0] is UnexpectedEof && after == before.skip(1)
        },
        Err(ReadError::Other(why)) => {
            before.len() > 0 && before[0] == Signal::Failed(why) && after == before.skip(1)
        },
    }
}

/// A source of bytes.
pub trait Source {
    /// All that the source has yet to deliver, in order. A source that leaves this as it
    /// is lies outside the proofs: the tape would be one and the same before and after
    /// every read, which no source that delivers something can live up to.
    open spec fn tape(&self) -> Seq<Signal> {
        arbitrary()
    }

    /// Reads some bytes into the front of `buf`, and leaves what is behind them as it was.
    /// `Ok(0)` reports the end of the input.
    fn read(&mut self, buf: &mut [u8]) -> (r: Result<usize, ReadError>)
        requires
            old(buf)@.len() > 0,
        ensures
            final(buf)@.len() == old(buf)@.len(),
            delivers(old(self).tape(), final(self).tape(), final(buf)@, r),
            ({
                let n = match r {
                    Ok(n) => n as int,
                    Err(_) => 0,
                };
                forall|i: int| n <= i < old(buf)@.len() ==> #[trigger] final(buf)@[i] == old(
                    buf,
                )@[i]
            }),
    ;
}

/// A source that is held in memory.
pub struct Feed {
    /// What is left, the next signal last.
    queue: Vec<Signal>,
}

impl Feed {
    /// The signals that are left.
    pub closed spec fn signals(&self) -> Seq<Signal> {
        self.queue@.reverse()
    }

    /// A source that delivers `signals`.
    pub fn new(signals: Vec<Signal>) -> (r: Feed)
        ensures
            r.tape() == signals@,
    {
        let mut left = signals;
        let mut queue: Vec<Signal> = Vec::new();
        while left.len() > 0
            invariant
                left@ + queue@.reverse() == signals@,
            decreases left@.len(),
        {
            let ghost left0 = left@;
            let ghost queue0 = queue@;
            if let Some(signal) = left.pop() {
                queue.push(signal);
                assert(queue@.reverse() =~= seq![left0.last()] + queue0.reverse());
                assert(left@ + queue@.reverse() =~= left0 + queue0.reverse());
            }
        }
        assert(left@ + queue@.reverse() =~= queue@.reverse());
        Feed { queue }
    }

    /// A source that delivers `bytes`.
    pub fn from_bytes(bytes: &[u8]) -> (r: Feed)
        ensures
            r.tape() == bytes@.map_values(|b: u8| Signal::Byte(b)),
    {
        let mut queue: Vec<Signal> = Vec::new();
        let mut i: usize = bytes.len();
        while i > 0
            invariant
                i <= bytes@.len(),
                queue@.reverse() == bytes@.skip(i as int).map_values(|b: u8| Signal::Byte(b)),
            decreases i,
        {
            i = i - 1;
            let ghost queue0 = queue@;
            queue.push(Signal::Byte(bytes[i]));
            assert(queue@.reverse() =~= seq![queue@.last()] + queue0.reverse());
            assert(queue@.reverse() =~= bytes@.skip(i as int).map_values(
                |b: u8| Signal::Byte(b),
            ));
        }
        assert(bytes@.skip(0) =~= bytes@);
        Feed { queue }
    }
}

impl Source for Feed {
    open spec fn tape(&self) -> Seq<Signal> {
        self.signals()
    }

    fn read(&mut self, buf: &mut [u8]) -> (r: Result<usize, ReadError>) {
        let ghost tape0 = self.tape();
        let first = match self.queue.pop() {
            None => {
                return Ok(0);
            },
            Some(first) => first,
        };
        assert(self.queue@.reverse() =~= tape0.skip(1));
        match first {
            Signal::End => Ok(0),
            Signal::Interrupted => Err(ReadError::Interrupted),
            Signal::UnexpectedEof => Err(ReadError::UnexpectedEof),
            Signal::Failed(why) => Err(ReadError::Other(why)),
            Signal::Byte(b) => {
                buf[0] = b;
                let mut n: usize = 1;
                while n < buf.len() && self.queue.len() > 0
                    invariant
                        tape0 == old(self).tape(),
                        1 <= n <= buf@.len() == old(buf)@.len(),
                        n + self.queue@.len() == tape0.len(),
                        self.queue@.reverse() == tape0.skip(n as int),
                        forall|i: int| 0 <= i < n ==> #[trigger] tape0[i] == Signal::Byte(buf@[i]),
                        forall|i: int| n <= i < buf@.len() ==> #[trigger] buf@[i] == old(buf)@[i],
                    decreases buf@.len() - n,
                {
                    let ghost queue1 = self.queue@;
                    let last: usize = self.queue.len() - 1;
                    let next: u8 = match &self.queue[last] {
                        Signal::Byte(c) => *c,
                        _ => {
                            return Ok(n);
                        },
                    };
                    assert(tape0.skip(n as int)[0] == queue1[last as int]);
                    self.queue.pop();
                    buf[n] = next;
                    assert(self.queue@.reverse() =~= queue1.reverse().skip(1));
                    assert(tape0.skip(n as int).skip(1) =~= tape0.skip(n + 1));
                    n = n + 1;
                }
                Ok(n)
            },
        }
    }
}

} // verus!
