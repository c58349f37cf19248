//! Several inputs, read one after the other.

use crate::error::Error;
use crate::field_set::FieldSet;
use crate::line_reader::{is_default, LineReader, ReadStep};
use crate::regex_cache::{RegexCache, RegexEngine};
use crate::str_impl::Str;
use vstd::prelude::*;
use vstd::std_specs::iter::IteratorSpec;

verus! {

/// Reads several inputs, one after the other. The current one stands last.
pub struct ChainedReader<R>(Vec<R>);

/// How often a chain can go on to a further file.
pub open spec fn chain_files<R: LineReader>(readers: Seq<R>) -> nat
    decreases readers.len(),
{
    if readers.len() == 0 {
        0
    } else {
        chain_files(readers.drop_last()) + readers.last().files_left() + 1
    }
}

/// Leaving the current file of the chain `before` leads to the chain `after`: the
/// current reader goes on to its own next file, or, if it has none, it is dropped.
pub open spec fn chain_moves<R: LineReader>(before: Seq<R>, after: Seq<R>, more: bool) -> bool {
    if before.len() == 0 {
        !more && after == before
    } else {
        more && exists|next: R, inner_more: bool| #[trigger]
            R::moves(before.last(), next, inner_more) && after == if inner_more {
                before.update(before.len() - 1, next)
            } else {
                before.drop_last()
            }
    }
}

/// The read `step` consists of `first`, which has found the end of a file, and of `next`
/// in the file after it.
pub open spec fn goes_on<L>(step: ReadStep<L>, first: ReadStep<L>, next: ReadStep<L>) -> bool {
    &&& next.pat == step.pat
    &&& next.calls_before == first.calls_after
    &&& next.line_before == first.line_after
    &&& next.calls_after == step.calls_after
    &&& next.line_after == step.line_after
    &&& step.result == match next.result {
        Ok(_) => Ok::<bool, Error>(true),
        Err(e) => Err(e),
    }
}

/// A read from the chain `before` leads to the chain `after`, as `step` says. The
/// current reader reads. If it turns out to have come to its end, the read goes to the
/// next file, and counts as the first of that file.
pub open spec fn chain_reads<R: LineReader>(
    before: Seq<R>,
    after: Seq<R>,
    step: ReadStep<R::Line>,
) -> bool
    decreases chain_files(before),
{
    if before.len() == 0 {
        &&& after == before
        &&& step.calls_after == step.calls_before
        &&& is_default(step.line_after)
        &&& step.result == Ok::<bool, Error>(false)
    } else {
        exists|cur: R, first: ReadStep<R::Line>|
            {
                &&& #[trigger] R::reads(before.last(), cur, first)
                &&& first.pat == step.pat
                &&& first.calls_before == step.calls_before
                &&& first.line_before == step.line_before
                &&& if first.result is Err || cur.state() != 0 {
                    &&& after == before.update(before.len() - 1, cur)
                    &&& step == first
                } else {
                    exists|moved: Seq<R>, next: ReadStep<R::Line>|
                        {
                            &&& #[trigger] chain_moves(
                                before.update(before.len() - 1, cur),
                                moved,
                                true,
                            )
                            &&& #[trigger] goes_on(step, first, next)
                            &&& chain_files(moved) < chain_files(before)
                            &&& chain_reads(moved, after, next)
                        }
                }
            }
    }
}

/// A change of one reader of a chain changes the number of files accordingly.
proof fn lemma_chain_files<R: LineReader>(readers: Seq<R>, i: int, r: R)
    requires
        0 <= i < readers.len(),
    ensures
        chain_files(readers.update(i, r)) == chain_files(readers) - readers[i].files_left()
            + r.files_left(),
    decreases readers.len(),
{
    let changed = readers.update(i, r);
    if i == readers.len() - 1 {
        assert(changed.drop_last() =~= readers.drop_last());
    } else {
        lemma_chain_files(readers.drop_last(), i, r);
        assert(changed.drop_last() =~= readers.drop_last().update(i, r));
    }
}

impl<R> ChainedReader<R> {
    /// The readers of the chain, the current one last.
    pub closed spec fn readers(&self) -> Seq<R> {
        self.0@
    }

    /// Reads the inputs `rs` in turn.
    pub fn new(rs: impl Iterator<Item = R>) -> (r: ChainedReader<R>)
        requires
            rs.obeys_prophetic_iter_laws(),
            rs.decrease() is Some,
        ensures
            r.readers() == rs.remaining().reverse(),
    {
        let mut rs = rs;
        let mut v: Vec<R> = Vec::new();
        let ghost rs0 = rs;
        assert(v@ + rs.remaining() =~= rs.remaining());
        loop
            invariant_except_break
                rs.obeys_prophetic_iter_laws(),
                rs.decrease() is Some,
                v@ + rs.remaining() == rs0.remaining(),
            ensures
                v@ == rs0.remaining(),
            decreases rs.decrease()->0,
        {
            match rs.next() {
                Some(r) => {
                    v.push(r);
                    assert(v@ + rs.remaining() =~= rs0.remaining());
                },
                None => {
                    assert(v@ + rs.remaining() =~= v@);
                    break;
                },
            }
        }
        let mut reversed: Vec<R> = Vec::new();
        while v.len() > 0
            invariant
                v@ + reversed@.reverse() == rs0.remaining(),
            decreases v@.len(),
        {
            let ghost v0 = v@;
            let ghost reversed0 = reversed@;
            if let Some(r) = v.pop() {
                reversed.push(r);
                assert(reversed@.reverse() =~= seq![v0.last()] + reversed0.reverse());
                assert(v@ + reversed@.reverse() =~= v0 + reversed0.reverse());
            }
        }
        assert(v@ + reversed@.reverse() =~= reversed@.reverse());
        assert(reversed@ =~= reversed@.reverse().reverse());
        ChainedReader(reversed)
    }
}

impl<R: LineReader> LineReader for ChainedReader<R> {
    type Line = R::Line;

    open spec fn inv(&self) -> bool {
        forall|i: int| 0 <= i < self.readers().len() ==> (#[trigger] self.readers()[i]).inv()
    }

    open spec fn files_left(&self) -> nat {
        chain_files(self.readers())
    }

    open spec fn name(&self) -> Seq<u8> {
        if self.readers().len() == 0 {
            Seq::empty()
        } else {
            self.readers().last().name()
        }
    }

    open spec fn state(&self) -> i64 {
        if self.readers().len() == 0 {
            0
        } else {
            self.readers().last().state()
        }
    }

    open spec fn reads(before: Self, after: Self, step: ReadStep<R::Line>) -> bool {
        chain_reads(before.readers(), after.readers(), step)
    }

    open spec fn moves(before: Self, after: Self, more: bool) -> bool {
        chain_moves(before.readers(), after.readers(), more)
    }

    open spec fn restricts(before: Self, after: Self, used: FieldSet) -> bool {
        &&& after.readers().len() == before.readers().len()
        &&& forall|i: int|
            0 <= i < before.readers().len() ==> R::restricts(
                #[trigger] before.readers()[i],
                after.readers()[i],
                used,
            )
    }

    fn filename(&self) -> (r: Str) {
        let n: usize = self.0.len();
        if n == 0 {
            Str::default()
        } else {
            assert(self.readers()[n - 1].inv());
            self.0[n - 1].filename()
        }
    }

    fn read_line_reuse<E: RegexEngine>(
        &mut self,
        pat: &Str,
        rc: &mut RegexCache<E>,
        line: &mut R::Line,
    ) -> (r: Result<bool, Error>)
        decreases chain_files(old(self).readers()),
    {
        let n: usize = self.0.len();
        if n == 0 {
            *line = Default::default();
            return Ok(false);
        }
        let ghost before = self.readers();
        assert(before[n - 1].inv());
        let cur = &mut self.0[n - 1];
        let result = cur.read_line_reuse(pat, rc, line);
        let at_end: bool = cur.read_state() == 0;
        let ghost cur1 = self.0@[n - 1];
        let ghost first = ReadStep {
            pat: pat@,
            calls_before: old(rc).calls(),
            calls_after: rc.calls(),
            line_before: *old(line),
            line_after: *line,
            result,
        };
        proof {
            lemma_chain_files(before, n - 1, cur1);
            assert(self.0@ =~= before.update(n - 1, cur1));
            assert(R::reads(before.last(), cur1, first));
        }
        let changed: bool = match result {
            Ok(changed) => changed,
            Err(e) => {
                return Err(e);
            },
        };
        if at_end && self.next_file() {
            let ghost moved = self.0@;
            let ghost calls1 = rc.calls();
            let ghost line1 = *line;
            let again = self.read_line_reuse(pat, rc, line);
            let ghost next = ReadStep {
                pat: pat@,
                calls_before: calls1,
                calls_after: rc.calls(),
                line_before: line1,
                line_after: *line,
                result: again,
            };
            let r = match again {
                Ok(_) => Ok(true),
                Err(e) => Err(e),
            };
            proof {
                assert(*self == *final(self));
                assert(*rc == *final(rc));
                assert(*line == *final(line));
                assert(chain_reads(moved, self.readers(), next));
                assert(chain_moves(before.update(n - 1, cur1), moved, true));
                let step = ReadStep {
                    pat: pat@,
                    calls_before: old(rc).calls(),
                    calls_after: rc.calls(),
                    line_before: *old(line),
                    line_after: *line,
                    result: r,
                };
                assert(goes_on(step, first, next));
                assert(Self::reads(*old(self), *self, step));
            }
            r
        } else {
            proof {
                assert(*self == *final(self));
                assert(*rc == *final(rc));
                assert(*line == *final(line));
                assert(Self::reads(*old(self), *self, first));
            }
            Ok(changed)
        }
    }

    fn read_state(&self) -> (r: i64) {
        let n: usize = self.0.len();
        if n == 0 {
            0
        } else {
            assert(self.readers()[n - 1].inv());
            self.0[n - 1].read_state()
        }
    }

    fn next_file(&mut self) -> (r: bool) {
        let n: usize = self.0.len();
        if n == 0 {
            assert(*self == *final(self));
            assert(Self::moves(*old(self), *self, false));
            return false;
        }
        let ghost before = self.readers();
        assert(before[n - 1].inv());
        let more: bool = self.0[n - 1].next_file();
        let ghost next = self.0@[n - 1];
        proof {
            lemma_chain_files(before, n - 1, next);
            assert(self.readers() =~= before.update(n - 1, next));
            assert(R::moves(before.last(), next, more));
        }
        if !more {
            self.0.pop();
            assert(self.readers() =~= before.drop_last());
        }
        proof {
            assert(*self == *final(self));
            assert forall|k: int| 0 <= k < self.readers().len() implies (
            #[trigger] self.readers()[k]).inv() by {
                if k < n - 1 {
                    assert(self.readers()[k] == before[k]);
                }
            }
        }
        true
    }

    fn set_used_fields(&mut self, used_fields: &FieldSet) {
        let n: usize = self.0.len();
        let ghost before = self.readers();
        let mut i: usize = 0;
        while i < n
            invariant
                before == old(self).readers(),
                old(self).inv(),
                i <= n == self.0@.len() == before.len(),
                self.inv(),
                chain_files(self.0@) <= chain_files(before),
                forall|k: int| i <= k < n ==> #[trigger] self.0@[k] == before[k],
                forall|k: int|
                    0 <= k < i ==> R::restricts(#[trigger] before[k], self.0@[k], *used_fields),
            decreases n - i,
        {
            let ghost here = self.readers();
            assert(here[i as int].inv());
            self.0[i].set_used_fields(used_fields);
            proof {
                lemma_chain_files(here, i as int, self.0@[i as int]);
                assert(self.readers() =~= here.update(i as int, self.0@[i as int]));
                assert forall|k: int| 0 <= k < n implies (#[trigger] self.readers()[k]).inv() by {
                    if k != i {
                        assert(self.readers()[k] == here[k]);
                    }
                }
            }
            i = i + 1;
        }
    }
}

} // verus!
