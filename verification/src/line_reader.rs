//! Readers that deliver their input line by line.

use crate::error::Error;
use crate::field_set::FieldSet;
use crate::line::Line;
use crate::regex_cache::{RegexCache, RegexEngine, SplitCall};
use crate::str_impl::Str;
use vstd::prelude::*;

verus! {

/// What goes into a read, and what comes out of it.
pub struct ReadStep<L> {
    /// The field separator pattern.
    pub pat: Seq<u8>,
    /// The splits that were asked for before.
    pub calls_before: Seq<SplitCall>,
    /// The splits that were asked for afterwards.
    pub calls_after: Seq<SplitCall>,
    /// The line to read into.
    pub line_before: L,
    /// The line afterwards.
    pub line_after: L,
    /// Whether the read has begun a new file, or why it failed.
    pub result: Result<bool, Error>,
}

/// `line` can be the default line.
pub open spec fn is_default<L: Default>(line: L) -> bool {
    call_ensures(<L as Default>::default, (), line)
}

/// A read into a new line: `step` is the read into the default line that stands
/// behind it.
pub open spec fn fresh<L: Default>(step: ReadStep<L>, r: Result<(bool, L), Error>) -> bool {
    &&& is_default(step.line_before)
    &&& match r {
        Ok((changed, line)) => {
            step.result == Ok::<bool, Error>(changed) && step.line_after == line
        },
        Err(e) => step.result == Err::<bool, Error>(e),
    }
}

/// A reader of lines. What its reads come to is told by the functions that relate the
/// reader before and after; of a reader that leaves them as they are, nothing is known.
pub trait LineReader: Sized {
    type Line: Line;

    /// The reader is in order.
    open spec fn inv(&self) -> bool {
        true
    }

    /// An upper bound for the number of times that the reader can go on to a further
    /// file.
    open spec fn files_left(&self) -> nat {
        arbitrary()
    }

    /// The name of the current file.
    open spec fn name(&self) -> Seq<u8> {
        arbitrary()
    }

    /// What the last read came to: 1 for a line, 0 for the end of the input, -1 for an
    /// error.
    open spec fn state(&self) -> i64 {
        arbitrary()
    }

    /// A read can make `after` of the reader `before`, as `step` says.
    open spec fn reads(before: Self, after: Self, step: ReadStep<Self::Line>) -> bool {
        true
    }

    /// Leaving the current file can make `after` of the reader `before`; `more` says
    /// whether there is a further file.
    open spec fn moves(before: Self, after: Self, more: bool) -> bool {
        true
    }

    /// To be told of the fields that are used can make `after` of the reader `before`.
    open spec fn restricts(before: Self, after: Self, used: FieldSet) -> bool {
        true
    }

    /// The name of the current file.
    fn filename(&self) -> (r: Str)
        requires
            self.inv(),
        ensures
            r@ == self.name(),
    ;

    /// Reads the next line into `line`, and says whether it is the first of a file.
    fn read_line_reuse<E: RegexEngine>(
        &mut self,
        pat: &Str,
        rc: &mut RegexCache<E>,
        line: &mut Self::Line,
    ) -> (r: Result<bool, Error>)
        requires
            old(self).inv(),
        ensures
            final(self).inv(),
            final(self).files_left() <= old(self).files_left(),
            Self::reads(
                *old(self),
                *final(self),
                ReadStep {
                    pat: pat@,
                    calls_before: old(rc).calls(),
                    calls_after: final(rc).calls(),
                    line_before: *old(line),
                    line_after: *final(line),
                    result: r,
                },
            ),
    ;

    /// Reads the next line, and says whether it is the first of a file.
    fn read_line<E: RegexEngine>(&mut self, pat: &Str, rc: &mut RegexCache<E>) -> (r: Result<
        (bool, Self::Line),
        Error,
    >)
        requires
            old(self).inv(),
        ensures
            final(self).inv(),
            final(self).files_left() <= old(self).files_left(),
            exists|step: ReadStep<Self::Line>|
                {
                    &&& #[trigger] Self::reads(*old(self), *final(self), step)
                    &&& step.pat == pat@
                    &&& step.calls_before == old(rc).calls()
                    &&& step.calls_after == final(rc).calls()
                    &&& fresh(step, r)
                },
    {
        let mut line = <Self::Line as Default>::default();
        let ghost empty = line;
        let result = self.read_line_reuse(pat, rc, &mut line);
        let ghost step = ReadStep {
            pat: pat@,
            calls_before: old(rc).calls(),
            calls_after: rc.calls(),
            line_before: empty,
            line_after: line,
            result,
        };
        let r = match result {
            Ok(changed) => Ok((changed, line)),
            Err(e) => Err(e),
        };
        proof {
            assert(*self == *final(self));
            assert(*rc == *final(rc));
            assert(Self::reads(*old(self), *self, step));
            assert(fresh(step, r));
        }
        r
    }

    /// Reads the next line in place of `line`, and says whether it is the first of a
    /// file. If the read fails, the old line stays.
    fn replace_line<E: RegexEngine>(
        &mut self,
        pat: &Str,
        rc: &mut RegexCache<E>,
        line: &mut Self::Line,
    ) -> (r: Result<bool, Error>)
        requires
            old(self).inv(),
        ensures
            final(self).inv(),
            final(self).files_left() <= old(self).files_left(),
            exists|step: ReadStep<Self::Line>|
                {
                    &&& #[trigger] Self::reads(*old(self), *final(self), step)
                    &&& step.pat == pat@
                    &&& step.calls_before == old(rc).calls()
                    &&& step.calls_after == final(rc).calls()
                    &&& is_default(step.line_before)
                    &&& r == step.result
                    &&& *final(line) == if r is Ok {
                        step.line_after
                    } else {
                        *old(line)
                    }
                },
    {
        match self.read_line(pat, rc) {
            Ok((changed, new)) => {
                let mut new = new;
                std::mem::swap(line, &mut new);
                Ok(changed)
            },
            Err(e) => Err(e),
        }
    }

    /// What the last read came to: 1 for a line, 0 for the end of the input, -1 for an
    /// error.
    fn read_state(&self) -> (r: i64)
        requires
            self.inv(),
        ensures
            r == self.state(),
    ;

    /// Leaves the current file. Says whether there is a further one.
    fn next_file(&mut self) -> (r: bool)
        requires
            old(self).inv(),
        ensures
            final(self).inv(),
            final(self).files_left() <= old(self).files_left(),
            r ==> final(self).files_left() < old(self).files_left(),
            Self::moves(*old(self), *final(self), r),
    ;

    /// Takes note of the fields that are used.
    fn set_used_fields(&mut self, used_fields: &FieldSet)
        requires
            old(self).inv(),
        ensures
            final(self).inv(),
            final(self).files_left() <= old(self).files_left(),
            Self::restricts(*old(self), *final(self), *used_fields),
    ;
}

} // verus!
