//! Splitting by a pattern.

use crate::error::Error;
use crate::field_set::FieldSet;
use crate::lazy_vec::LazyVec;
use crate::str_impl::Str;
use vstd::prelude::*;

verus! {

/// The fields that an engine has found, or the error that stands for its failure.
pub open spec fn pieces_of(r: Result<Vec<Str>, String>) -> Result<Seq<Seq<u8>>, Error> {
    match r {
        Ok(items) => Ok(Seq::new(items@.len(), |i: int| items@[i]@)),
        Err(why) => Err(Error::Split(why)),
    }
}

/// What splits strings by patterns. Nothing is taken for granted of how it does so.
pub trait RegexEngine: Sized {
    /// To be asked for a split of `line` by `pat`, of which the fields in `used` are
    /// needed, can make `after` of the engine `before`, and get the answer `reply`. An
    /// engine that leaves this as it is may answer anything.
    open spec fn splits(
        before: Self,
        after: Self,
        pat: Seq<u8>,
        line: Seq<u8>,
        used: FieldSet,
        reply: Result<Seq<Seq<u8>>, Error>,
    ) -> bool {
        true
    }

    /// Splits `s` by `pat` into fields; those that are not in `used` need not be filled
    /// in. An error says why that could not be done.
    fn split(&mut self, pat: &Str, s: &Str, used: &FieldSet) -> (r: Result<Vec<Str>, String>)
        ensures
            Self::splits(*old(self), *final(self), pat@, s@, *used, pieces_of(r)),
    ;
}

/// A split that an engine was asked for, and what it replied.
pub struct SplitCall {
    /// The pattern.
    pub pat: Seq<u8>,
    /// The string to split.
    pub line: Seq<u8>,
    /// The fields that are used.
    pub used: FieldSet,
    /// The fields, or why there are none.
    pub reply: Result<Seq<Seq<u8>>, Error>,
}

/// An engine, together with the record of what it was asked for, and what it replied.
pub struct RegexCache<E> {
    engine: E,
    calls: Ghost<Seq<SplitCall>>,
}

impl<E: RegexEngine> RegexCache<E> {
    /// The splits that were asked for so far.
    pub closed spec fn calls(&self) -> Seq<SplitCall> {
        self.calls@
    }

    /// The engine, in the state that it is in.
    pub closed spec fn engine(&self) -> E {
        self.engine
    }

    /// A cache around `engine`, which was not asked for anything yet.
    pub fn new(engine: E) -> (r: RegexCache<E>)
        ensures
            r.engine() == engine,
            r.calls() == Seq::<SplitCall>::empty(),
    {
        RegexCache { engine, calls: Ghost(Seq::empty()) }
    }

    /// Has the engine split `s` by `pat`, and appends the fields that it finds to `fields`.
    pub fn split_regex(
        &mut self,
        pat: &Str,
        s: &Str,
        used_fields: &FieldSet,
        fields: &mut LazyVec,
    ) -> (r: Result<(), Error>)
        ensures
            ({
                let call = final(self).calls().last();
                &&& final(self).calls() == old(self).calls().push(call)
                &&& call.pat == pat@
                &&& call.line == s@
                &&& call.used == *used_fields
                &&& E::splits(
                    old(self).engine(),
                    final(self).engine(),
                    pat@,
                    s@,
                    *used_fields,
                    call.reply,
                )
                &&& match call.reply {
                    Ok(pieces) => r is Ok && final(fields)@ == old(fields)@ + pieces,
                    Err(e) => r == Err::<(), Error>(e) && final(fields)@ == old(fields)@,
                }
            }),
    {
        let reply = self.engine.split(pat, s, used_fields);
        match reply {
            Ok(items) => {
                let ghost pieces = Seq::new(items@.len(), |i: int| items@[i]@);
                proof {
                    self.calls@ = self.calls@.push(
                        SplitCall { pat: pat@, line: s@, used: *used_fields, reply: Ok(pieces) },
                    );
                }
                let n: usize = items.len();
                let mut i: usize = 0;
                while i < n
                    invariant
                        i <= n == items@.len(),
                        pieces == Seq::new(items@.len(), |i: int| items@[i]@),
                        fields@ == old(fields)@ + pieces.take(i as int),
                    decreases n - i,
                {
                    fields.push(items[i].clone());
                    assert(pieces.take(i + 1) =~= pieces.take(i as int).push(pieces[i as int]));
                    assert(fields@ =~= old(fields)@ + pieces.take(i + 1));
                    i = i + 1;
                }
                assert(pieces.take(n as int) =~= pieces);
                Ok(())
            },
            Err(why) => {
                let e = Error::Split(why);
                proof {
                    self.calls@ = self.calls@.push(
                        SplitCall { pat: pat@, line: s@, used: *used_fields, reply: Err(e) },
                    );
                }
                Err(e)
            },
        }
    }
}

} // verus!
