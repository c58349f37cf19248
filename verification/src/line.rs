//! Lines, and the access to their fields.

use crate::columns::{last_column, Columns};
use crate::error::{Error, Int};
use crate::field_set::FieldSet;
use crate::lazy_vec::{clamped, inserted, joined, transformed, LazyVec};
use crate::regex_cache::{RegexCache, RegexEngine, SplitCall};
use crate::str_impl::Str;
use vstd::prelude::*;

verus! {

/// A line that was read. Field 0 is the line as a whole.
pub trait Line: Default {
    /// The line was split, and has fields that can be joined.
    open spec fn can_join(&self) -> bool {
        true
    }

    /// Joins the fields from `start` to `end`, both counted from 1, of a line with `nf`
    /// fields: each is put through `trans`, and `sep` comes between each two.
    fn join_cols<F: FnMut(Str) -> Str>(
        &mut self,
        start: Int,
        end: Int,
        sep: &Str,
        nf: usize,
        trans: F,
    ) -> Result<Str, Error>
        requires
            old(self).can_join(),
            forall|s: Str| call_requires(trans, (s,)),
    ;

    /// The number of fields.
    fn nf<E: RegexEngine>(&mut self, pat: &Str, rc: &mut RegexCache<E>) -> Result<usize, Error>;

    /// Field `col`.
    fn get_col<E: RegexEngine>(
        &mut self,
        col: Int,
        pat: &Str,
        ofs: &Str,
        rc: &mut RegexCache<E>,
    ) -> Result<Str, Error>;

    /// Assigns `s` to field `col`.
    fn set_col<E: RegexEngine>(
        &mut self,
        col: Int,
        s: &Str,
        pat: &Str,
        rc: &mut RegexCache<E>,
    ) -> Result<(), Error>
        requires
            col <= usize::MAX,
    ;
}

/// The range of fields, counted from 0, that a join of the fields from `start` to `end`
/// (counted from 1) of `nf` covers. An end that lies behind the last field is moved to
/// it, and a start that lies behind the end is moved to the end.
pub open spec fn join_range(start: int, end: int, nf: int) -> (int, int) {
    let hi = if end > nf {
        nf
    } else {
        end
    };
    let lo = if start - 1 > hi {
        hi
    } else {
        start - 1
    };
    (lo, hi)
}

/// Finds the range of fields that a join covers.
pub fn normalize_join_indexes(start: Int, end: Int, nf: usize) -> (r: Result<
    (usize, usize),
    Error,
>)
    ensures
        start <= 0 || end <= 0 ==> r == Err::<(usize, usize), Error>(Error::JoinColumn(start)),
        start > 0 && end > 0 ==> (r matches Ok((lo, hi)) && lo <= hi <= nf && (
            lo as int,
            hi as int,
        ) == join_range(start as int, end as int, nf as int)),
{
    if start <= 0 || end <= 0 {
        return Err(Error::JoinColumn(start));
    }
    let hi: usize = if end as u64 > nf as u64 {
        nf
    } else {
        end as usize
    };
    let lo: usize = if (start - 1) as u64 > hi as u64 {
        hi
    } else {
        (start - 1) as usize
    };
    Ok((lo, hi))
}

/// A line, seen from outside.
#[verifier::ext_equal]
pub struct LineView {
    /// The line as a whole, as it was read or last put together.
    pub line: Seq<u8>,
    /// The fields that were asked for when the line was read.
    pub used: FieldSet,
    /// The fields; none, if the line was not split yet.
    pub fields: Seq<Seq<u8>>,
    /// A field was assigned to since the line was last put together.
    pub diverged: bool,
    /// The fields that were assigned to since then, counted from 1.
    pub assigned: Set<int>,
}

/// The field at `index`, counted from 0; empty if there is none.
pub open spec fn field_at(fields: Seq<Seq<u8>>, index: int) -> Seq<u8> {
    if 0 <= index < fields.len() {
        fields[index]
    } else {
        Seq::empty()
    }
}

/// The fields of a line that was split anew into `pieces`: those that were assigned to
/// stay as they were, and so do those of the pieces that are in `kept`. If the last one
/// that was assigned to lies behind the pieces, there are empty ones in between.
pub open spec fn merged(
    kept: FieldSet,
    assigned: Set<int>,
    fields: Seq<Seq<u8>>,
    pieces: Seq<Seq<u8>>,
) -> Seq<Seq<u8>> {
    let last = last_column(assigned, fields.len());
    Seq::new(
        if pieces.len() >= last {
            pieces.len()
        } else {
            last
        },
        |i: int|
            if assigned.contains(i + 1) || (kept.has(i + 1) && i < pieces.len()) {
                field_at(fields, i)
            } else {
                field_at(pieces, i)
            },
    )
}

impl LineView {
    /// To get at a field, the line must first be split, if it has no fields; and to get
    /// at the line after an assignment, it must be split with all fields, if some were
    /// left out before. This is the set of fields that a split is asked for with.
    pub open spec fn wants(self, col: Int) -> Option<FieldSet> {
        if col < 0 {
            None
        } else if col == 0 {
            if self.diverged && !self.used.is_all() {
                Some(FieldSet::everything())
            } else {
                None
            }
        } else if self.fields.len() == 0 {
            Some(self.used)
        } else {
            None
        }
    }

    /// The fields that were assigned to are fields of the line, and the line has diverged
    /// from its fields exactly if there are any.
    pub open spec fn ok(self) -> bool {
        &&& forall|c: int| #[trigger] self.assigned.contains(c) ==> 1 <= c <= self.fields.len()
        &&& self.diverged <==> self.assigned != Set::<int>::empty()
    }

    /// The line put together from its fields.
    pub open spec fn regenerated(self, ofs: Seq<u8>) -> LineView {
        LineView {
            line: joined(self.fields, ofs),
            diverged: false,
            assigned: Set::empty(),
            ..self
        }
    }

    /// The line after it was split if it had no fields.
    pub open spec fn split_by(self, reply: Result<Seq<Seq<u8>>, Error>) -> LineView {
        match reply {
            Ok(pieces) if self.fields.len() == 0 => LineView { fields: pieces, ..self },
            _ => self,
        }
    }

    /// Reads field `col`. `reply` is what came of the split, if one was asked for.
    pub open spec fn get_col(
        self,
        col: Int,
        ofs: Seq<u8>,
        reply: Result<Seq<Seq<u8>>, Error>,
    ) -> (LineView, Result<Seq<u8>, Error>) {
        if col < 0 {
            (self, Err(Error::NegativeField(col)))
        } else if col == 0 && !self.diverged {
            (self, Ok(self.line))
        } else if col == 0 && self.used.is_all() {
            let next = self.regenerated(ofs);
            (next, Ok(next.line))
        } else if col == 0 {
            let widened = LineView { used: FieldSet::everything(), ..self };
            match reply {
                Err(e) => (widened, Err(e)),
                Ok(pieces) => {
                    let next = LineView {
                        fields: merged(self.used, self.assigned, self.fields, pieces),
                        ..widened
                    }.regenerated(ofs);
                    (next, Ok(next.line))
                },
            }
        } else {
            match reply {
                Err(e) if self.fields.len() == 0 => (self, Err(e)),
                _ => {
                    let next = self.split_by(reply);
                    (next, Ok(field_at(next.fields, col - 1)))
                },
            }
        }
    }

    /// Assigns `s` to field `col`. `reply` is what came of the split, if one was asked
    /// for.
    pub open spec fn set_col(
        self,
        col: Int,
        s: Seq<u8>,
        reply: Result<Seq<Seq<u8>>, Error>,
    ) -> (LineView, Result<(), Error>) {
        if col == 0 {
            (
                LineView {
                    line: s,
                    fields: Seq::empty(),
                    diverged: false,
                    assigned: Set::empty(),
                    ..self
                },
                Ok(()),
            )
        } else if col < 0 {
            (self, Err(Error::NegativeField(col)))
        } else {
            match reply {
                Err(e) if self.fields.len() == 0 => (self, Err(e)),
                _ => {
                    let next = self.split_by(reply);
                    (
                        LineView {
                            fields: inserted(next.fields, col - 1, s),
                            diverged: true,
                            assigned: next.assigned.insert(col as int),
                            ..next
                        },
                        Ok(()),
                    )
                },
            }
        }
    }
}

/// What the engine was asked for between `before` and `after`: nothing, or one split of
/// `line` by `pat` with the fields `wanted`, to which it gave the reply on record.
pub open spec fn asked<E: RegexEngine>(
    before: RegexCache<E>,
    after: RegexCache<E>,
    pat: Seq<u8>,
    line: Seq<u8>,
    wanted: Option<FieldSet>,
) -> bool {
    match wanted {
        None => after.calls() == before.calls() && after.engine() == before.engine(),
        Some(used) => {
            let call = after.calls().last();
            &&& after.calls() == before.calls().push(call)
            &&& call.pat == pat
            &&& call.line == line
            &&& call.used == used
            &&& E::splits(before.engine(), after.engine(), pat, line, used, call.reply)
        },
    }
}

/// What the engine has replied, if it was asked.
pub open spec fn reply(
    after: Seq<SplitCall>,
    wanted: Option<FieldSet>,
) -> Result<Seq<Seq<u8>>, Error> {
    if wanted is Some {
        after.last().reply
    } else {
        Ok(Seq::empty())
    }
}

/// `r` is `s`, up to how the string is held.
pub open spec fn same_str(r: Result<Str, Error>, s: Result<Seq<u8>, Error>) -> bool {
    match r {
        Ok(v) => s == Ok::<Seq<u8>, Error>(v@),
        Err(e) => s == Err::<Seq<u8>, Error>(e),
    }
}

/// The line of the readers in this library; it supports assignment into fields as well
/// as lazy splitting.
pub struct DefaultLine {
    line: Str,
    used_fields: FieldSet,
    fields: LazyVec,
    /// Has someone assigned into `fields` without `line` having been put together anew?
    /// AWK allows
    ///  $1 = "turnip"
    ///  $2 = "rutabaga"
    ///  print $0; # "turnip rutabaga ..."
    ///
    /// After that first line, this is set, so that $0 is put together when $0 is asked
    /// for. This speeds up cases where multiple fields are assigned in a row.
    diverged: bool,
    /// The fields that were assigned to since `line` was last put together.
    assigned: Columns,
}

impl View for DefaultLine {
    type V = LineView;

    closed spec fn view(&self) -> LineView {
        LineView {
            line: self.line@,
            used: self.used_fields,
            fields: self.fields@,
            diverged: self.diverged,
            assigned: self.assigned@,
        }
    }
}

impl Default for DefaultLine {
    /// An empty line.
    fn default() -> (r: DefaultLine)
        ensures
            r@ == (LineView {
                line: Seq::empty(),
                used: FieldSet::everything(),
                fields: Seq::empty(),
                diverged: false,
                assigned: Set::empty(),
            }),
    {
        DefaultLine {
            line: Str::default(),
            used_fields: FieldSet::all(),
            fields: LazyVec::new(),
            diverged: false,
            assigned: Columns::new(),
        }
    }
}

impl DefaultLine {
    /// Splits the line, if it has no fields.
    fn split_if_needed<E: RegexEngine>(&mut self, pat: &Str, rc: &mut RegexCache<E>) -> (r: Result<
        (),
        Error,
    >)
        ensures
            ({
                let wanted = old(self)@.wants(1);
                let reply = reply(final(rc).calls(), wanted);
                &&& asked(*old(rc), *final(rc), pat@, old(self)@.line, wanted)
                &&& final(self)@ == old(self)@.split_by(reply)
                &&& match reply {
                    Ok(_) => r is Ok,
                    Err(e) => r == Err::<(), Error>(e),
                }
            }),
    {
        if self.fields.len() == 0 {
            match rc.split_regex(pat, &self.line, &self.used_fields, &mut self.fields) {
                Ok(_) => {},
                Err(e) => {
                    return Err(e);
                },
            }
            proof {
                let pieces = rc.calls().last().reply->Ok_0;
                assert(old(self)@.fields + pieces =~= pieces);
            }
        }
        Ok(())
    }

    /// The fields that were asked for when the line was read.
    pub fn used_fields(&self) -> (r: FieldSet)
        ensures
            r == self@.used,
    {
        self.used_fields
    }

    /// Sets the fields that are asked for.
    pub(crate) fn set_used_fields(&mut self, used_fields: FieldSet)
        ensures
            final(self)@ == (LineView { used: used_fields, ..old(self)@ }),
    {
        self.used_fields = used_fields;
    }

    /// The fields, for writing.
    pub(crate) fn fields_mut(&mut self) -> (r: &mut LazyVec)
        ensures
            r@ == old(self)@.fields,
            final(self)@ == (LineView { fields: final(r)@, ..old(self)@ }),
    {
        &mut self.fields
    }

    /// Sets the line to one that was read along with its fields.
    pub(crate) fn set_line(&mut self, line: Str)
        ensures
            final(self)@ == (LineView {
                line: line@,
                diverged: false,
                assigned: Set::empty(),
                ..old(self)@
            }),
    {
        self.line = line;
        self.diverged = false;
        self.assigned.clear();
    }

    /// Takes over the fields of a split of the line with all fields, except for those in
    /// `kept` and those that were assigned to, which stay as they are.
    pub fn merge_split(&mut self, kept: FieldSet, pieces: LazyVec)
        ensures
            final(self)@ == (LineView {
                fields: merged(kept, old(self)@.assigned, old(self)@.fields, pieces@),
                ..old(self)@
            }),
    {
        let mut new_vec = pieces;
        let m: usize = new_vec.len();
        let last: usize = self.assigned.last(self.fields.len());
        let n: usize = if m >= last {
            m
        } else {
            last
        };
        let ghost all = merged(kept, self@.assigned, self@.fields, pieces@);
        let mut i: usize = 0;
        while i < n
            invariant
                *self == *old(self),
                m == pieces@.len(),
                i <= n == all.len(),
                m <= n,
                all == merged(kept, self@.assigned, self@.fields, pieces@),
                new_vec@.len() == if i <= m {
                    m
                } else {
                    i
                },
                forall|k: int|
                    0 <= k < new_vec@.len() ==> #[trigger] new_vec@[k] == if k < i {
                        all[k]
                    } else {
                        pieces@[k]
                    },
            decreases n - i,
        {
            if self.assigned.contains(i + 1) || (i < m && kept.get_after(i)) {
                let field = match self.fields.get(i) {
                    Some(field) => field,
                    None => Str::default(),
                };
                new_vec.insert(i, field);
            } else if i >= m {
                new_vec.insert(i, Str::default());
            }
            i = i + 1;
        }
        assert(new_vec@ =~= all);
        self.fields = new_vec;
    }

    /// Puts the line together from its fields, with `ofs` between each two.
    pub fn regenerate(&mut self, ofs: &Str) -> (r: Str)
        ensures
            final(self)@ == old(self)@.regenerated(ofs@),
            r@ == final(self)@.line,
    {
        let res = self.fields.join_all(ofs);
        self.line = res.clone();
        self.diverged = false;
        self.assigned.clear();
        res
    }
}

impl Line for DefaultLine {
    open spec fn can_join(&self) -> bool {
        self@.fields.len() > 0
    }

    fn join_cols<F: FnMut(Str) -> Str>(
        &mut self,
        start: Int,
        end: Int,
        sep: &Str,
        nf: usize,
        trans: F,
    ) -> (r: Result<Str, Error>)
        ensures
            final(self)@ == old(self)@,
            start <= 0 || end <= 0 ==> r == Err::<Str, Error>(Error::JoinColumn(start)),
            start > 0 && end > 0 ==> r is Ok && ({
                let (lo, hi) = join_range(start as int, end as int, nf as int);
                exists|outs: Seq<Seq<u8>>| #[trigger]
                    transformed(trans, clamped(old(self)@.fields, lo, hi), outs) && r->Ok_0@
                        == joined(outs, sep@)
            }),
    {
        match normalize_join_indexes(start, end, nf) {
            Err(e) => Err(e),
            Ok((lo, hi)) => Ok(self.fields.join_by(sep, lo, hi, trans)),
        }
    }

    fn nf<E: RegexEngine>(&mut self, pat: &Str, rc: &mut RegexCache<E>) -> (r: Result<usize, Error>)
        ensures
            ({
                let wanted = old(self)@.wants(1);
                let reply = reply(final(rc).calls(), wanted);
                &&& asked(*old(rc), *final(rc), pat@, old(self)@.line, wanted)
                &&& final(self)@ == old(self)@.split_by(reply)
                &&& match reply {
                    Ok(_) => r matches Ok(n) && n == final(self)@.fields.len(),
                    Err(e) => r == Err::<usize, Error>(e),
                }
            }),
    {
        match self.split_if_needed(pat, rc) {
            Err(e) => Err(e),
            Ok(_) => Ok(self.fields.len()),
        }
    }

    fn get_col<E: RegexEngine>(
        &mut self,
        col: Int,
        pat: &Str,
        ofs: &Str,
        rc: &mut RegexCache<E>,
    ) -> (r: Result<Str, Error>)
        ensures
            ({
                let wanted = old(self)@.wants(col);
                let (next, res) = old(self)@.get_col(
                    col,
                    ofs@,
                    reply(final(rc).calls(), wanted),
                );
                &&& asked(*old(rc), *final(rc), pat@, old(self)@.line, wanted)
                &&& final(self)@ == next
                &&& same_str(r, res)
            }),
    {
        if col < 0 {
            return Err(Error::NegativeField(col));
        }
        if col == 0 && !self.diverged {
            Ok(self.line.clone())
        } else if col == 0 {
            let all = FieldSet::all();
            if self.used_fields != all {
                // Fields were left out, but now a field was assigned to and the line is asked
                // for. So the line is split in its entirety, and the fields that were set
                // already are copied over.
                //
                // This is strictly more work than just splitting all of the fields in
                // the first place; so from here on, all fields count as used.
                let old_set = self.used_fields;
                self.used_fields = all;
                let mut new_vec = LazyVec::new();
                match rc.split_regex(pat, &self.line, &self.used_fields, &mut new_vec) {
                    Ok(_) => {},
                    Err(e) => {
                        return Err(e);
                    },
                }
                proof {
                    let pieces = rc.calls().last().reply->Ok_0;
                    assert(Seq::<Seq<u8>>::empty() + pieces =~= pieces);
                }
                self.merge_split(old_set, new_vec);
            }
            Ok(self.regenerate(ofs))
        } else {
            match self.split_if_needed(pat, rc) {
                Ok(_) => {},
                Err(e) => {
                    return Err(e);
                },
            }
            if (col - 1) as u64 >= self.fields.len() as u64 {
                return Ok(Str::default());
            }
            match self.fields.get((col - 1) as usize) {
                Some(field) => Ok(field),
                None => Ok(Str::default()),
            }
        }
    }

    fn set_col<E: RegexEngine>(
        &mut self,
        col: Int,
        s: &Str,
        pat: &Str,
        rc: &mut RegexCache<E>,
    ) -> (r: Result<(), Error>)
        ensures
            ({
                let wanted = if col > 0 {
                    old(self)@.wants(col)
                } else {
                    None
                };
                let (next, res) = old(self)@.set_col(
                    col,
                    s@,
                    reply(final(rc).calls(), wanted),
                );
                &&& asked(*old(rc), *final(rc), pat@, old(self)@.line, wanted)
                &&& final(self)@ == next
                &&& r == res
            }),
    {
        if col == 0 {
            self.line = s.clone();
            self.fields.clear();
            self.diverged = false;
            self.assigned.clear();
            return Ok(());
        }
        if col < 0 {
            return Err(Error::NegativeField(col));
        }
        match self.split_if_needed(pat, rc) {
            Ok(_) => {},
            Err(e) => {
                return Err(e);
            },
        }
        self.fields.insert(col as usize - 1, s.clone());
        self.diverged = true;
        self.assigned.insert(col as usize);
        Ok(())
    }
}

} // verus!
