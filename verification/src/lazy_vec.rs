//! The fields of a line.

use crate::str_impl::Str;
use vstd::prelude::*;

verus! {

/// `items`, one after the other, with `sep` between each two.
pub open spec fn joined(items: Seq<Seq<u8>>, sep: Seq<u8>) -> Seq<u8>
    decreases items.len(),
{
    if items.len() == 0 {
        Seq::empty()
    } else if items.len() == 1 {
        items[0]
    } else {
        joined(items.drop_last(), sep) + sep + items.last()
    }
}

/// `items` with `item` at position `index`; positions that did not exist before and
/// lie in front of it become empty strings.
pub open spec fn inserted(items: Seq<Seq<u8>>, index: int, item: Seq<u8>) -> Seq<Seq<u8>> {
    if index < items.len() {
        items.update(index, item)
    } else {
        (items + Seq::new((index - items.len()) as nat, |i: int| Seq::<u8>::empty())).push(item)
    }
}

/// The items with a position from `start` up to, but without, `end`.
pub open spec fn clamped(items: Seq<Seq<u8>>, start: int, end: int) -> Seq<Seq<u8>> {
    let hi = if end <= items.len() {
        end
    } else {
        items.len() as int
    };
    let lo = if start <= hi {
        start
    } else {
        hi
    };
    items.subrange(lo, hi)
}

/// `trans` can turn a string that reads `from` into one that reads `to`.
pub open spec fn turns_into<F: FnMut(Str) -> Str>(trans: F, from: Seq<u8>, to: Seq<u8>) -> bool {
    exists|x: Str, y: Str| x@ == from && y@ == to && #[trigger] call_ensures(trans, (x,), y)
}

/// `to` is what `trans` makes of each of `from`.
pub open spec fn transformed<F: FnMut(Str) -> Str>(
    trans: F,
    from: Seq<Seq<u8>>,
    to: Seq<Seq<u8>>,
) -> bool {
    &&& to.len() == from.len()
    &&& forall|i: int| 0 <= i < from.len() ==> turns_into(trans, #[trigger] from[i], to[i])
}

/// A vector of strings that grows as far as it is written to.
pub struct LazyVec {
    items: Vec<Str>,
}

impl View for LazyVec {
    type V = Seq<Seq<u8>>;

    closed spec fn view(&self) -> Seq<Seq<u8>> {
        Seq::new(self.items@.len(), |i: int| self.items@[i]@)
    }
}

impl LazyVec {
    /// A vector without items.
    pub fn new() -> (r: LazyVec)
        ensures
            r@ == Seq::<Seq<u8>>::empty(),
    {
        let r = LazyVec { items: Vec::new() };
        assert(r@ =~= Seq::<Seq<u8>>::empty());
        r
    }

    /// The number of items.
    pub fn len(&self) -> (r: usize)
        ensures
            r == self@.len(),
    {
        self.items.len()
    }

    /// Removes all items.
    pub fn clear(&mut self)
        ensures
            final(self)@ == Seq::<Seq<u8>>::empty(),
    {
        self.items.clear();
        assert(self@ =~= Seq::<Seq<u8>>::empty());
    }

    /// Appends an item.
    pub fn push(&mut self, item: Str)
        ensures
            final(self)@ == old(self)@.push(item@),
    {
        self.items.push(item);
        assert(self@ =~= old(self)@.push(item@));
    }

    /// A copy of the item at `index`, if there is one.
    pub fn get(&self, index: usize) -> (r: Option<Str>)
        ensures
            match r {
                Some(s) => index < self@.len() && s@ == self@[index as int],
                None => index >= self@.len(),
            },
    {
        if index < self.items.len() {
            Some(self.items[index].clone())
        } else {
            None
        }
    }

    /// Sets the item at `index`, and fills up with empty strings in front of it.
    pub fn insert(&mut self, index: usize, item: Str)
        ensures
            final(self)@ == inserted(old(self)@, index as int, item@),
    {
        if index < self.items.len() {
            let ghost text = item@;
            self.items[index] = item;
            assert(self@ =~= old(self)@.update(index as int, text));
        } else {
            while self.items.len() < index
                invariant
                    old(self)@.len() <= self@.len() <= index,
                    self@ == old(self)@ + Seq::new(
                        (self@.len() - old(self)@.len()) as nat,
                        |i: int| Seq::<u8>::empty(),
                    ),
                decreases index - self@.len(),
            {
                self.push(Str::default());
                assert(self@ =~= old(self)@ + Seq::new(
                    (self@.len() - old(self)@.len()) as nat,
                    |i: int| Seq::<u8>::empty(),
                ));
            }
            self.push(item);
        }
    }

    /// All items, with `sep` between each two.
    pub fn join_all(&self, sep: &Str) -> (r: Str)
        ensures
            r@ == joined(self@, sep@),
    {
        let mut res = Str::default();
        let n: usize = self.items.len();
        let mut i: usize = 0;
        while i < n
            invariant
                n == self@.len(),
                i <= n,
                res@ == joined(self@.take(i as int), sep@),
            decreases n - i,
        {
            let ghost before = self@.take(i as int);
            let ghost after = self@.take(i + 1);
            if i > 0 {
                res = Str::concat(res, sep.clone());
            }
            res = Str::concat(res, self.items[i].clone());
            proof {
                assert(after.drop_last() =~= before);
                if i == 0 {
                    assert(before =~= Seq::<Seq<u8>>::empty());
                    assert(res@ =~= after[0]);
                } else {
                    assert(res@ =~= joined(before, sep@) + sep@ + after.last());
                }
            }
            i = i + 1;
        }
        assert(self@.take(n as int) =~= self@);
        res
    }

    /// The items from `start` up to, but without, `end`, each put through `trans`, with
    /// `sep` between each two.
    pub fn join_by<F: FnMut(Str) -> Str>(
        &self,
        sep: &Str,
        start: usize,
        end: usize,
        trans: F,
    ) -> (r: Str)
        requires
            start <= end,
            forall|s: Str| call_requires(trans, (s,)),
        ensures
            exists|outs: Seq<Seq<u8>>| #[trigger]
                transformed(trans, clamped(self@, start as int, end as int), outs) && r@ == joined(
                    outs,
                    sep@,
                ),
    {
        let mut trans = trans;
        let ghost f = trans;
        let ghost all = clamped(self@, start as int, end as int);
        let hi: usize = if end <= self.items.len() {
            end
        } else {
            self.items.len()
        };
        let lo: usize = if start <= hi {
            start
        } else {
            hi
        };
        let mut mapped = LazyVec::new();
        let mut i: usize = lo;
        while i < hi
            invariant
                lo <= i <= hi <= self@.len(),
                all == self@.subrange(lo as int, hi as int),
                trans == f,
                forall|s: Str| call_requires(trans, (s,)),
                mapped@.len() == i - lo,
                forall|k: int| 0 <= k < i - lo ==> turns_into(f, #[trigger] all[k], mapped@[k]),
            decreases hi - i,
        {
            let item = self.items[i].clone();
            let ghost x = item;
            let out = trans(item);
            let ghost y = out;
            let ghost before = mapped@;
            mapped.push(out);
            proof {
                assert(x@ == all[i - lo]);
                assert(turns_into(f, x@, y@)) by {
                    assert(call_ensures(f, (x,), y));
                }
                assert forall|k: int| 0 <= k < i + 1 - lo implies turns_into(
                    f,
                    #[trigger] all[k],
                    mapped@[k],
                ) by {
                    if k < i - lo {
                        assert(mapped@[k] == before[k]);
                    }
                }
            }
            i = i + 1;
        }
        assert(transformed(f, all, mapped@));
        mapped.join_all(sep)
    }
}

} // verus!
