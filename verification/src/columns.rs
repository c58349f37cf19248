//! The columns of a line that were assigned to.

use vstd::prelude::*;

verus! {

/// The last of the columns in `columns` that is not behind column `n`; 0 if there is none.
pub open spec fn last_column(columns: Set<int>, n: nat) -> nat
    decreases n,
{
    if n == 0 || columns.contains(n as int) {
        n
    } else {
        last_column(columns, (n - 1) as nat)
    }
}

/// Which columns `last_column` stands for.
pub proof fn lemma_last_column(columns: Set<int>, n: nat)
    ensures
        last_column(columns, n) <= n,
        last_column(columns, n) > 0 ==> columns.contains(last_column(columns, n) as int),
        forall|c: int| last_column(columns, n) < c <= n ==> !#[trigger] columns.contains(c),
    decreases n,
{
    if n > 0 && !columns.contains(n as int) {
        lemma_last_column(columns, (n - 1) as nat);
    }
}

/// A set of columns, counted from 1.
pub struct Columns {
    /// Whether the set holds column `i + 1`.
    flags: Vec<bool>,
}

impl View for Columns {
    type V = Set<int>;

    closed spec fn view(&self) -> Set<int> {
        Set::new(|c: int| 1 <= c <= self.flags@.len() && self.flags@[c - 1])
    }
}

impl Columns {
    /// The set without columns.
    pub fn new() -> (r: Columns)
        ensures
            r@ == Set::<int>::empty(),
    {
        let r = Columns { flags: Vec::new() };
        assert(r@ =~= Set::<int>::empty());
        r
    }

    /// Takes all columns out.
    pub fn clear(&mut self)
        ensures
            final(self)@ == Set::<int>::empty(),
    {
        self.flags.clear();
        assert(self@ =~= Set::<int>::empty());
    }

    /// Says whether the set holds column `col`.
    pub fn contains(&self, col: usize) -> (r: bool)
        ensures
            r == self@.contains(col as int),
    {
        col > 0 && col <= self.flags.len() && self.flags[col - 1]
    }

    /// Puts column `col` in.
    pub fn insert(&mut self, col: usize)
        requires
            col > 0,
        ensures
            final(self)@ == old(self)@.insert(col as int),
    {
        while self.flags.len() < col
            invariant
                self@ == old(self)@,
            decreases col - self.flags@.len(),
        {
            let ghost before = self.flags@;
            self.flags.push(false);
            assert(forall|i: int| 0 <= i < before.len() ==> self.flags@[i] == before[i]);
            assert(self@ =~= old(self)@);
        }
        let ghost before = self.flags@;
        self.flags[col - 1] = true;
        assert(forall|i: int|
            0 <= i < before.len() && i != col - 1 ==> self.flags@[i] == before[i]);
        assert(self@ =~= old(self)@.insert(col as int));
    }

    /// The last column of the set that is not behind column `n`; 0 if there is none.
    pub fn last(&self, n: usize) -> (r: usize)
        ensures
            r == last_column(self@, n as nat),
    {
        let mut i: usize = n;
        while i > 0 && !self.contains(i)
            invariant
                i <= n,
                last_column(self@, i as nat) == last_column(self@, n as nat),
            decreases i,
        {
            i = i - 1;
        }
        i
    }
}

} // verus!
