//! Tables of entries by number.

use vstd::prelude::*;

verus! {

/// Entries by number. There is at most one for each.
#[derive(Debug)]
pub struct IdTable<E> {
    entries: Vec<(u64, E)>,
}

spec fn id_in<E>(rows: Seq<(u64, E)>, i: int, id: u64) -> bool {
    0 <= i < rows.len() && rows[i].0 == id
}

spec fn has_id_in<E>(rows: Seq<(u64, E)>, id: u64) -> bool {
    exists|i: int| #[trigger] id_in(rows, i, id)
}

spec fn place_in<E>(rows: Seq<(u64, E)>, id: u64) -> int {
    choose|i: int| #[trigger] id_in(rows, i, id)
}

impl<E> View for IdTable<E> {
    type V = Map<u64, E>;

    closed spec fn view(&self) -> Map<u64, E> {
        Map::new(
            |id: u64| has_id_in(self.entries@, id),
            |id: u64| self.entries@[place_in(self.entries@, id)].1,
        )
    }
}

impl<E> IdTable<E> {
    /// The entries in the order in which they were first made.
    pub closed spec fn rows(&self) -> Seq<(u64, E)> {
        self.entries@
    }

    /// No two entries have the same number.
    pub closed spec fn wf(&self) -> bool {
        forall|i: int, j: int|
            0 <= i < self.entries@.len() && 0 <= j < self.entries@.len() && i != j ==> (
            #[trigger] self.entries@[i]).0 != (#[trigger] self.entries@[j]).0
    }

    /// The table and its rows say the same.
    pub proof fn lemma_rows(&self)
        requires
            self.wf(),
        ensures
            forall|i: int|
                0 <= i < self.rows().len() ==> self@.contains_key((#[trigger] self.rows()[i]).0)
                    && self@[self.rows()[i].0] == self.rows()[i].1,
            forall|id: u64| #[trigger]
                self@.contains_key(id) ==> exists|i: int|
                    0 <= i < self.rows().len() && (#[trigger] self.rows()[i]).0 == id,
    {
        assert forall|i: int| 0 <= i < self.rows().len() implies self@.contains_key(
            (#[trigger] self.rows()[i]).0,
        ) && self@[self.rows()[i].0] == self.rows()[i].1 by {
            let id = self.rows()[i].0;
            assert(id_in(self.entries@, i, id));
            assert(id_in(self.entries@, place_in(self.entries@, id), id));
        }
        assert forall|id: u64| #[trigger] self@.contains_key(id) implies exists|i: int|
            0 <= i < self.rows().len() && (#[trigger] self.rows()[i]).0 == id by {
            let i = place_in(self.entries@, id);
            assert(id_in(self.entries@, i, id));
            assert(self.rows()[i].0 == id);
        }
    }

    /// Creates an empty table.
    pub fn new() -> (r: Self)
        ensures
            r.wf(),
            r@ == Map::<u64, E>::empty(),
    {
        let r = IdTable { entries: Vec::new() };
        assert(r@ =~= Map::<u64, E>::empty());
        r
    }

    /// The number of entries.
    pub fn row_count(&self) -> (n: usize)
        ensures
            n == self.rows().len(),
    {
        self.entries.len()
    }

    /// The entry at position `i`.
    pub fn row(&self, i: usize) -> (e: &E)
        requires
            i < self.rows().len(),
        ensures
            *e == self.rows()[i as int].1,
    {
        &self.entries[i].1
    }

    /// Whether there is no entry.
    pub fn is_empty(&self) -> (r: bool)
        requires
            self.wf(),
        ensures
            r == (self@ == Map::<u64, E>::empty()),
    {
        proof {
            self.lemma_rows();
            if self.entries@.len() == 0 {
                assert(self@ =~= Map::<u64, E>::empty());
            } else {
                assert(self@.contains_key(self.rows()[0].0));
            }
        }
        self.entries.len() == 0
    }

    fn find(&self, id: u64) -> (r: Option<usize>)
        ensures
            match r {
                Some(i) => id_in(self.entries@, i as int, id),
                None => !has_id_in(self.entries@, id),
            },
    {
        let mut i: usize = 0;
        while i < self.entries.len()
            invariant
                i <= self.entries@.len(),
                forall|j: int| 0 <= j < i ==> !#[trigger] id_in(self.entries@, j, id),
            decreases self.entries@.len() - i,
        {
            if self.entries[i].0 == id {
                return Some(i);
            }
            i = i + 1;
        }
        None
    }

    /// The entry with that number.
    pub fn get(&self, id: u64) -> (r: Option<&E>)
        requires
            self.wf(),
        ensures
            match r {
                Some(e) => self@.contains_key(id) && *e == self@[id],
                None => !self@.contains_key(id),
            },
    {
        proof {
            self.lemma_rows();
        }
        match self.find(id) {
            Some(i) => {
                assert(self.rows()[i as int].0 == id);
                Some(&self.entries[i].1)
            },
            None => None,
        }
    }

    /// Enters `entry` under the number, in place of one that was there.
    pub fn insert(&mut self, id: u64, entry: E)
        requires
            old(self).wf(),
        ensures
            final(self).wf(),
            final(self)@ == old(self)@.insert(id, entry),
    {
        let ghost before = *self;
        match self.find(id) {
            Some(i) => {
                self.entries.set(i, (id, entry));
                proof {
                    self.lemma_inserted(before, i as int, id, entry);
                }
            },
            None => {
                self.entries.push((id, entry));
                proof {
                    let n = before.entries@.len() as int;
                    assert forall|a: int, b: int|
                        0 <= a < self.entries@.len() && 0 <= b < self.entries@.len() && a
                            != b implies (#[trigger] self.entries@[a]).0 != (
                    #[trigger] self.entries@[b]).0 by {
                        let c = if a < n { a } else { b };
                        assert(!id_in(before.entries@, c, id));
                    }
                    self.lemma_inserted(before, n, id, entry);
                }
            },
        }
    }

    proof fn lemma_inserted(self, before: Self, at: int, id: u64, entry: E)
        requires
            self.wf(),
            before.wf(),
            0 <= at < self.entries@.len(),
            self.entries@[at] == (id, entry),
            before.entries@.len() == self.entries@.len() || before.entries@.len() == at,
            before.entries@.len() <= self.entries@.len() <= before.entries@.len() + 1,
            before.entries@.len() == at ==> !has_id_in(before.entries@, id),
            at < before.entries@.len() ==> before.entries@[at].0 == id,
            forall|j: int|
                0 <= j < before.entries@.len() && j != at ==> self.entries@[j]
                    == before.entries@[j],
        ensures
            self@ == before@.insert(id, entry),
    {
        self.lemma_rows();
        before.lemma_rows();
        let want = before@.insert(id, entry);
        assert forall|k: u64| self@.contains_key(k) == want.contains_key(k) by {
            if before@.contains_key(k) && k != id {
                let j = choose|j: int|
                    0 <= j < before.rows().len() && (#[trigger] before.rows()[j]).0 == k;
                assert(self.rows()[j].0 == k);
            }
            if k == id {
                assert(self.rows()[at].0 == k);
            }
            if self@.contains_key(k) && k != id {
                let j = choose|j: int|
                    0 <= j < self.rows().len() && (#[trigger] self.rows()[j]).0 == k;
                assert(j != at);
                assert(before.rows()[j].0 == k);
            }
        }
        assert forall|k: u64| self@.contains_key(k) implies self@[k] == want[k] by {
            let j = choose|j: int| 0 <= j < self.rows().len() && (#[trigger] self.rows()[j]).0 == k;
            if j != at {
                assert(before.rows()[j] == self.rows()[j]);
                assert(self.rows()[at].0 == id);
            }
        }
        assert(self@ =~= want);
    }
}

} // verus!
