//! Tables of extension entries, looked up by extension name and trait.

use std::rc::Rc;
use std::sync::Arc;
use vstd::prelude::*;

use crate::order;
use crate::order::OrderedSet;

verus! {

/// Which trait an entry is for: a number that no other trait has, and the trait's name.
#[derive(Debug, Clone, Copy)]
pub struct TraitKey {
    pub id: u64,
    pub name: &'static str,
}

/// `<std::sync::Arc as Clone>::clone`: another pointer to the same value.
#[verifier::external_body]
pub(crate) fn share_arc<V>(a: &Arc<V>) -> (r: Arc<V>)
    ensures
        r == *a,
{
    Arc::clone(a)
}

/// `<std::rc::Rc as Clone>::clone`: another pointer to the same value.
#[verifier::external_body]
pub(crate) fn share_rc<V>(a: &Rc<V>) -> (r: Rc<V>)
    ensures
        r == *a,
{
    Rc::clone(a)
}

/// What can be had once more: a pointer to the same value, or an entry with such a pointer.
pub trait Shareable: Sized {
    fn again(&self) -> (r: Self)
        ensures
            r == *self,
    ;
}

impl<V> Shareable for Arc<V> {
    fn again(&self) -> (r: Self) {
        share_arc(self)
    }
}

impl<V> Shareable for Rc<V> {
    fn again(&self) -> (r: Self) {
        share_rc(self)
    }
}

/// A value that is copied by cloning what it points to.
pub trait DeepClone: Sized {
    /// `copy` is what copying may give.
    spec fn copies(self, copy: Self) -> bool;

    fn deep_clone(&self) -> (r: Self)
        ensures
            (*self).copies(r),
    ;
}

impl<V: Clone> DeepClone for Arc<V> {
    open spec fn copies(self, copy: Self) -> bool {
        cloned(*self, *copy)
    }

    fn deep_clone(&self) -> (r: Self) {
        let value: &V = &**self;
        Arc::new(value.clone())
    }
}

impl<V: Clone> DeepClone for Rc<V> {
    open spec fn copies(self, copy: Self) -> bool {
        cloned(*self, *copy)
    }

    fn deep_clone(&self) -> (r: Self) {
        let value: &V = &**self;
        Rc::new(value.clone())
    }
}

/// `copy` has the same keys as `m`, each with a copy of its entry.
pub open spec fn copies_all<E: DeepClone>(
    m: Map<(Seq<char>, u64), E>,
    copy: Map<(Seq<char>, u64), E>,
) -> bool {
    &&& forall|k: (Seq<char>, u64)| #[trigger] copy.contains_key(k) == m.contains_key(k)
    &&& forall|k: (Seq<char>, u64)| #[trigger] copy.contains_key(k) ==> m[k].copies(copy[k])
}

/// An entry for one extension and one trait.
#[derive(Debug)]
pub struct Handle<E> {
    pub name: String,
    pub trait_id: u64,
    pub entry: E,
}

/// Entries by extension name and trait. There is at most one for each pair.
#[derive(Debug)]
pub struct HandleTable<E> {
    entries: Vec<Handle<E>>,
}

/// The key of an entry.
pub open spec fn key_of<E>(h: Handle<E>) -> (Seq<char>, u64) {
    (h.name@, h.trait_id)
}

/// Some key has the name.
pub open spec fn names_one<E>(m: Map<(Seq<char>, u64), E>, name: Seq<char>) -> bool {
    exists|id: u64| #[trigger] m.contains_key((name, id))
}

/// `names` lists the names that have an entry in `m`, in order.
pub open spec fn lists_names<E>(m: Map<(Seq<char>, u64), E>, names: Seq<Seq<char>>) -> bool {
    order::lists::<String>(names, |n: Seq<char>| names_one(m, n))
}

/// `names` lists the names that have an entry in one of the two maps, in order.
pub open spec fn lists_names_of_both<D, E>(
    m: Map<(Seq<char>, u64), D>,
    other: Map<(Seq<char>, u64), E>,
    names: Seq<Seq<char>>,
) -> bool {
    order::lists::<String>(names, |n: Seq<char>| names_one(m, n) || names_one(other, n))
}

spec fn key_in<E>(rows: Seq<Handle<E>>, i: int, k: (Seq<char>, u64)) -> bool {
    0 <= i < rows.len() && key_of(rows[i]) == k
}

spec fn has_key_in<E>(rows: Seq<Handle<E>>, k: (Seq<char>, u64)) -> bool {
    exists|i: int| #[trigger] key_in(rows, i, k)
}

spec fn place_in<E>(rows: Seq<Handle<E>>, k: (Seq<char>, u64)) -> int {
    choose|i: int| #[trigger] key_in(rows, i, k)
}

impl<E> View for HandleTable<E> {
    type V = Map<(Seq<char>, u64), E>;

    closed spec fn view(&self) -> Map<(Seq<char>, u64), E> {
        Map::new(
            |k: (Seq<char>, u64)| self.has_key(k),
            |k: (Seq<char>, u64)| self.entries@[self.place(k)].entry,
        )
    }
}

impl<E> HandleTable<E> {
    closed spec fn key_at(&self, i: int, k: (Seq<char>, u64)) -> bool {
        key_in(self.entries@, i, k)
    }

    closed spec fn has_key(&self, k: (Seq<char>, u64)) -> bool {
        has_key_in(self.entries@, k)
    }

    closed spec fn place(&self, k: (Seq<char>, u64)) -> int {
        place_in(self.entries@, k)
    }

    /// The entries in the order in which they were first made.
    pub closed spec fn rows(&self) -> Seq<Handle<E>> {
        self.entries@
    }

    /// No two entries have the same key.
    pub closed spec fn wf(&self) -> bool {
        forall|i: int, j: int|
            0 <= i < self.entries@.len() && 0 <= j < self.entries@.len() && i != j ==> key_of(
                #[trigger] self.entries@[i],
            ) != key_of(#[trigger] self.entries@[j])
    }

    /// The table and its rows say the same.
    pub proof fn lemma_rows(&self)
        requires
            self.wf(),
        ensures
            forall|i: int|
                0 <= i < self.rows().len() ==> self@.contains_key(
                    key_of(#[trigger] self.rows()[i]),
                ) && self@[key_of(self.rows()[i])] == self.rows()[i].entry,
            forall|k: (Seq<char>, u64)| #[trigger]
                self@.contains_key(k) ==> exists|i: int|
                    0 <= i < self.rows().len() && key_of(#[trigger] self.rows()[i]) == k,
    {
        assert forall|i: int| 0 <= i < self.rows().len() implies self@.contains_key(
            key_of(#[trigger] self.rows()[i]),
        ) && self@[key_of(self.rows()[i])] == self.rows()[i].entry by {
            let k = key_of(self.rows()[i]);
            assert(self.key_at(i, k));
            let j = self.place(k);
            assert(self.key_at(j, k));
        }
        assert forall|k: (Seq<char>, u64)| #[trigger] self@.contains_key(k) implies exists|i: int|
            0 <= i < self.rows().len() && key_of(#[trigger] self.rows()[i]) == k by {
            let j = self.place(k);
            assert(self.key_at(j, k));
            assert(key_of(self.rows()[j]) == k);
        }
    }

    /// Creates an empty table.
    pub fn new() -> (r: Self)
        ensures
            r.wf(),
            r@ == Map::<(Seq<char>, u64), E>::empty(),
            r.rows().len() == 0,
    {
        let r = HandleTable { entries: Vec::new() };
        assert(r@ =~= Map::<(Seq<char>, u64), E>::empty());
        r
    }

    /// The number of entries.
    pub fn row_count(&self) -> (n: usize)
        ensures
            n == self.rows().len(),
    {
        self.entries.len()
    }

    /// The entry at position `i`.
    pub fn row(&self, i: usize) -> (h: &Handle<E>)
        requires
            i < self.rows().len(),
        ensures
            *h == self.rows()[i as int],
    {
        &self.entries[i]
    }

    /// Whether there is no entry.
    pub fn is_empty(&self) -> (r: bool)
        requires
            self.wf(),
        ensures
            r == (self@ == Map::<(Seq<char>, u64), E>::empty()),
    {
        proof {
            self.lemma_rows();
            if self.entries@.len() == 0 {
                assert(self@ =~= Map::<(Seq<char>, u64), E>::empty());
            } else {
                assert(self@.contains_key(key_of(self.rows()[0])));
            }
        }
        self.entries.len() == 0
    }

    fn find(&self, name: &str, trait_id: u64) -> (r: Option<usize>)
        ensures
            match r {
                Some(i) => self.key_at(i as int, (name@, trait_id)),
                None => !self.has_key((name@, trait_id)),
            },
    {
        let mut i: usize = 0;
        while i < self.entries.len()
            invariant
                i <= self.entries@.len(),
                forall|j: int| 0 <= j < i ==> !#[trigger] self.key_at(j, (name@, trait_id)),
            decreases self.entries@.len() - i,
        {
            if self.entries[i].trait_id == trait_id && order::str_same(
                self.entries[i].name.as_str(),
                name,
            ) {
                assert(self.key_at(i as int, (name@, trait_id)));
                return Some(i);
            }
            i = i + 1;
        }
        proof {
            if self.has_key((name@, trait_id)) {
                assert(self.key_at(self.place((name@, trait_id)), (name@, trait_id)));
            }
        }
        None
    }

    /// Enters `entry` for the extension and the trait, in place of one that was there.
    pub fn insert(&mut self, name: &str, trait_id: u64, entry: E)
        requires
            old(self).wf(),
        ensures
            final(self).wf(),
            final(self)@ == old(self)@.insert((name@, trait_id), entry),
    {
        let ghost before = *self;
        let ghost k = (name@, trait_id);
        match self.find(name, trait_id) {
            Some(i) => {
                let h = Handle { name: name.to_owned(), trait_id, entry };
                self.entries.set(i, h);
                proof {
                    assert forall|j: int| 0 <= j < self.entries@.len() implies key_of(
                        #[trigger] self.entries@[j],
                    ) == key_of(before.entries@[j]) by {}
                    assert forall|q: (Seq<char>, u64), j: int|
                        self.key_at(j, q) == before.key_at(j, q) by {}
                    self.lemma_rows();
                    before.lemma_rows();
                    self.lemma_same(before, k, i as int, entry);
                }
            },
            None => {
                self.entries.push(Handle { name: name.to_owned(), trait_id, entry });
                proof {
                    let n = before.entries@.len() as int;
                    assert forall|a: int, b: int|
                        0 <= a < self.entries@.len() && 0 <= b < self.entries@.len() && a
                            != b implies key_of(#[trigger] self.entries@[a]) != key_of(
                        #[trigger] self.entries@[b],
                    ) by {
                        if a < n && b < n {
                            assert(before.entries@[a] == self.entries@[a]);
                            assert(before.entries@[b] == self.entries@[b]);
                        } else {
                            let c = if a < n { a } else { b };
                            assert(before.entries@[c] == self.entries@[c]);
                            assert(!before.key_at(c, k));
                        }
                    }
                    self.lemma_rows();
                    before.lemma_rows();
                    assert forall|q: (Seq<char>, u64)|
                        self@.contains_key(q) == before@.insert(k, entry).contains_key(q) by {
                        if before@.contains_key(q) {
                            let j = before.place(q);
                            assert(before.key_at(j, q));
                            assert(self.key_at(j, q));
                        }
                        if q == k {
                            assert(self.key_at(n, q));
                        }
                        if self@.contains_key(q) && q != k {
                            let j = self.place(q);
                            assert(self.key_at(j, q));
                            assert(before.key_at(j, q));
                        }
                    }
                    assert forall|q: (Seq<char>, u64)| self@.contains_key(q) implies self@[q]
                        == before@.insert(k, entry)[q] by {
                        let j = self.place(q);
                        assert(self.key_at(j, q));
                        if j < n {
                            assert(before.key_at(j, q));
                            assert(before.rows()[j] == self.rows()[j]);
                        }
                    }
                    assert(self@ =~= before@.insert(k, entry));
                }
            },
        }
    }

    proof fn lemma_same(self, before: Self, k: (Seq<char>, u64), i: int, entry: E)
        requires
            self.wf(),
            before.wf(),
            before.key_at(i, k),
            self.entries@.len() == before.entries@.len(),
            forall|j: int| 0 <= j < self.entries@.len() && j != i ==> self.entries@[j]
                == before.entries@[j],
            key_of(self.entries@[i]) == k,
            self.entries@[i].entry == entry,
        ensures
            self@ == before@.insert(k, entry),
    {
        self.lemma_rows();
        before.lemma_rows();
        assert forall|q: (Seq<char>, u64)| self@.contains_key(q) == before@.insert(
            k,
            entry,
        ).contains_key(q) by {
            if before@.contains_key(q) && q != k {
                let j = before.place(q);
                assert(before.key_at(j, q));
                assert(self.key_at(j, q));
            }
            if q == k {
                assert(self.key_at(i, q));
            }
            if self@.contains_key(q) && q != k {
                let j = self.place(q);
                assert(self.key_at(j, q));
                assert(before.key_at(j, q));
            }
        }
        assert forall|q: (Seq<char>, u64)| self@.contains_key(q) implies self@[q]
            == before@.insert(k, entry)[q] by {
            let j = self.place(q);
            assert(self.key_at(j, q));
            if j != i {
                assert(before.key_at(j, q));
                assert(key_of(before.rows()[j]) == q);
                assert(key_of(self.rows()[i]) == k);
            } else {
                assert(self.rows()[i].entry == entry);
            }
        }
        assert(self@ =~= before@.insert(k, entry));
    }

    /// The entry for the extension and the trait.
    pub fn get(&self, name: &str, trait_id: u64) -> (r: Option<&E>)
        requires
            self.wf(),
        ensures
            match r {
                Some(e) => self@.contains_key((name@, trait_id)) && *e == self@[(name@, trait_id)],
                None => !self@.contains_key((name@, trait_id)),
            },
    {
        proof {
            self.lemma_rows();
        }
        match self.find(name, trait_id) {
            Some(i) => {
                assert(key_of(self.rows()[i as int]) == (name@, trait_id));
                Some(&self.entries[i].entry)
            },
            None => None,
        }
    }

    /// Whether the extension has an entry, for whatever trait.
    pub fn contains(&self, name: &str) -> (r: bool)
        requires
            self.wf(),
        ensures
            r == names_one(self@, name@),
    {
        proof {
            self.lemma_rows();
        }
        let mut i: usize = 0;
        while i < self.entries.len()
            invariant
                i <= self.entries@.len(),
                self.wf(),
                self.entries@ == self.rows(),
                forall|k: int|
                    0 <= k < self.rows().len() ==> self@.contains_key(
                        key_of(#[trigger] self.rows()[k]),
                    ),
                forall|j: int| 0 <= j < i ==> (#[trigger] self.rows()[j]).name@ != name@,
            decreases self.entries@.len() - i,
        {
            if order::str_same(self.entries[i].name.as_str(), name) {
                proof {
                    let h = self.rows()[i as int];
                    assert(self@.contains_key((name@, h.trait_id)));
                }
                return true;
            }
            i = i + 1;
        }
        proof {
            if names_one(self@, name@) {
                let id = choose|id: u64| #[trigger] self@.contains_key((name@, id));
                let j = choose|j: int|
                    0 <= j < self.rows().len() && key_of(#[trigger] self.rows()[j]) == (name@, id);
                assert(self.rows()[j].name@ == name@);
            }
        }
        false
    }

    /// Adds the names of all extensions with an entry to `set`.
    pub fn add_names(&self, set: &mut OrderedSet<String>)
        requires
            self.wf(),
            old(set).wf(),
        ensures
            final(set).wf(),
            forall|n: Seq<char>| #[trigger]
                final(set)@.contains(n) == (old(set)@.contains(n) || names_one(self@, n)),
    {
        proof {
            self.lemma_rows();
        }
        let mut i: usize = 0;
        while i < self.entries.len()
            invariant
                i <= self.entries@.len(),
                self.entries@ == self.rows(),
                set.wf(),
                forall|k: int|
                    0 <= k < self.rows().len() ==> self@.contains_key(
                        key_of(#[trigger] self.rows()[k]),
                    ),
                forall|n: Seq<char>|
                    old(set)@.contains(n) ==> #[trigger] set@.contains(n),
                forall|n: Seq<char>| #[trigger]
                    set@.contains(n) ==> old(set)@.contains(n) || names_one(self@, n),
                forall|j: int| 0 <= j < i ==> set@.contains((#[trigger] self.rows()[j]).name@),
            decreases self.entries@.len() - i,
        {
            let ghost s0 = set@;
            let name: String = self.entries[i].name.clone();
            let ghost n0 = name@;
            let _ = set.insert(name);
            proof {
                let h = self.rows()[i as int];
                assert(self@.contains_key((n0, h.trait_id)));
                assert forall|j: int| 0 <= j < i + 1 implies set@.contains(
                    (#[trigger] self.rows()[j]).name@,
                ) by {
                    if j < i {
                        assert(s0.contains(self.rows()[j].name@));
                    }
                }
            }
            i = i + 1;
        }
        proof {
            assert forall|n: Seq<char>| #[trigger] set@.contains(n) == (old(set)@.contains(n)
                || names_one(self@, n)) by {
                if names_one(self@, n) {
                    let id = choose|id: u64| #[trigger] self@.contains_key((n, id));
                    let j = choose|j: int|
                        0 <= j < self.rows().len() && key_of(#[trigger] self.rows()[j]) == (n, id);
                    assert(set@.contains(self.rows()[j].name@));
                }
            }
        }
    }
}

impl<E: Shareable> HandleTable<E> {
    /// A table with the same entries, which point to the same values.
    pub fn share(&self) -> (r: Self)
        ensures
            r.rows() == self.rows(),
            r.wf() == self.wf(),
            r@ == self@,
    {
        let mut entries: Vec<Handle<E>> = Vec::new();
        let mut i: usize = 0;
        while i < self.entries.len()
            invariant
                i <= self.entries@.len(),
                entries@ == self.entries@.take(i as int),
            decreases self.entries@.len() - i,
        {
            let h: &Handle<E> = &self.entries[i];
            entries.push(
                Handle { name: h.name.clone(), trait_id: h.trait_id, entry: h.entry.again() },
            );
            i = i + 1;
            assert(entries@ =~= self.entries@.take(i as int));
        }
        let r = HandleTable { entries };
        proof {
            assert(r.entries@ =~= self.entries@);
            lemma_same_rows(r, *self);
        }
        r
    }
}

impl<E: DeepClone> HandleTable<E> {
    /// A table with the same keys and a copy of each entry.
    pub fn deep_clone(&self) -> (r: Self)
        ensures
            self.wf() ==> r.wf() && copies_all(self@, r@),
    {
        let mut entries: Vec<Handle<E>> = Vec::new();
        let mut i: usize = 0;
        while i < self.entries.len()
            invariant
                i <= self.entries@.len(),
                entries@.len() == i,
                forall|j: int|
                    0 <= j < i ==> key_of(#[trigger] entries@[j]) == key_of(self.entries@[j])
                        && self.entries@[j].entry.copies(entries@[j].entry),
            decreases self.entries@.len() - i,
        {
            let h: &Handle<E> = &self.entries[i];
            entries.push(
                Handle { name: h.name.clone(), trait_id: h.trait_id, entry: h.entry.deep_clone() },
            );
            i = i + 1;
        }
        let r = HandleTable { entries };
        proof {
            if self.wf() {
                lemma_copied(*self, r);
            }
        }
        r
    }
}

/// Rows with the same keys and copied entries make a table of copies.
proof fn lemma_copied<E: DeepClone>(before: HandleTable<E>, after: HandleTable<E>)
    requires
        before.wf(),
        after.entries@.len() == before.entries@.len(),
        forall|j: int|
            0 <= j < after.entries@.len() ==> key_of(#[trigger] after.entries@[j]) == key_of(
                before.entries@[j],
            ) && before.entries@[j].entry.copies(after.entries@[j].entry),
    ensures
        after.wf(),
        copies_all(before@, after@),
{
    assert forall|a: int, b: int|
        0 <= a < after.entries@.len() && 0 <= b < after.entries@.len() && a != b implies key_of(
        #[trigger] after.entries@[a],
    ) != key_of(#[trigger] after.entries@[b]) by {
        assert(key_of(before.entries@[a]) != key_of(before.entries@[b]));
    }
    after.lemma_rows();
    before.lemma_rows();
    assert forall|k: (Seq<char>, u64)| #[trigger] after@.contains_key(k) == before@.contains_key(
        k,
    ) by {
        if after@.contains_key(k) {
            let j = after.place(k);
            assert(after.key_at(j, k));
            assert(key_of(after.rows()[j]) == key_of(before.rows()[j]));
        }
        if before@.contains_key(k) {
            let j = before.place(k);
            assert(before.key_at(j, k));
            assert(key_of(after.rows()[j]) == k);
        }
    }
    assert forall|k: (Seq<char>, u64)| #[trigger]
        after@.contains_key(k) implies before@[k].copies(after@[k]) by {
        let j = after.place(k);
        assert(after.key_at(j, k));
        assert(key_of(before.rows()[j]) == k);
        assert(after@[k] == after.rows()[j].entry);
        assert(before@[k] == before.rows()[j].entry);
    }
}

proof fn lemma_same_rows<E>(a: HandleTable<E>, b: HandleTable<E>)
    requires
        a.entries@ == b.entries@,
    ensures
        a.wf() == b.wf(),
        a@ == b@,
{
    assert(a@ =~= b@);
}

/// The names that are listed are those with an entry, each once and in order.
pub proof fn listed_names_have_entries<E>(
    m: Map<(Seq<char>, u64), E>,
    names: Seq<Seq<char>>,
    name: Seq<char>,
)
    requires
        lists_names(m, names),
    ensures
        names.contains(name) <==> exists|id: u64| #[trigger] m.contains_key((name, id)),
        names.no_duplicates(),
        forall|i: int, j: int|
            0 <= i < j < names.len() ==> order::chars_before(
                #[trigger] names[i],
                #[trigger] names[j],
            ),
{
    order::lemma_ascending_distinct::<String>(names);
}

/// The names that are listed for two sorts of entries are those with an entry of either, each
/// once.
pub proof fn names_of_both_are_listed_once<D, E>(
    m: Map<(Seq<char>, u64), D>,
    other: Map<(Seq<char>, u64), E>,
    names: Seq<Seq<char>>,
    name: Seq<char>,
)
    requires
        lists_names_of_both(m, other, names),
    ensures
        names.contains(name) <==> (exists|id: u64| #[trigger] m.contains_key((name, id)))
            || exists|id: u64| #[trigger] other.contains_key((name, id)),
        names.no_duplicates(),
{
    order::lemma_ascending_distinct::<String>(names);
}

} // verus!
