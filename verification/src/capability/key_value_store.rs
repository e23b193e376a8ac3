//! Key-value storage.

use vstd::prelude::*;
use vstd::string::*;

use crate::order;

verus! {

/// Values of bytes by key. Each key has at most one value.
#[derive(Debug)]
pub struct KeyValueTable {
    entries: Vec<(String, Vec<u8>)>,
}

spec fn key_at(entries: Seq<(String, Vec<u8>)>, i: int, key: Seq<char>) -> bool {
    0 <= i < entries.len() && entries[i].0@ == key
}

spec fn has_key(entries: Seq<(String, Vec<u8>)>, key: Seq<char>) -> bool {
    exists|i: int| #[trigger] key_at(entries, i, key)
}

spec fn place(entries: Seq<(String, Vec<u8>)>, key: Seq<char>) -> int {
    choose|i: int| #[trigger] key_at(entries, i, key)
}

impl View for KeyValueTable {
    type V = Map<Seq<char>, Seq<u8>>;

    closed spec fn view(&self) -> Map<Seq<char>, Seq<u8>> {
        Map::new(
            |k: Seq<char>| has_key(self.entries@, k),
            |k: Seq<char>| self.entries@[place(self.entries@, k)].1@,
        )
    }
}

impl KeyValueTable {
    /// No key occurs twice.
    pub closed spec fn wf(&self) -> bool {
        forall|i: int, j: int|
            0 <= i < j < self.entries@.len() ==> (#[trigger] self.entries@[i]).0@ != (
            #[trigger] self.entries@[j]).0@
    }

    /// A table without keys.
    pub fn new() -> (r: Self)
        ensures
            r.wf(),
            r@ == Map::<Seq<char>, Seq<u8>>::empty(),
    {
        let r = KeyValueTable { entries: Vec::new() };
        assert(r@ =~= Map::<Seq<char>, Seq<u8>>::empty());
        r
    }

    fn position(&self, key: &str) -> (r: Option<usize>)
        requires
            self.wf(),
        ensures
            match r {
                Some(i) => key_at(self.entries@, i as int, key@) && place(self.entries@, key@) == i
                    && has_key(self.entries@, key@),
                None => !has_key(self.entries@, key@),
            },
    {
        let mut i: usize = 0;
        while i < self.entries.len()
            invariant
                i <= self.entries@.len(),
                self.wf(),
                forall|j: int| 0 <= j < i ==> !#[trigger] key_at(self.entries@, j, key@),
            decreases self.entries@.len() - i,
        {
            if order::str_same(self.entries[i].0.as_str(), key) {
                proof {
                    assert(key_at(self.entries@, i as int, key@));
                    let k = place(self.entries@, key@);
                    assert(key_at(self.entries@, k, key@));
                    assert(self.entries@[k].0@ == self.entries@[i as int].0@);
                }
                return Some(i);
            }
            i = i + 1;
        }
        None
    }

    /// Retrieves the value of the key.
    pub fn get(&self, key: &str) -> (r: Option<Vec<u8>>)
        requires
            self.wf(),
        ensures
            match r {
                Some(v) => self@.contains_key(key@) && v@ == self@[key@],
                None => !self@.contains_key(key@),
            },
    {
        match self.position(key) {
            Some(i) => {
                let value: &Vec<u8> = &self.entries[i].1;
                let mut copy: Vec<u8> = Vec::new();
                let mut k: usize = 0;
                while k < value.len()
                    invariant
                        k <= value@.len(),
                        copy@ == value@.take(k as int),
                    decreases value@.len() - k,
                {
                    copy.push(value[k]);
                    k = k + 1;
                    assert(copy@ =~= value@.take(k as int));
                }
                assert(value@.take(k as int) =~= value@);
                Some(copy)
            },
            None => None,
        }
    }

    /// Stores a value under the key, in place of the one it had.
    pub fn set(&mut self, key: &str, value: Vec<u8>)
        requires
            old(self).wf(),
        ensures
            final(self).wf(),
            final(self)@ == old(self)@.insert(key@, value@),
    {
        let ghost before = self.entries@;
        let ghost v = value@;
        let ghost at: int;
        match self.position(key) {
            Some(i) => {
                self.entries.set(i, (String::from_str(key), value));
                proof {
                    at = i as int;
                }
            },
            None => {
                proof {
                    at = before.len() as int;
                    assert forall|j: int| 0 <= j < before.len() implies (
                    #[trigger] before[j]).0@ != key@ by {
                        assert(!key_at(before, j, key@));
                    }
                }
                self.entries.push((String::from_str(key), value));
            },
        }
        proof {
            let now = self.entries@;
            assert(now[at].0@ == key@ && now[at].1@ == v);
            assert forall|k: Seq<char>| has_key(now, k) == (has_key(before, k) || k == key@) by {
                if has_key(now, k) && k != key@ {
                    let i = place(now, k);
                    assert(key_at(now, i, k));
                    assert(key_at(before, i, k));
                }
                if has_key(before, k) && k != key@ {
                    let i = place(before, k);
                    assert(key_at(before, i, k));
                    assert(key_at(now, i, k));
                }
                assert(key_at(now, at, key@));
            }
            assert forall|k: Seq<char>| has_key(now, k) implies now[place(now, k)].1@ == if k
                == key@ {
                v
            } else {
                before[place(before, k)].1@
            } by {
                let i = place(now, k);
                assert(key_at(now, i, k));
                if k == key@ {
                    assert(now[i].0@ == now[at].0@);
                    assert(i == at);
                } else {
                    assert(key_at(before, i, k));
                    let j = place(before, k);
                    assert(key_at(before, j, k));
                    assert(before[i].0@ == before[j].0@);
                }
            }
            assert(self@ =~= old(self)@.insert(key@, v));
        }
    }

    /// Removes the value of the key, if it has one.
    pub fn delete(&mut self, key: &str)
        requires
            old(self).wf(),
        ensures
            final(self).wf(),
            final(self)@ == old(self)@.remove(key@),
    {
        let ghost before = self.entries@;
        match self.position(key) {
            Some(i) => {
                let _ = self.entries.remove(i);
                proof {
                    let now = self.entries@;
                    assert(now =~= before.remove(i as int));
                    assert forall|k: Seq<char>| has_key(now, k) == (has_key(before, k) && k
                        != key@) by {
                        if has_key(now, k) {
                            let j = place(now, k);
                            assert(key_at(now, j, k));
                            let j0 = if j < i {
                                j
                            } else {
                                j + 1
                            };
                            assert(key_at(before, j0, k));
                            assert(before[j0].0@ != before[i as int].0@);
                        }
                        if has_key(before, k) && k != key@ {
                            let j0 = place(before, k);
                            assert(key_at(before, j0, k));
                            let j = if j0 < i {
                                j0
                            } else {
                                j0 - 1
                            };
                            assert(key_at(now, j, k));
                        }
                    }
                    assert forall|k: Seq<char>| has_key(now, k) implies now[place(now, k)].1@
                        == before[place(before, k)].1@ by {
                        let j = place(now, k);
                        assert(key_at(now, j, k));
                        let j0 = if j < i {
                            j
                        } else {
                            j + 1
                        };
                        assert(key_at(before, j0, k));
                        let b = place(before, k);
                        assert(key_at(before, b, k));
                        assert(before[j0].0@ == before[b].0@);
                    }
                    assert(self@ =~= old(self)@.remove(key@));
                }
            },
            None => {
                assert(self@ =~= old(self)@.remove(key@));
            },
        }
    }
}

/// A key has the value that was stored last; other keys keep theirs.
pub proof fn stored_is_read(
    before: Map<Seq<char>, Seq<u8>>,
    key: Seq<char>,
    value: Seq<u8>,
    other: Seq<char>,
)
    ensures
        before.insert(key, value).contains_key(key),
        before.insert(key, value)[key] == value,
        other != key ==> before.insert(key, value).contains_key(other) == before.contains_key(
            other,
        ),
        other != key && before.contains_key(other) ==> before.insert(key, value)[other]
            == before[other],
        !before.remove(key).contains_key(key),
{
}

} // verus!
