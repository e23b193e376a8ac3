//! Which message waits for which batches.

use vstd::prelude::*;

verus! {

/// The entries of `s` whose id has the property `p`, in order.
pub open spec fn only<P>(s: Seq<(u64, P)>, p: spec_fn(u64) -> bool) -> Seq<(u64, P)>
    decreases s.len(),
{
    if s.len() == 0 {
        Seq::empty()
    } else if p(s.last().0) {
        only(s.drop_last(), p).push(s.last())
    } else {
        only(s.drop_last(), p)
    }
}

/// The entries of `s` whose id does not have the property `p`, in order.
pub open spec fn without<P>(s: Seq<(u64, P)>, p: spec_fn(u64) -> bool) -> Seq<(u64, P)> {
    only(s, |id: u64| !p(id))
}

/// The message of that id.
pub open spec fn is_msg(msg_id: u64) -> spec_fn(u64) -> bool {
    |id: u64| id == msg_id
}

/// The messages that have an entry in the batch and in no other.
pub open spec fn completed(relation: Set<(u64, u64)>, batch_id: u64) -> spec_fn(u64) -> bool {
    |m: u64| completed_by(relation, batch_id, m)
}

/// The messages with an entry in the batch.
pub open spec fn touched(relation: Set<(u64, u64)>, batch_id: u64) -> spec_fn(u64) -> bool {
    |m: u64| relation.contains((batch_id, m))
}

/// The relation without the batch.
pub open spec fn without_batch(relation: Set<(u64, u64)>, batch_id: u64) -> Set<(u64, u64)> {
    relation.filter(|l: (u64, u64)| l.0 != batch_id)
}

/// The relation without the messages that have an entry in the batch.
pub open spec fn without_touched(relation: Set<(u64, u64)>, batch_id: u64) -> Set<(u64, u64)> {
    relation.filter(|l: (u64, u64)| !relation.contains((batch_id, l.1)))
}

/// No id occurs twice.
pub open spec fn distinct_ids<P>(s: Seq<(u64, P)>) -> bool {
    forall|i: int, j: int|
        0 <= i < s.len() && 0 <= j < s.len() && i != j ==> (#[trigger] s[i]).0 != (#[trigger] s[j]).0
}

pub open spec fn has_id<P>(s: Seq<(u64, P)>, id: u64) -> bool {
    exists|i: int| 0 <= i < s.len() && (#[trigger] s[i]).0 == id
}

pub proof fn lemma_only<P>(s: Seq<(u64, P)>, p: spec_fn(u64) -> bool)
    ensures
        forall|i: int|
            0 <= i < only(s, p).len() ==> p((#[trigger] only(s, p)[i]).0) && s.contains(
                only(s, p)[i],
            ),
        forall|i: int|
            0 <= i < s.len() && p((#[trigger] s[i]).0) ==> only(s, p).contains(s[i]),
        distinct_ids(s) ==> distinct_ids(only(s, p)),
    decreases s.len(),
{
    if s.len() > 0 {
        let r = s.drop_last();
        lemma_only(r, p);
        assert forall|i: int| 0 <= i < only(s, p).len() implies p((#[trigger] only(s, p)[i]).0)
            && s.contains(only(s, p)[i]) by {
            let x = only(s, p)[i];
            if i < only(r, p).len() {
                assert(x == only(r, p)[i]);
                assert(r.contains(x));
                assert(s[r.index_of(x)] == x);
            } else {
                assert(s[s.len() - 1] == x);
            }
        }
        assert forall|i: int| 0 <= i < s.len() && p((#[trigger] s[i]).0) implies only(
            s,
            p,
        ).contains(s[i]) by {
            if i < r.len() {
                assert(s[i] == r[i]);
                assert(only(r, p).contains(r[i]));
                assert(only(s, p)[only(r, p).index_of(r[i])] == s[i]);
            } else {
                assert(only(s, p)[only(r, p).len() as int] == s[i]);
            }
        }
        if distinct_ids(s) {
            assert(distinct_ids(r)) by {
                assert forall|i: int, j: int|
                    0 <= i < r.len() && 0 <= j < r.len() && i != j implies (#[trigger] r[i]).0 != (
                #[trigger] r[j]).0 by {
                    assert(s[i].0 != s[j].0);
                }
            }
            let t = only(s, p);
            assert forall|i: int, j: int|
                0 <= i < t.len() && 0 <= j < t.len() && i != j implies (#[trigger] t[i]).0 != (
            #[trigger] t[j]).0 by {
                let n = only(r, p).len();
                if i < n && j < n {
                    assert(t[i] == only(r, p)[i] && t[j] == only(r, p)[j]);
                } else {
                    let k = if i < n { i } else { j };
                    let x = only(r, p)[k];
                    assert(r.contains(x));
                    let m = r.index_of(x);
                    assert(s[m] == x);
                    assert(s[m].0 != s[s.len() - 1].0);
                }
            }
        }
    }
}

/// A message that waited is either taken off to be answered or goes on waiting, never both; no
/// other message is answered.
pub proof fn each_message_is_answered_once<P>(
    waiting: Seq<(u64, P)>,
    p: spec_fn(u64) -> bool,
    id: u64,
)
    requires
        distinct_ids(waiting),
    ensures
        has_id(waiting, id) ==> has_id(only(waiting, p), id) != has_id(without(waiting, p), id),
        !has_id(waiting, id) ==> !has_id(only(waiting, p), id) && !has_id(
            without(waiting, p),
            id,
        ),
{
    let q = |m: u64| !p(m);
    lemma_only(waiting, p);
    lemma_only(waiting, q);
    let answered = only(waiting, p);
    let left = only(waiting, q);
    if has_id(waiting, id) {
        let i = choose|i: int| 0 <= i < waiting.len() && (#[trigger] waiting[i]).0 == id;
        if p(id) {
            let j = answered.index_of(waiting[i]);
            assert(answered.contains(waiting[i]));
            assert(answered[j].0 == id);
        } else {
            let j = left.index_of(waiting[i]);
            assert(left.contains(waiting[i]));
            assert(left[j].0 == id);
        }
    }
    if has_id(answered, id) {
        let j = choose|j: int| 0 <= j < answered.len() && (#[trigger] answered[j]).0 == id;
        assert(waiting.contains(answered[j]));
        assert(waiting[waiting.index_of(answered[j])].0 == id);
    }
    if has_id(left, id) {
        let j = choose|j: int| 0 <= j < left.len() && (#[trigger] left[j]).0 == id;
        assert(waiting.contains(left[j]));
        assert(waiting[waiting.index_of(left[j])].0 == id);
    }
}

/// A message with an entry in an exported batch is acknowledged exactly if no batch is left
/// afterwards that holds an entry of it. The batch itself is forgotten, no other is.
pub proof fn acknowledged_once_no_batch_is_left<P>(
    waiting: Seq<(u64, P)>,
    relation: Set<(u64, u64)>,
    batch_id: u64,
    id: u64,
)
    requires
        has_id(waiting, id),
        relation.contains((batch_id, id)),
    ensures
        has_id(only(waiting, completed(relation, batch_id)), id) <==> forall|b: u64|
            !(#[trigger] without_batch(relation, batch_id).contains((b, id))),
        !without_batch(relation, batch_id).contains((batch_id, id)),
        forall|b: u64|
            b != batch_id ==> #[trigger] without_batch(relation, batch_id).contains((b, id))
                == relation.contains((b, id)),
{
    let p = completed(relation, batch_id);
    let left = without_batch(relation, batch_id);
    lemma_only_ids(waiting, p, id);
    if p(id) {
        assert forall|b: u64| !(#[trigger] left.contains((b, id))) by {
            if left.contains((b, id)) {
                assert(relation.contains((b, id)));
            }
        }
    } else {
        let b = choose|b: u64| #[trigger] relation.contains((b, id)) && b != batch_id;
        assert(left.contains((b, id)));
    }
}

/// An exported batch changes nothing for a message that has no entry in it.
pub proof fn exported_batch_leaves_others_waiting<P>(
    waiting: Seq<(u64, P)>,
    relation: Set<(u64, u64)>,
    batch_id: u64,
    id: u64,
)
    requires
        !relation.contains((batch_id, id)),
    ensures
        !has_id(only(waiting, completed(relation, batch_id)), id),
        forall|b: u64| #[trigger]
            without_batch(relation, batch_id).contains((b, id)) == relation.contains((b, id)),
{
    lemma_only_ids(waiting, completed(relation, batch_id), id);
}

/// A batch that is lost takes every message along that has an entry in it, with all its entries
/// in other batches, and no other message.
pub proof fn lost_batch_takes_its_messages_along<P>(
    waiting: Seq<(u64, P)>,
    relation: Set<(u64, u64)>,
    batch_id: u64,
    id: u64,
)
    requires
        has_id(waiting, id),
    ensures
        relation.contains((batch_id, id)) ==> {
            &&& has_id(only(waiting, touched(relation, batch_id)), id)
            &&& !has_id(without(waiting, touched(relation, batch_id)), id)
            &&& forall|b: u64| !(#[trigger] without_touched(relation, batch_id).contains((b, id)))
        },
        !relation.contains((batch_id, id)) ==> {
            &&& !has_id(only(waiting, touched(relation, batch_id)), id)
            &&& has_id(without(waiting, touched(relation, batch_id)), id)
            &&& forall|b: u64| #[trigger]
                without_touched(relation, batch_id).contains((b, id)) == relation.contains((b, id))
        },
{
    let p = touched(relation, batch_id);
    lemma_only_ids(waiting, p, id);
    lemma_only_ids(waiting, |m: u64| !p(m), id);
}

/// Taking a message off takes no other: all others go on waiting, with what they came with.
pub proof fn one_message_leaves_alone<P>(waiting: Seq<(u64, P)>, id: u64, other: u64, data: P)
    ensures
        !has_id(without(waiting, is_msg(id)), id),
        waiting.contains((other, data)) && other != id ==> without(
            waiting,
            is_msg(id),
        ).contains((other, data)),
        without(waiting, is_msg(id)).contains((other, data)) ==> waiting.contains((other, data)),
{
    let p = is_msg(id);
    let q = |m: u64| !p(m);
    let left = without(waiting, p);
    lemma_only(waiting, q);
    lemma_only_ids(waiting, q, id);
    if waiting.contains((other, data)) && other != id {
        let i = waiting.index_of((other, data));
        assert(q(waiting[i].0));
        assert(left.contains(waiting[i]));
    }
    if left.contains((other, data)) {
        let i = left.index_of((other, data));
        assert(waiting.contains(left[i]));
    }
}

/// An id is among those with a property exactly if it waits and has it.
pub proof fn lemma_only_ids<P>(s: Seq<(u64, P)>, p: spec_fn(u64) -> bool, id: u64)
    ensures
        has_id(only(s, p), id) == (has_id(s, id) && p(id)),
{
    lemma_only(s, p);
    let t = only(s, p);
    if has_id(s, id) && p(id) {
        let i = choose|i: int| 0 <= i < s.len() && (#[trigger] s[i]).0 == id;
        assert(t.contains(s[i]));
        assert(t[t.index_of(s[i])].0 == id);
    }
    if has_id(t, id) {
        let j = choose|j: int| 0 <= j < t.len() && (#[trigger] t[j]).0 == id;
        assert(s.contains(t[j]));
        assert(s[s.index_of(t[j])].0 == id);
    }
}

/// The messages that wait for an answer and the batches that hold their entries.
pub struct AzureMonitorExporterState<P> {
    msgs: Vec<(u64, P)>,
    links: Vec<(u64, u64)>,
}

impl<P> AzureMonitorExporterState<P> {
    /// The messages that wait, in the order in which they came, each with its id.
    pub closed spec fn messages(&self) -> Seq<(u64, P)> {
        self.msgs@
    }

    /// The pairs of a batch and a message with an entry in it.
    pub closed spec fn relation(&self) -> Set<(u64, u64)> {
        self.links@.to_set()
    }

    /// No two waiting messages have the same id.
    pub closed spec fn wf(&self) -> bool {
        distinct_ids(self.msgs@)
    }

    /// Whether the message has an entry in some batch.
    pub open spec fn related(&self, msg_id: u64) -> bool {
        exists|batch_id: u64| #[trigger] self.relation().contains((batch_id, msg_id))
    }

    /// Creates an empty state.
    pub fn new() -> (r: Self)
        ensures
            r.wf(),
            r.messages().len() == 0,
            r.relation() == Set::<(u64, u64)>::empty(),
    {
        let r = AzureMonitorExporterState { msgs: Vec::new(), links: Vec::new() };
        assert(r.relation() =~= Set::<(u64, u64)>::empty());
        r
    }

    /// Takes the messages off whose id is in `ids`.
    fn extract(&mut self, ids: &Vec<u64>) -> (r: Vec<(u64, P)>)
        requires
            old(self).wf(),
        ensures
            final(self).wf(),
            final(self).links == old(self).links,
            r@ == only(old(self).messages(), |id: u64| ids@.contains(id)),
            final(self).messages() == without(old(self).messages(), |id: u64| ids@.contains(id)),
    {
        let ghost all = self.msgs@;
        let ghost p = |id: u64| ids@.contains(id);
        let ghost q = |id: u64| !p(id);
        let mut out: Vec<(u64, P)> = Vec::new();
        let mut at: usize = 0;
        let ghost mut k: int = 0;
        proof {
            assert(all.take(0) =~= Seq::<(u64, P)>::empty());
            assert(only(all.take(0), p) =~= Seq::<(u64, P)>::empty());
            assert(only(all.take(0), q) =~= Seq::<(u64, P)>::empty());
            assert(all.skip(0) =~= all);
            assert(self.msgs@ =~= only(all.take(0), q) + all.skip(0));
        }
        while at < self.msgs.len()
            invariant
                0 <= k <= all.len(),
                at == only(all.take(k), q).len(),
                self.msgs@ == only(all.take(k), q) + all.skip(k),
                out@ == only(all.take(k), p),
                self.links == old(self).links,
                p == (|id: u64| ids@.contains(id)),
                q == (|id: u64| !p(id)),
            decreases all.len() - k,
        {
            let ghost x = all[k];
            let ghost kept = only(all.take(k), q);
            proof {
                assert(self.msgs@[at as int] == all.skip(k)[0]);
                assert(all.take(k + 1).drop_last() =~= all.take(k));
                assert(all.take(k + 1).last() == x);
                assert(all.skip(k) =~= seq![x] + all.skip(k + 1));
            }
            if holds_id(ids, self.msgs[at].0) {
                let ghost m0 = self.msgs@;
                let m: (u64, P) = self.msgs.remove(at);
                out.push(m);
                assert(self.msgs@ =~= kept + all.skip(k + 1));
            } else {
                at = at + 1;
                assert(self.msgs@ =~= only(all.take(k + 1), q) + all.skip(k + 1));
            }
            proof {
                k = k + 1;
            }
        }
        proof {
            assert(k == all.len());
            assert(all.take(k) =~= all);
            assert(all.skip(k) =~= Seq::<(u64, P)>::empty());
            assert(self.msgs@ =~= only(all, q));
            lemma_only(all, q);
            assert(q =~= |id: u64| !p(id));
        }
        out
    }

    /// Notes that a message waits for an answer. A message with the same id is replaced.
    pub fn add_msg_to_data(&mut self, msg_id: u64, data: P)
        requires
            old(self).wf(),
        ensures
            final(self).wf(),
            final(self).relation() == old(self).relation(),
            final(self).messages() == without(old(self).messages(), is_msg(msg_id)).push(
                (msg_id, data),
            ),
    {
        let _ = self.remove_msg_to_data(msg_id);
        let ghost rest = self.msgs@;
        self.msgs.push((msg_id, data));
        proof {
            let p = is_msg(msg_id);
            let q = |id: u64| !p(id);
            assert(rest == without(old(self).msgs@, p));
            lemma_only(old(self).msgs@, q);
        }
    }

    /// Notes that an entry of the message stands in the batch.
    pub fn add_batch_msg_relationship(&mut self, batch_id: u64, msg_id: u64)
        requires
            old(self).wf(),
        ensures
            final(self).wf(),
            final(self).messages() == old(self).messages(),
            final(self).relation() == old(self).relation().insert((batch_id, msg_id)),
    {
        let ghost l0 = self.links@;
        self.links.push((batch_id, msg_id));
        proof {
            assert forall|x: (u64, u64)| self.relation().contains(x) == l0.to_set().insert(
                (batch_id, msg_id),
            ).contains(x) by {
                if l0.contains(x) {
                    assert(self.links@[l0.index_of(x)] == x);
                }
                if self.links@.contains(x) && x != (batch_id, msg_id) {
                    assert(l0[self.links@.index_of(x)] == x);
                }
                assert(self.links@[l0.len() as int] == (batch_id, msg_id));
            }
            assert(self.relation() =~= l0.to_set().insert((batch_id, msg_id)));
        }
    }

    /// Takes the message off, if it waits.
    pub fn remove_msg_to_data(&mut self, msg_id: u64) -> (r: Option<P>)
        requires
            old(self).wf(),
        ensures
            final(self).wf(),
            final(self).relation() == old(self).relation(),
            final(self).messages() == without(old(self).messages(), is_msg(msg_id)),
            r is Some == has_id(old(self).messages(), msg_id),
            r is Some ==> old(self).messages().contains((msg_id, r->0)),
    {
        let ids: Vec<u64> = vec![msg_id];
        let ghost all = self.msgs@;
        let mut out: Vec<(u64, P)> = self.extract(&ids);
        proof {
            assert(ids@ =~= seq![msg_id]);
            assert forall|id: u64| ids@.contains(id) == (id == msg_id) by {
                assert(ids@[0] == msg_id);
            }
            let p = |id: u64| ids@.contains(id);
            let p2 = is_msg(msg_id);
            assert(p =~= p2);
            let n1 = |id: u64| !p(id);
            let n2 = |id: u64| !p2(id);
            assert(n1 =~= n2);
            lemma_only(all, p2);
            if has_id(all, msg_id) {
                let i = choose|i: int| 0 <= i < all.len() && (#[trigger] all[i]).0 == msg_id;
                assert(only(all, p2).contains(all[i]));
            }
        }
        match out.pop() {
            Some(m) => {
                proof {
                    let j = out@.len() as int;
                    assert(only(all, is_msg(msg_id))[j] == m);
                    let i = all.index_of(m);
                    assert(all[i].0 == msg_id);
                    assert(m == (msg_id, m.1));
                }
                Some(m.1)
            },
            None => None,
        }
    }

    /// Whether the message has an entry in some batch.
    fn is_related(&self, msg_id: u64) -> (r: bool)
        ensures
            r == self.related(msg_id),
    {
        let mut i: usize = 0;
        while i < self.links.len()
            invariant
                i <= self.links@.len(),
                forall|k: int| 0 <= k < i ==> (#[trigger] self.links@[k]).1 != msg_id,
            decreases self.links@.len() - i,
        {
            if self.links[i].1 == msg_id {
                proof {
                    let b = self.links@[i as int].0;
                    assert(self.links@[i as int] == (b, msg_id));
                    assert(self.links@.contains((b, msg_id)));
                    assert(self.relation().contains((b, msg_id)));
                }
                return true;
            }
            i = i + 1;
        }
        proof {
            if self.related(msg_id) {
                let b = choose|b: u64| #[trigger] self.relation().contains((b, msg_id));
                let k = self.links@.index_of((b, msg_id));
                assert(self.links@[k].1 == msg_id);
            }
        }
        false
    }

    /// Takes the message off if it waits and has no entry in any batch.
    pub fn delete_msg_data_if_orphaned(&mut self, msg_id: u64) -> (r: Option<P>)
        requires
            old(self).wf(),
        ensures
            final(self).wf(),
            final(self).relation() == old(self).relation(),
            old(self).related(msg_id) ==> r is None && final(self).messages() == old(
                self,
            ).messages(),
            !old(self).related(msg_id) ==> {
                &&& r is Some == has_id(old(self).messages(), msg_id)
                &&& r is Some ==> old(self).messages().contains((msg_id, r->0))
                &&& final(self).messages() == without(
                    old(self).messages(),
                    is_msg(msg_id),
                )
            },
    {
        if self.is_related(msg_id) {
            None
        } else {
            self.remove_msg_to_data(msg_id)
        }
    }

    /// Drops the links that fail the test, and gives the messages of those dropped.
    fn drop_batch(&mut self, batch_id: u64) -> (ids: Vec<u64>)
        requires
            old(self).wf(),
        ensures
            final(self).wf(),
            final(self).messages() == old(self).messages(),
            final(self).relation() == without_batch(old(self).relation(), batch_id),
            forall|m: u64| #[trigger]
                ids@.contains(m) == old(self).relation().contains((batch_id, m)),
    {
        let mut kept: Vec<(u64, u64)> = Vec::new();
        let mut ids: Vec<u64> = Vec::new();
        let mut i: usize = 0;
        while i < self.links.len()
            invariant
                i <= self.links@.len(),
                self.msgs == old(self).msgs,
                self.links == old(self).links,
                forall|l: (u64, u64)| #[trigger]
                    kept@.contains(l) == (self.links@.take(i as int).contains(l) && l.0
                        != batch_id),
                forall|m: u64| #[trigger]
                    ids@.contains(m) == self.links@.take(i as int).contains((batch_id, m)),
            decreases self.links@.len() - i,
        {
            let link: (u64, u64) = self.links[i];
            let ghost prev = self.links@.take(i as int);
            let ghost now = self.links@.take(i + 1);
            let ghost kept0 = kept@;
            let ghost ids0 = ids@;
            proof {
                assert(now =~= prev.push(link));
                assert forall|l: (u64, u64)| #[trigger] now.contains(l) == (prev.contains(l) || l
                    == link) by {
                    if prev.contains(l) {
                        assert(now[prev.index_of(l)] == l);
                    }
                    if now.contains(l) && l != link {
                        assert(prev[now.index_of(l)] == l);
                    }
                    assert(now[i as int] == link);
                }
            }
            if link.0 == batch_id {
                ids.push(link.1);
                proof {
                    lemma_push_contains(ids0, link.1);
                }
            } else {
                kept.push(link);
                proof {
                    lemma_push_contains(kept0, link);
                }
            }
            i = i + 1;
        }
        proof {
            assert(self.links@.take(i as int) =~= self.links@);
        }
        self.links = kept;
        proof {
            assert(self.relation() =~= without_batch(old(self).relation(), batch_id));
        }
        ids
    }

    /// The batch was exported: takes off and returns the messages that had an entry in it and
    /// have none in any other batch.
    pub fn remove_batch_success(&mut self, batch_id: u64) -> (r: Vec<(u64, P)>)
        requires
            old(self).wf(),
        ensures
            final(self).wf(),
            final(self).relation() == without_batch(old(self).relation(), batch_id),
            r@ == only(
                old(self).messages(),
                completed(old(self).relation(), batch_id),
            ),
            final(self).messages() == without(
                old(self).messages(),
                completed(old(self).relation(), batch_id),
            ),
    {
        let ids: Vec<u64> = self.drop_batch(batch_id);
        let ghost rel0 = old(self).relation();
        let mut done: Vec<u64> = Vec::new();
        let mut i: usize = 0;
        while i < ids.len()
            invariant
                i <= ids@.len(),
                forall|m: u64| #[trigger]
                    done@.contains(m) == (ids@.take(i as int).contains(m) && !self.related(m)),
            decreases ids@.len() - i,
        {
            let m: u64 = ids[i];
            let ghost done0 = done@;
            if !self.is_related(m) {
                done.push(m);
                proof {
                    lemma_push_contains(done0, m);
                }
            }
            proof {
                assert(ids@.take(i + 1) =~= ids@.take(i as int).push(m));
                lemma_push_contains(ids@.take(i as int), m);
            }
            i = i + 1;
        }
        proof {
            assert(ids@.take(i as int) =~= ids@);
            let p = |m: u64| done@.contains(m);
            let p2 = completed(rel0, batch_id);
            assert forall|m: u64| #[trigger] p(m) == p2(m) by {
                if completed_by(rel0, batch_id, m) {
                    assert(!self.related(m)) by {
                        if self.related(m) {
                            let b = choose|b: u64| #[trigger] self.relation().contains((b, m));
                            assert(rel0.contains((b, m)));
                        }
                    }
                }
                if done@.contains(m) {
                    assert forall|b: u64| #[trigger] rel0.contains((b, m)) implies b == batch_id by {
                        if b != batch_id {
                            assert(self.relation().contains((b, m)));
                        }
                    }
                }
            }
            assert(p =~= p2);
            assert((|m: u64| !p(m)) =~= (|m: u64| !p2(m)));
        }
        self.extract(&done)
    }

    /// The batch could not be exported: takes off and returns all messages that had an entry
    /// in it, and forgets their entries in other batches too.
    pub fn remove_batch_failure(&mut self, batch_id: u64) -> (r: Vec<(u64, P)>)
        requires
            old(self).wf(),
        ensures
            final(self).wf(),
            final(self).relation() == without_touched(old(self).relation(), batch_id),
            r@ == only(
                old(self).messages(),
                touched(old(self).relation(), batch_id),
            ),
            final(self).messages() == without(
                old(self).messages(),
                touched(old(self).relation(), batch_id),
            ),
    {
        let ids: Vec<u64> = self.drop_batch(batch_id);
        let ghost rel0 = old(self).relation();
        let ghost rel1 = self.relation();
        let mut kept: Vec<(u64, u64)> = Vec::new();
        let mut i: usize = 0;
        while i < self.links.len()
            invariant
                i <= self.links@.len(),
                self.msgs@ == old(self).msgs@,
                self.links@.to_set() == rel1,
                forall|l: (u64, u64)| #[trigger]
                    kept@.contains(l) == (self.links@.take(i as int).contains(l)
                        && !ids@.contains(l.1)),
            decreases self.links@.len() - i,
        {
            let link: (u64, u64) = self.links[i];
            let ghost kept0 = kept@;
            if !holds_id(&ids, link.1) {
                kept.push(link);
                proof {
                    lemma_push_contains(kept0, link);
                }
            }
            proof {
                assert(self.links@.take(i + 1) =~= self.links@.take(i as int).push(link));
                lemma_push_contains(self.links@.take(i as int), link);
            }
            i = i + 1;
        }
        proof {
            assert(self.links@.take(i as int) =~= self.links@);
            let p = |m: u64| ids@.contains(m);
            let p2 = touched(rel0, batch_id);
            assert(p =~= p2);
            assert((|m: u64| !p(m)) =~= (|m: u64| !p2(m)));
            assert forall|l: (u64, u64)| #[trigger] kept@.contains(l) == (rel0.contains(l)
                && !rel0.contains((batch_id, l.1))) by {
                assert(self.links@.contains(l) == rel1.contains(l));
                assert(ids@.contains(l.1) == rel0.contains((batch_id, l.1)));
                if rel0.contains(l) && l.0 == batch_id {
                    assert(l == (batch_id, l.1));
                }
            }
        }
        self.links = kept;
        proof {
            assert(self.relation() =~= without_touched(rel0, batch_id));
        }
        self.extract(&ids)
    }

    /// Takes off and returns all waiting messages, and forgets everything.
    pub fn drain_all(&mut self) -> (r: Vec<(u64, P)>)
        requires
            old(self).wf(),
        ensures
            final(self).wf(),
            final(self).relation() == Set::<(u64, u64)>::empty(),
            final(self).messages().len() == 0,
            r@ == old(self).messages(),
    {
        let mut r: Vec<(u64, P)> = Vec::new();
        std::mem::swap(&mut r, &mut self.msgs);
        self.links = Vec::new();
        assert(self.relation() =~= Set::<(u64, u64)>::empty());
        r
    }

    /// The number of waiting messages.
    pub fn message_count(&self) -> (n: usize)
        ensures
            n == self.messages().len(),
    {
        self.msgs.len()
    }
}

/// The message has an entry in the batch and in no other.
pub open spec fn completed_by(relation: Set<(u64, u64)>, batch_id: u64, msg_id: u64) -> bool {
    relation.contains((batch_id, msg_id)) && forall|b: u64| #[trigger]
        relation.contains((b, msg_id)) ==> b == batch_id
}

proof fn lemma_push_contains<T>(s: Seq<T>, x: T)
    ensures
        forall|y: T| #[trigger] s.push(x).contains(y) == (s.contains(y) || y == x),
{
    assert forall|y: T| #[trigger] s.push(x).contains(y) == (s.contains(y) || y == x) by {
        if s.contains(y) {
            assert(s.push(x)[s.index_of(y)] == y);
        }
        if s.push(x).contains(y) && y != x {
            assert(s[s.push(x).index_of(y)] == y);
        }
        assert(s.push(x)[s.len() as int] == x);
    }
}

/// Whether `ids` holds `id`.
fn holds_id(ids: &Vec<u64>, id: u64) -> (r: bool)
    ensures
        r == ids@.contains(id),
{
    let mut i: usize = 0;
    while i < ids.len()
        invariant
            i <= ids@.len(),
            forall|k: int| 0 <= k < i ==> ids@[k] != id,
        decreases ids@.len() - i,
    {
        if ids[i] == id {
            assert(ids@[i as int] == id);
            return true;
        }
        i = i + 1;
    }
    false
}

} // verus!
