//! Walks along a relation: what can be reached, and how far one can go.

use vstd::prelude::*;

verus! {

pub open spec fn step_at<N>(step: spec_fn(N, N) -> bool, w: Seq<N>, i: int) -> bool {
    step(w[i], w[i + 1])
}

/// `w` is a sequence of nodes, each one step from the one before.
pub open spec fn is_walk<N>(step: spec_fn(N, N) -> bool, w: Seq<N>) -> bool {
    w.len() >= 1 && forall|i: int| 0 <= i < w.len() - 1 ==> #[trigger] step_at(step, w, i)
}

pub open spec fn connects<N>(step: spec_fn(N, N) -> bool, w: Seq<N>, a: N, b: N) -> bool {
    is_walk(step, w) && w.len() >= 2 && w[0] == a && w.last() == b
}

/// One or more steps lead from `a` to `b`.
pub open spec fn leads_to<N>(step: spec_fn(N, N) -> bool, a: N, b: N) -> bool {
    exists|w: Seq<N>| #[trigger] connects(step, w, a, b)
}

/// No step or more lead from `a` to `b`.
pub open spec fn reaches<N>(step: spec_fn(N, N) -> bool, a: N, b: N) -> bool {
    a == b || leads_to(step, a, b)
}

pub open spec fn is_walk_from<N>(step: spec_fn(N, N) -> bool, w: Seq<N>, a: N, k: nat) -> bool {
    is_walk(step, w) && w.len() == k + 1 && w[0] == a
}

/// Some walk from `a` has `k` steps.
pub open spec fn walks<N>(step: spec_fn(N, N) -> bool, a: N, k: nat) -> bool {
    exists|w: Seq<N>| #[trigger] is_walk_from(step, w, a, k)
}

/// The longest walk from `a` has `k` steps.
pub open spec fn longest_walk<N>(step: spec_fn(N, N) -> bool, a: N, k: nat) -> bool {
    walks(step, a, k) && !walks(step, a, k + 1)
}

/// The relation read backwards.
pub open spec fn reversed<N>(step: spec_fn(N, N) -> bool) -> spec_fn(N, N) -> bool {
    |a: N, b: N| step(b, a)
}

/// Nothing leads back to itself.
pub open spec fn acyclic<N>(step: spec_fn(N, N) -> bool) -> bool {
    forall|a: N| !#[trigger] leads_to(step, a, a)
}

pub proof fn lemma_step_leads<N>(step: spec_fn(N, N) -> bool, a: N, b: N)
    requires
        step(a, b),
    ensures
        leads_to(step, a, b),
{
    let w = seq![a, b];
    assert(step_at(step, w, 0));
    assert(connects(step, w, a, b));
}

pub proof fn lemma_leads_transitive<N>(step: spec_fn(N, N) -> bool, a: N, b: N, c: N)
    requires
        leads_to(step, a, b),
        leads_to(step, b, c),
    ensures
        leads_to(step, a, c),
{
    let u = choose|w: Seq<N>| #[trigger] connects(step, w, a, b);
    let v = choose|w: Seq<N>| #[trigger] connects(step, w, b, c);
    let w = u + v.drop_first();
    assert forall|i: int| 0 <= i < w.len() - 1 implies #[trigger] step_at(step, w, i) by {
        if i < u.len() - 1 {
            assert(step_at(step, u, i));
        } else {
            assert(step_at(step, v, i - (u.len() - 1)));
        }
    }
    assert(connects(step, w, a, c));
}

/// What leads to `b` takes a first step and goes on from there.
pub proof fn lemma_first_step<N>(step: spec_fn(N, N) -> bool, a: N, b: N) -> (c: N)
    requires
        leads_to(step, a, b),
    ensures
        step(a, c),
        reaches(step, c, b),
{
    let w = choose|w: Seq<N>| #[trigger] connects(step, w, a, b);
    assert(step_at(step, w, 0));
    if w.len() > 2 {
        let v = w.drop_first();
        assert forall|i: int| 0 <= i < v.len() - 1 implies #[trigger] step_at(step, v, i) by {
            assert(step_at(step, w, i + 1));
        }
        assert(connects(step, v, w[1], b));
    }
    w[1]
}

/// A property that every step preserves holds of all that can be reached.
pub proof fn lemma_closed<N>(
    step: spec_fn(N, N) -> bool,
    keep: spec_fn(N) -> bool,
    a: N,
    b: N,
)
    requires
        forall|x: N, y: N| keep(x) && #[trigger] step(x, y) ==> keep(y),
        keep(a),
        reaches(step, a, b),
    ensures
        keep(b),
{
    if a != b {
        let w = choose|w: Seq<N>| #[trigger] connects(step, w, a, b);
        lemma_closed_along(step, keep, w, w.len() - 1);
    }
}

proof fn lemma_closed_along<N>(
    step: spec_fn(N, N) -> bool,
    keep: spec_fn(N) -> bool,
    w: Seq<N>,
    i: int,
)
    requires
        forall|x: N, y: N| keep(x) && #[trigger] step(x, y) ==> keep(y),
        is_walk(step, w),
        keep(w[0]),
        0 <= i < w.len(),
    ensures
        keep(w[i]),
    decreases i,
{
    if i > 0 {
        lemma_closed_along(step, keep, w, i - 1);
        assert(step_at(step, w, i - 1));
    }
}

/// A walk carries over along a map that preserves steps.
pub proof fn lemma_leads_mapped<M, N>(
    from: spec_fn(M, M) -> bool,
    to: spec_fn(N, N) -> bool,
    f: spec_fn(M) -> N,
    a: M,
    b: M,
)
    requires
        forall|x: M, y: M| #[trigger] from(x, y) ==> to(f(x), f(y)),
        leads_to(from, a, b),
    ensures
        leads_to(to, f(a), f(b)),
{
    let w = choose|w: Seq<M>| #[trigger] connects(from, w, a, b);
    let v = w.map_values(f);
    assert forall|i: int| 0 <= i < v.len() - 1 implies #[trigger] step_at(to, v, i) by {
        assert(step_at(from, w, i));
    }
    assert(connects(to, v, f(a), f(b)));
}

pub proof fn lemma_walks_mapped<M, N>(
    from: spec_fn(M, M) -> bool,
    to: spec_fn(N, N) -> bool,
    f: spec_fn(M) -> N,
    a: M,
    k: nat,
)
    requires
        forall|x: M, y: M| #[trigger] from(x, y) ==> to(f(x), f(y)),
        walks(from, a, k),
    ensures
        walks(to, f(a), k),
{
    let w = choose|w: Seq<M>| #[trigger] is_walk_from(from, w, a, k);
    let v = w.map_values(f);
    assert forall|i: int| 0 <= i < v.len() - 1 implies #[trigger] step_at(to, v, i) by {
        assert(step_at(from, w, i));
    }
    assert(is_walk_from(to, v, f(a), k));
}

/// Reading the relation backwards turns every walk round.
pub proof fn lemma_leads_reversed<N>(step: spec_fn(N, N) -> bool, a: N, b: N)
    ensures
        leads_to(step, a, b) == leads_to(reversed(step), b, a),
{
    if leads_to(step, a, b) {
        lemma_turn_round(step, a, b);
    }
    if leads_to(reversed(step), b, a) {
        lemma_turn_round(reversed(step), b, a);
        let back = reversed(reversed(step));
        assert(forall|x: N, y: N| #[trigger] back(x, y) ==> step(x, y));
        lemma_leads_mapped(back, step, |x: N| x, a, b);
    }
}

proof fn lemma_turn_round<N>(step: spec_fn(N, N) -> bool, a: N, b: N)
    requires
        leads_to(step, a, b),
    ensures
        leads_to(reversed(step), b, a),
{
    let w = choose|w: Seq<N>| #[trigger] connects(step, w, a, b);
    let v = w.reverse();
    assert forall|i: int| 0 <= i < v.len() - 1 implies #[trigger] step_at(reversed(step), v, i) by {
        assert(step_at(step, w, w.len() - 2 - i));
    }
    assert(connects(reversed(step), v, b, a));
}

/// A walk can be cut short.
pub proof fn lemma_walks_shorter<N>(step: spec_fn(N, N) -> bool, a: N, k: nat, j: nat)
    requires
        walks(step, a, k),
        j <= k,
    ensures
        walks(step, a, j),
{
    let w = choose|w: Seq<N>| #[trigger] is_walk_from(step, w, a, k);
    let v = w.take(j as int + 1);
    assert forall|i: int| 0 <= i < v.len() - 1 implies #[trigger] step_at(step, v, i) by {
        assert(step_at(step, w, i));
    }
    assert(is_walk_from(step, v, a, j));
}

pub proof fn lemma_walks_zero<N>(step: spec_fn(N, N) -> bool, a: N)
    ensures
        walks(step, a, 0),
{
    assert(is_walk_from(step, seq![a], a, 0));
}

/// A step in front makes a walk one step longer.
pub proof fn lemma_walks_prepend<N>(step: spec_fn(N, N) -> bool, a: N, b: N, k: nat)
    requires
        step(a, b),
        walks(step, b, k),
    ensures
        walks(step, a, k + 1),
{
    let w = choose|w: Seq<N>| #[trigger] is_walk_from(step, w, b, k);
    let v = seq![a] + w;
    assert forall|i: int| 0 <= i < v.len() - 1 implies #[trigger] step_at(step, v, i) by {
        if i > 0 {
            assert(step_at(step, w, i - 1));
        }
    }
    assert(is_walk_from(step, v, a, k + 1));
}

/// A walk of more than no step goes on from its first step.
pub proof fn lemma_walks_rest<N>(step: spec_fn(N, N) -> bool, a: N, k: nat) -> (b: N)
    requires
        walks(step, a, k + 1),
    ensures
        step(a, b),
        walks(step, b, k),
{
    let w = choose|w: Seq<N>| #[trigger] is_walk_from(step, w, a, k + 1);
    let v = w.drop_first();
    assert(step_at(step, w, 0));
    assert forall|i: int| 0 <= i < v.len() - 1 implies #[trigger] step_at(step, v, i) by {
        assert(step_at(step, w, i + 1));
    }
    assert(is_walk_from(step, v, w[1], k));
    w[1]
}

/// The longest walk from a node has one length only.
pub proof fn lemma_longest_unique<N>(step: spec_fn(N, N) -> bool, a: N, j: nat, k: nat)
    requires
        longest_walk(step, a, j),
        longest_walk(step, a, k),
    ensures
        j == k,
{
    if j < k {
        lemma_walks_shorter(step, a, k, j + 1);
    }
    if k < j {
        lemma_walks_shorter(step, a, j, k + 1);
    }
}

/// Distinct numbers below `n` are at most `n` many.
pub proof fn lemma_distinct_bounded(s: Seq<usize>, n: nat)
    requires
        s.no_duplicates(),
        forall|i: int| 0 <= i < s.len() ==> (#[trigger] s[i]) < n,
    ensures
        s.len() <= n,
{
    let t = s.map_values(|x: usize| x as int);
    assert forall|i: int, j: int| 0 <= i < t.len() && 0 <= j < t.len() && i != j implies t[i]
        != t[j] by {
        assert(s[i] != s[j]);
    }
    t.unique_seq_to_set();
    let all = vstd::set_lib::set_int_range(0, n as int);
    vstd::set_lib::lemma_int_range(0, n as int);
    assert(t.to_set().subset_of(all)) by {
        assert forall|x: int| t.to_set().contains(x) implies all.contains(x) by {
            let i = t.index_of(x);
            assert(s[i] < n);
        }
    }
    vstd::set_lib::lemma_len_subset(t.to_set(), all);
}

/// Among `n` nodes, a walk of `n` steps meets some node twice, so that a cycle exists.
pub proof fn lemma_long_walk_cycles(step: spec_fn(usize, usize) -> bool, a: usize, n: nat)
    requires
        walks(step, a, n),
        a < n,
        forall|x: usize, y: usize| #[trigger] step(x, y) ==> y < n,
    ensures
        exists|c: usize| c < n && #[trigger] leads_to(step, c, c),
{
    let w = choose|w: Seq<usize>| #[trigger] is_walk_from(step, w, a, n);
    assert forall|i: int| 0 <= i < w.len() implies (#[trigger] w[i]) < n by {
        if i > 0 {
            assert(step_at(step, w, i - 1));
        }
    }
    if w.no_duplicates() {
        lemma_distinct_bounded(w, n);
    }
    let (i, j) = choose|i: int, j: int|
        0 <= i < w.len() && 0 <= j < w.len() && i != j && w[i] == w[j];
    let (lo, hi) = if i < j {
        (i, j)
    } else {
        (j, i)
    };
    let v = w.subrange(lo, hi + 1);
    assert forall|k: int| 0 <= k < v.len() - 1 implies #[trigger] step_at(step, v, k) by {
        assert(step_at(step, w, lo + k));
    }
    assert(connects(step, v, w[lo], w[lo]));
    assert(w[lo] < n);
    assert(leads_to(step, w[lo], w[lo]));
}

/// If every node with a property steps to one with it, walks of any length start there.
pub proof fn lemma_endless<N>(
    step: spec_fn(N, N) -> bool,
    keep: spec_fn(N) -> bool,
    a: N,
    k: nat,
)
    requires
        keep(a),
        forall|x: N| #[trigger] keep(x) ==> exists|y: N| keep(y) && #[trigger] step(x, y),
    ensures
        walks(step, a, k),
    decreases k,
{
    if k == 0 {
        lemma_walks_zero(step, a);
    } else {
        let b = choose|y: N| keep(y) && #[trigger] step(a, y);
        lemma_endless(step, keep, b, (k - 1) as nat);
        lemma_walks_prepend(step, a, b, (k - 1) as nat);
    }
}

} // verus!
