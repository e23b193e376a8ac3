//! Reachability, cycles and layers of a graph whose nodes are `0, 1, .., n - 1`.

use vstd::prelude::*;

use crate::walk;

verus! {

/// Every arc goes to a node.
pub open spec fn arcs_ok(adj: Seq<Vec<usize>>) -> bool {
    forall|i: int, k: int|
        0 <= i < adj.len() && 0 <= k < adj[i]@.len() ==> (#[trigger] adj[i]@[k]) < adj.len()
}

/// The arcs as a relation on node numbers.
pub open spec fn arcs(adj: Seq<Vec<usize>>) -> spec_fn(usize, usize) -> bool {
    |i: usize, j: usize| i < adj.len() && adj[i as int]@.contains(j)
}

pub open spec fn reached_from(adj: Seq<Vec<usize>>, starts: Seq<usize>, j: usize) -> bool {
    exists|k: int| 0 <= k < starts.len() && #[trigger] walk::reaches(arcs(adj), starts[k], j)
}

proof fn lemma_arc_bounded(adj: Seq<Vec<usize>>, i: usize, j: usize)
    requires
        arcs_ok(adj),
        arcs(adj)(i, j),
    ensures
        j < adj.len(),
{
    let k = adj[i as int]@.index_of(j);
    assert(adj[i as int]@[k] == j);
}

/// Marks `x` and puts it into the queue unless it is marked already.
fn visit(seen: &mut Vec<bool>, queue: &mut Vec<usize>, x: usize)
    requires
        x < old(seen)@.len(),
        old(queue)@.no_duplicates(),
        forall|k: int| 0 <= k < old(queue)@.len() ==> (#[trigger] old(queue)@[k]) < old(seen)@.len(),
        forall|j: usize|
            j < old(seen)@.len() ==> #[trigger] old(seen)@[j as int] == old(queue)@.contains(j),
    ensures
        final(seen)@.len() == old(seen)@.len(),
        final(queue)@.no_duplicates(),
        forall|k: int|
            0 <= k < final(queue)@.len() ==> (#[trigger] final(queue)@[k]) < final(seen)@.len(),
        forall|j: usize|
            j < final(seen)@.len() ==> #[trigger] final(seen)@[j as int] == final(queue)@.contains(
                j,
            ),
        old(queue)@.is_prefix_of(final(queue)@),
        forall|j: usize| #[trigger]
            final(queue)@.contains(j) ==> old(queue)@.contains(j) || j == x,
        final(seen)@[x as int],
{
    if !seen[x] {
        let ghost q0 = queue@;
        seen.set(x, true);
        queue.push(x);
        proof {
            assert(queue@ =~= q0.push(x));
            assert(queue@[q0.len() as int] == x);
            assert forall|j: usize| j < seen@.len() implies #[trigger] seen@[j as int]
                == queue@.contains(j) by {
                if q0.contains(j) {
                    assert(queue@[q0.index_of(j)] == j);
                }
                if queue@.contains(j) && j != x {
                    assert(q0[queue@.index_of(j)] == j);
                }
            }
            assert forall|j: usize| #[trigger] queue@.contains(j) implies q0.contains(j) || j
                == x by {
                if j != x {
                    assert(q0[queue@.index_of(j)] == j);
                }
            }
        }
    }
}

/// Marks the nodes that can be reached from `starts`, the starts themselves among them.
pub fn reach(adj: &Vec<Vec<usize>>, starts: &Vec<usize>) -> (seen: Vec<bool>)
    requires
        arcs_ok(adj@),
        forall|k: int| 0 <= k < starts@.len() ==> (#[trigger] starts@[k]) < adj@.len(),
    ensures
        seen@.len() == adj@.len(),
        forall|j: usize|
            j < adj@.len() ==> #[trigger] seen@[j as int] == reached_from(adj@, starts@, j),
{
    let n: usize = adj.len();
    let ghost step = arcs(adj@);
    let mut seen: Vec<bool> = Vec::new();
    let mut i: usize = 0;
    while i < n
        invariant
            i <= n,
            seen@.len() == i,
            forall|j: int| 0 <= j < i ==> !#[trigger] seen@[j],
        decreases n - i,
    {
        seen.push(false);
        i = i + 1;
    }
    let mut queue: Vec<usize> = Vec::new();
    let mut s: usize = 0;
    while s < starts.len()
        invariant
            n == adj@.len(),
            seen@.len() == n,
            s <= starts@.len(),
            forall|k: int| 0 <= k < starts@.len() ==> (#[trigger] starts@[k]) < n,
            queue@.no_duplicates(),
            forall|k: int| 0 <= k < queue@.len() ==> (#[trigger] queue@[k]) < n,
            forall|j: usize| j < n ==> #[trigger] seen@[j as int] == queue@.contains(j),
            forall|k: int| 0 <= k < s ==> queue@.contains(#[trigger] starts@[k]),
            forall|j: usize| #[trigger] queue@.contains(j) ==> reached_from(adj@, starts@, j),
        decreases starts@.len() - s,
    {
        let ghost q0 = queue@;
        let x: usize = starts[s];
        visit(&mut seen, &mut queue, x);
        proof {
            assert forall|k: int| 0 <= k < s + 1 implies queue@.contains(
                #[trigger] starts@[k],
            ) by {
                if k < s {
                    let y = starts@[k];
                    assert(q0.contains(y));
                    assert(queue@[q0.index_of(y)] == y);
                } else {
                    assert(seen@[x as int]);
                }
            }
            assert(walk::reaches(arcs(adj@), starts@[s as int], x));
            assert(reached_from(adj@, starts@, x));
        }
        s = s + 1;
    }
    let mut head: usize = 0;
    proof {
        walk::lemma_distinct_bounded(queue@, n as nat);
    }
    while head < queue.len()
        invariant
            n == adj@.len(),
            arcs_ok(adj@),
            step == arcs(adj@),
            seen@.len() == n,
            head <= queue@.len() <= n,
            queue@.no_duplicates(),
            forall|k: int| 0 <= k < queue@.len() ==> (#[trigger] queue@[k]) < n,
            forall|j: usize| j < n ==> #[trigger] seen@[j as int] == queue@.contains(j),
            forall|k: int| 0 <= k < starts@.len() ==> queue@.contains(#[trigger] starts@[k]),
            forall|j: usize| #[trigger] queue@.contains(j) ==> reached_from(adj@, starts@, j),
            forall|k: int, j: usize|
                0 <= k < head && #[trigger] step(queue@[k], j) ==> queue@.contains(j),
        decreases n - head,
    {
        let x: usize = queue[head];
        let ghost q1 = queue@;
        assert(queue@.contains(x));
        let mut k: usize = 0;
        while k < adj[x].len()
            invariant
                n == adj@.len(),
                arcs_ok(adj@),
                step == arcs(adj@),
                x < n,
                seen@.len() == n,
                k <= adj@[x as int]@.len(),
                head < q1.len(),
                q1[head as int] == x,
                q1.is_prefix_of(queue@),
                queue@.no_duplicates(),
                forall|l: int| 0 <= l < queue@.len() ==> (#[trigger] queue@[l]) < n,
                forall|j: usize| j < n ==> #[trigger] seen@[j as int] == queue@.contains(j),
                forall|l: int| 0 <= l < k ==> queue@.contains(#[trigger] adj@[x as int]@[l]),
                forall|j: usize| #[trigger] queue@.contains(j) ==> reached_from(adj@, starts@, j),
                queue@.contains(x),
            decreases adj@[x as int]@.len() - k,
        {
            let ghost q2 = queue@;
            let y: usize = adj[x][k];
            visit(&mut seen, &mut queue, y);
            proof {
                assert forall|j: usize| q2.contains(j) implies queue@.contains(j) by {
                    assert(queue@[q2.index_of(j)] == j);
                }
                assert(seen@[y as int]);
                assert(reached_from(adj@, starts@, y)) by {
                    let m = choose|m: int|
                        0 <= m < starts@.len() && #[trigger] walk::reaches(step, starts@[m], x);
                    assert(adj@[x as int]@[k as int] == y);
                    assert(step(x, y));
                    walk::lemma_step_leads(step, x, y);
                    if starts@[m] != x {
                        walk::lemma_leads_transitive(step, starts@[m], x, y);
                    }
                    assert(walk::reaches(step, starts@[m], y));
                }
            }
            k = k + 1;
        }
        proof {
            assert forall|l: int, j: usize|
                0 <= l < head + 1 && #[trigger] step(queue@[l], j) implies queue@.contains(j) by {
                assert(queue@[l] == q1[l]);
                if l < head {
                    assert(step(q1[l], j));
                    assert(q1.contains(j));
                    assert(queue@[q1.index_of(j)] == j);
                } else {
                    let m = adj@[x as int]@.index_of(j);
                    assert(adj@[x as int]@[m] == j);
                }
            }
            assert forall|l: int| 0 <= l < starts@.len() implies queue@.contains(
                #[trigger] starts@[l],
            ) by {
                let y = starts@[l];
                assert(q1.contains(y));
                assert(queue@[q1.index_of(y)] == y);
            }
            walk::lemma_distinct_bounded(queue@, n as nat);
        }
        head = head + 1;
    }
    proof {
        let keep = |x: usize| queue@.contains(x);
        assert forall|x: usize, y: usize| keep(x) && #[trigger] step(x, y) implies keep(y) by {
            let l = queue@.index_of(x);
            assert(step(queue@[l], y));
        }
        assert forall|j: usize| j < n implies #[trigger] seen@[j as int] == reached_from(
            adj@,
            starts@,
            j,
        ) by {
            if reached_from(adj@, starts@, j) {
                let m = choose|m: int|
                    0 <= m < starts@.len() && #[trigger] walk::reaches(step, starts@[m], j);
                assert(queue@.contains(starts@[m]));
                walk::lemma_closed(step, keep, starts@[m], j);
            }
        }
    }
    seen
}

/// Marks the nodes that lie on a cycle.
pub fn on_cycle(adj: &Vec<Vec<usize>>) -> (r: Vec<bool>)
    requires
        arcs_ok(adj@),
    ensures
        r@.len() == adj@.len(),
        forall|j: usize|
            j < adj@.len() ==> #[trigger] r@[j as int] == walk::leads_to(arcs(adj@), j, j),
{
    let n: usize = adj.len();
    let ghost step = arcs(adj@);
    let mut r: Vec<bool> = Vec::new();
    let mut i: usize = 0;
    while i < n
        invariant
            n == adj@.len(),
            arcs_ok(adj@),
            step == arcs(adj@),
            i <= n,
            r@.len() == i,
            forall|j: usize| j < i ==> #[trigger] r@[j as int] == walk::leads_to(step, j, j),
        decreases n - i,
    {
        let seen: Vec<bool> = reach(adj, &adj[i]);
        proof {
            let next = adj@[i as int]@;
            if walk::leads_to(step, i, i) {
                let c = walk::lemma_first_step(step, i, i);
                let k = next.index_of(c);
                assert(next[k] == c);
                assert(walk::reaches(step, next[k], i));
                assert(reached_from(adj@, next, i));
            }
            if reached_from(adj@, next, i) {
                let k = choose|k: int|
                    0 <= k < next.len() && #[trigger] walk::reaches(step, next[k], i);
                assert(next.contains(next[k]));
                assert(step(i, next[k]));
                walk::lemma_step_leads(step, i, next[k]);
                if next[k] != i {
                    walk::lemma_leads_transitive(step, i, next[k], i);
                }
            }
        }
        r.push(seen[i]);
        i = i + 1;
    }
    r
}

/// The numbers in ascending order.
pub open spec fn increasing(s: Seq<usize>) -> bool {
    forall|i: int, j: int| 0 <= i < j < s.len() ==> #[trigger] s[i] < #[trigger] s[j]
}

/// Layer `k` holds exactly the nodes whose longest walk has `k` steps.
pub open spec fn is_layer(adj: Seq<Vec<usize>>, layer: Seq<usize>, k: nat) -> bool {
    &&& increasing(layer)
    &&& layer.len() > 0
    &&& forall|i: int| 0 <= i < layer.len() ==> (#[trigger] layer[i]) < adj.len()
    &&& forall|x: usize|
        x < adj.len() ==> (#[trigger] layer.contains(x)) == walk::longest_walk(arcs(adj), x, k)
}

pub open spec fn in_some_layer(layers: Seq<Vec<usize>>, x: usize) -> bool {
    exists|k: int| 0 <= k < layers.len() && (#[trigger] layers[k])@.contains(x)
}

/// All arcs of `x` go to marked nodes.
fn all_marked(adj: &Vec<Vec<usize>>, marked: &Vec<bool>, x: usize) -> (r: bool)
    requires
        arcs_ok(adj@),
        x < adj@.len(),
        marked@.len() == adj@.len(),
    ensures
        r == (forall|y: usize| #[trigger] arcs(adj@)(x, y) ==> marked@[y as int]),
{
    let mut k: usize = 0;
    while k < adj[x].len()
        invariant
            arcs_ok(adj@),
            x < adj@.len(),
            marked@.len() == adj@.len(),
            k <= adj@[x as int]@.len(),
            forall|l: int| 0 <= l < k ==> marked@[#[trigger] adj@[x as int]@[l] as int],
        decreases adj@[x as int]@.len() - k,
    {
        let y: usize = adj[x][k];
        assert(adj@[x as int]@[k as int] == y);
        if !marked[y] {
            assert(adj@[x as int]@.contains(y));
            assert(arcs(adj@)(x, y));
            return false;
        }
        k = k + 1;
    }
    assert forall|y: usize| #[trigger] arcs(adj@)(x, y) implies marked@[y as int] by {
        let l = adj@[x as int]@.index_of(y);
        assert(adj@[x as int]@[l] == y);
    }
    true
}

/// Groups the nodes of an acyclic graph by the length of their longest walk.
pub fn layers(adj: &Vec<Vec<usize>>) -> (r: Vec<Vec<usize>>)
    requires
        arcs_ok(adj@),
        forall|c: usize| c < adj@.len() ==> !#[trigger] walk::leads_to(arcs(adj@), c, c),
    ensures
        forall|k: int| 0 <= k < r@.len() ==> is_layer(adj@, (#[trigger] r@[k])@, k as nat),
        forall|x: usize| x < adj@.len() ==> #[trigger] in_some_layer(r@, x),
{
    let n: usize = adj.len();
    let ghost step = arcs(adj@);
    let mut done: Vec<bool> = Vec::new();
    let mut i: usize = 0;
    while i < n
        invariant
            i <= n,
            done@.len() == i,
            forall|j: int| 0 <= j < i ==> !#[trigger] done@[j],
        decreases n - i,
    {
        done.push(false);
        i = i + 1;
    }
    let mut out: Vec<Vec<usize>> = Vec::new();
    assert forall|x: usize| x < n && !#[trigger] done@[x as int] implies walk::walks(step, x, 0) by {
        walk::lemma_walks_zero(step, x);
    }
    loop
        invariant
            n == adj@.len(),
            step == arcs(adj@),
            arcs_ok(adj@),
            forall|c: usize| c < adj@.len() ==> !#[trigger] walk::leads_to(step, c, c),
            done@.len() == n,
            forall|k: int| 0 <= k < out@.len() ==> is_layer(adj@, (#[trigger] out@[k])@, k as nat),
            forall|x: usize| x < n ==> #[trigger] done@[x as int] == in_some_layer(out@, x),
            forall|x: usize|
                x < n && !#[trigger] done@[x as int] ==> walk::walks(step, x, out@.len() as nat),
            out@.len() <= n,
        ensures
            forall|k: int| 0 <= k < out@.len() ==> is_layer(adj@, (#[trigger] out@[k])@, k as nat),
            forall|x: usize| x < n ==> #[trigger] in_some_layer(out@, x),
        decreases n - out@.len(),
    {
        let ghost r = out@.len() as nat;
        let ghost done0 = done@;
        let ghost out0 = out@;
        let mut layer: Vec<usize> = Vec::new();
        let mut x: usize = 0;
        let mut open: bool = false;
        while x < n
            invariant
                n == adj@.len(),
                step == arcs(adj@),
                arcs_ok(adj@),
                done@.len() == n,
                x <= n,
                increasing(layer@),
                forall|k: int| 0 <= k < layer@.len() ==> (#[trigger] layer@[k]) < x,
                forall|y: usize|
                    y < x ==> (#[trigger] layer@.contains(y)) == (!done@[y as int] && (forall|
                        z: usize,
                    | #[trigger]
                        step(y, z) ==> done@[z as int])),
                open == (exists|y: usize| y < x && !#[trigger] done@[y as int]),
            decreases n - x,
        {
            if !done[x] {
                assert(!done@[x as int]);
                open = true;
                if all_marked(adj, &done, x) {
                    let ghost l0 = layer@;
                    layer.push(x);
                    proof {
                        assert(layer@ =~= l0.push(x));
                        assert(layer@[l0.len() as int] == x);
                        assert forall|y: usize| y < x implies (#[trigger] layer@.contains(y))
                            == l0.contains(y) by {
                            if l0.contains(y) {
                                assert(layer@[l0.index_of(y)] == y);
                            }
                            if layer@.contains(y) {
                                assert(l0[layer@.index_of(y)] == y);
                            }
                        }
                    }
                }
            }
            x = x + 1;
        }
        if !open {
            assert forall|y: usize| y < n implies #[trigger] in_some_layer(out@, y) by {
                assert(done@[y as int]);
            }
            break;
        }
        proof {
            lemma_next_layer(adj@, done0, out0, layer@);
        }
        let mut k: usize = 0;
        while k < layer.len()
            invariant
                done@.len() == n,
                done0.len() == n,
                k <= layer@.len(),
                forall|m: int| 0 <= m < layer@.len() ==> (#[trigger] layer@[m]) < n,
                forall|y: usize|
                    y < n ==> #[trigger] done@[y as int] == (done0[y as int] || layer@.take(
                        k as int,
                    ).contains(y)),
            decreases layer@.len() - k,
        {
            let y: usize = layer[k];
            done.set(y, true);
            proof {
                assert(layer@.take(k + 1) =~= layer@.take(k as int).push(y));
                assert(layer@.take(k + 1)[k as int] == y);
                assert forall|z: usize| z < n implies #[trigger] done@[z as int] == (
                done0[z as int] || layer@.take(k + 1).contains(z)) by {
                    if layer@.take(k as int).contains(z) {
                        assert(layer@.take(k + 1)[layer@.take(k as int).index_of(z)] == z);
                    }
                    if layer@.take(k + 1).contains(z) && z != y {
                        assert(layer@.take(k as int)[layer@.take(k + 1).index_of(z)] == z);
                    }
                }
            }
            k = k + 1;
        }
        proof {
            assert(layer@.take(k as int) =~= layer@);
        }
        out.push(layer);
        proof {
            let l = out@[r as int]@;
            assert(out@ =~= out0.push(out@[r as int]));
            assert forall|y: usize| y < n implies #[trigger] done@[y as int] == in_some_layer(
                out@,
                y,
            ) by {
                if done0[y as int] {
                    let m = choose|m: int|
                        0 <= m < out0.len() && (#[trigger] out0[m])@.contains(y);
                    assert(out@[m]@.contains(y));
                }
                if l.contains(y) {
                    assert(out@[r as int]@.contains(y));
                }
                if in_some_layer(out@, y) {
                    let m = choose|m: int| 0 <= m < out@.len() && (#[trigger] out@[m])@.contains(y);
                    if m < r {
                        assert(out0[m]@.contains(y));
                        assert(in_some_layer(out0, y));
                    }
                }
            }
        }
    }
    out
}

/// One round of `layers`: the unplaced nodes all of whose arcs go to placed ones are those
/// whose longest walk is as long as there are layers so far.
proof fn lemma_next_layer(
    adj: Seq<Vec<usize>>,
    done: Seq<bool>,
    out: Seq<Vec<usize>>,
    layer: Seq<usize>,
)
    requires
        arcs_ok(adj),
        forall|c: usize| c < adj.len() ==> !#[trigger] walk::leads_to(arcs(adj), c, c),
        done.len() == adj.len(),
        adj.len() <= usize::MAX,
        forall|k: int| 0 <= k < out.len() ==> is_layer(adj, (#[trigger] out[k])@, k as nat),
        forall|x: usize| x < adj.len() ==> #[trigger] done[x as int] == in_some_layer(out, x),
        forall|x: usize|
            x < adj.len() && !#[trigger] done[x as int] ==> walk::walks(arcs(adj), x, out.len() as nat),
        exists|y: usize| y < adj.len() && !#[trigger] done[y as int],
        increasing(layer),
        forall|k: int| 0 <= k < layer.len() ==> (#[trigger] layer[k]) < adj.len(),
        forall|y: usize|
            y < adj.len() ==> (#[trigger] layer.contains(y)) == (!done[y as int] && (forall|
                z: usize,
            | #[trigger]
                arcs(adj)(y, z) ==> done[z as int])),
    ensures
        is_layer(adj, layer, out.len() as nat),
        out.len() < adj.len(),
        forall|x: usize|
            x < adj.len() && !(#[trigger] done[x as int] || layer.contains(x)) ==> walk::walks(
                arcs(adj),
                x,
                (out.len() + 1) as nat,
            ),
{
    let n = adj.len();
    let step = arcs(adj);
    let r = out.len() as nat;
    assert forall|x: usize, y: usize| #[trigger] step(x, y) implies y < n by {
        lemma_arc_bounded(adj, x, y);
    }
    let y0 = choose|y: usize| y < adj.len() && !#[trigger] done[y as int];
    if r >= n {
        walk::lemma_walks_shorter(step, y0, r, n);
        walk::lemma_long_walk_cycles(step, y0, n);
    }
    // A placed node has no walk of `r` steps.
    assert forall|x: usize| x < n && #[trigger] done[x as int] implies !walk::walks(step, x, r) by {
        let k = choose|k: int| 0 <= k < out.len() && (#[trigger] out[k])@.contains(x);
        assert(walk::longest_walk(step, x, k as nat));
        if walk::walks(step, x, r) {
            walk::lemma_walks_shorter(step, x, r, (k + 1) as nat);
        }
    }
    assert forall|x: usize| x < n implies (#[trigger] layer.contains(x)) == walk::longest_walk(
        step,
        x,
        r,
    ) by {
        if layer.contains(x) {
            if walk::walks(step, x, r + 1) {
                let z = walk::lemma_walks_rest(step, x, r);
                assert(step(x, z));
                assert(done[z as int]);
            }
        }
        if walk::longest_walk(step, x, r) {
            assert forall|z: usize| #[trigger] step(x, z) implies done[z as int] by {
                if !done[z as int] {
                    walk::lemma_walks_prepend(step, x, z, r);
                }
            }
        }
    }
    assert forall|x: usize|
        x < n && !(#[trigger] done[x as int] || layer.contains(x)) implies walk::walks(
        step,
        x,
        (r + 1) as nat,
    ) by {
        let z = choose|z: usize| #[trigger] step(x, z) && !done[z as int];
        walk::lemma_walks_prepend(step, x, z, r);
    }
    if layer.len() == 0 {
        let keep = |x: usize| x < n && !done[x as int];
        assert forall|x: usize| #[trigger] keep(x) implies exists|y: usize|
            keep(y) && #[trigger] step(x, y) by {
            assert(!layer.contains(x));
            let z = choose|z: usize| #[trigger] step(x, z) && !done[z as int];
            assert(keep(z) && step(x, z));
        }
        assert(keep(y0));
        walk::lemma_endless(step, keep, y0, n);
        walk::lemma_long_walk_cycles(step, y0, n);
    }
}

/// The graph with every arc turned round.
pub fn turned(adj: &Vec<Vec<usize>>) -> (r: Vec<Vec<usize>>)
    requires
        arcs_ok(adj@),
    ensures
        r@.len() == adj@.len(),
        arcs_ok(r@),
        forall|a: usize, b: usize|
            a < adj@.len() && b < adj@.len() ==> #[trigger] arcs(r@)(a, b) == arcs(adj@)(b, a),
{
    let n: usize = adj.len();
    let mut r: Vec<Vec<usize>> = Vec::new();
    let mut a: usize = 0;
    while a < n
        invariant
            n == adj@.len(),
            arcs_ok(adj@),
            a <= n,
            r@.len() == a,
            forall|c: int, k: int|
                0 <= c < a && 0 <= k < r@[c]@.len() ==> (#[trigger] r@[c]@[k]) < n,
            forall|c: int, b: usize|
                0 <= c < a && b < n ==> (#[trigger] r@[c]@.contains(b)) == adj@[b as int]@.contains(
                    c as usize,
                ),
        decreases n - a,
    {
        let mut row: Vec<usize> = Vec::new();
        let mut b: usize = 0;
        while b < n
            invariant
                n == adj@.len(),
                a < n,
                b <= n,
                forall|k: int| 0 <= k < row@.len() ==> (#[trigger] row@[k]) < b,
                forall|c: usize|
                    c < b ==> (#[trigger] row@.contains(c)) == adj@[c as int]@.contains(a),
            decreases n - b,
        {
            let ghost row0 = row@;
            if holds(&adj[b], a) {
                row.push(b);
                proof {
                    assert(row@[row0.len() as int] == b);
                    assert forall|c: usize| c < b implies (#[trigger] row@.contains(c))
                        == row0.contains(c) by {
                        if row0.contains(c) {
                            assert(row@[row0.index_of(c)] == c);
                        }
                        if row@.contains(c) {
                            assert(row0[row@.index_of(c)] == c);
                        }
                    }
                }
            }
            b = b + 1;
        }
        r.push(row);
        a = a + 1;
    }
    r
}

/// Whether `v` holds `x`.
fn holds(v: &Vec<usize>, x: usize) -> (r: bool)
    ensures
        r == v@.contains(x),
{
    let mut i: usize = 0;
    while i < v.len()
        invariant
            i <= v@.len(),
            forall|k: int| 0 <= k < i ==> v@[k] != x,
        decreases v@.len() - i,
    {
        if v[i] == x {
            assert(v@[i as int] == x);
            return true;
        }
        i = i + 1;
    }
    false
}

} // verus!
