//! Deterministic dependency graph algorithms shared by configuration and runtime wiring.

use vstd::prelude::*;

use crate::digraph;
use crate::order;
use crate::order::{OrderedKey, OrderedSet};
use crate::walk;

verus! {

/// A directed graph as a set of nodes and a set of arcs from consumer to dependency.
#[verifier::ext_equal]
#[verifier::reject_recursive_types(N)]
pub struct GraphView<N> {
    pub nodes: Set<N>,
    pub arcs: Set<(N, N)>,
}

impl<N> GraphView<N> {
    pub open spec fn empty() -> Self {
        GraphView { nodes: Set::empty(), arcs: Set::empty() }
    }

    pub open spec fn with_node(self, n: N) -> Self {
        GraphView { nodes: self.nodes.insert(n), arcs: self.arcs }
    }

    pub open spec fn with_dependency(self, consumer: N, dependency: N) -> Self {
        GraphView {
            nodes: self.nodes.insert(consumer).insert(dependency),
            arcs: self.arcs.insert((consumer, dependency)),
        }
    }

    /// The graph after adding a dependency of `consumer` on each of `dependencies`.
    pub open spec fn with_dependencies(self, consumer: N, dependencies: Seq<N>) -> Self
        decreases dependencies.len(),
    {
        if dependencies.len() == 0 {
            self.with_node(consumer)
        } else {
            self.with_dependencies(consumer, dependencies.drop_last()).with_dependency(
                consumer,
                dependencies.last(),
            )
        }
    }

    /// One step goes from a consumer to one of its dependencies.
    pub open spec fn step(self) -> spec_fn(N, N) -> bool {
        |a: N, b: N| self.arcs.contains((a, b))
    }

    /// Both ends of every arc are nodes.
    pub open spec fn closed_arcs(self) -> bool {
        forall|a: N, b: N| #[trigger]
            self.arcs.contains((a, b)) ==> self.nodes.contains(a) && self.nodes.contains(b)
    }

    /// The same nodes, with every arc turned round.
    pub open spec fn turned(self) -> Self {
        GraphView {
            nodes: self.nodes,
            arcs: Set::new(|p: (N, N)| self.arcs.contains((p.1, p.0))),
        }
    }

    /// The nodes `live`, with the arcs among them.
    pub open spec fn restricted_to(self, live: Set<N>) -> Self {
        GraphView {
            nodes: live,
            arcs: self.arcs.filter(|p: (N, N)| live.contains(p.0) && live.contains(p.1)),
        }
    }
}

/// `layers[k]` lists the nodes whose longest walk has `k` steps; each node stands in a layer
/// and no layer is empty.
pub open spec fn layered_by<K: OrderedKey>(
    layers: Seq<Vec<K>>,
    nodes: Set<K::V>,
    step: spec_fn(K::V, K::V) -> bool,
) -> bool {
    &&& forall|k: int|
        0 <= k < layers.len() ==> {
            &&& (#[trigger] layers[k])@.len() > 0
            &&& order::lists::<K>(
                order::views(layers[k]@),
                |x: K::V| nodes.contains(x) && walk::longest_walk(step, x, k as nat),
            )
        }
    &&& forall|x: K::V| #[trigger] nodes.contains(x) ==> in_layer(layers, x)
}

pub open spec fn stands_in<K: View>(layers: Seq<Vec<K>>, x: K::V, k: int) -> bool {
    0 <= k < layers.len() && order::views(layers[k]@).contains(x)
}

pub open spec fn in_layer<K: View>(layers: Seq<Vec<K>>, x: K::V) -> bool {
    exists|k: int| #[trigger] stands_in(layers, x, k)
}

/// A directed graph whose edges point from a consumer to its dependencies.
pub struct DependencyGraph<K: OrderedKey> {
    nodes: OrderedSet<K>,
    dependencies: Vec<OrderedSet<K>>,
}

impl<K: OrderedKey> View for DependencyGraph<K> {
    type V = GraphView<K::V>;

    closed spec fn view(&self) -> GraphView<K::V> {
        GraphView {
            nodes: self.nodes@.to_set(),
            arcs: Set::new(|p: (K::V, K::V)| self.has_arc(p.0, p.1)),
        }
    }
}

impl<K: OrderedKey> DependencyGraph<K> {
    closed spec fn has_arc_at(&self, i: int, a: K::V, b: K::V) -> bool {
        0 <= i < self.nodes@.len() && self.nodes@[i] == a && self.dependencies@[i]@.contains(b)
    }

    closed spec fn has_arc(&self, a: K::V, b: K::V) -> bool {
        exists|i: int| #[trigger] self.has_arc_at(i, a, b)
    }

    /// Nodes and dependency lists are sorted and match, and every dependency is a node.
    pub closed spec fn wf(&self) -> bool {
        &&& self.nodes.wf()
        &&& self.dependencies@.len() == self.nodes@.len()
        &&& forall|i: int|
            0 <= i < self.dependencies@.len() ==> (#[trigger] self.dependencies@[i]).wf()
        &&& forall|i: int, b: K::V|
            0 <= i < self.dependencies@.len() && #[trigger] self.dependencies@[i]@.contains(b)
                ==> self.nodes@.contains(b)
    }

    /// Creates an empty graph.
    pub fn new() -> (r: Self)
        ensures
            r.wf(),
            r@ == GraphView::<K::V>::empty(),
    {
        let r = DependencyGraph { nodes: OrderedSet::new(), dependencies: Vec::new() };
        proof {
            assert(r@.nodes =~= Set::<K::V>::empty());
            assert(r@.arcs =~= Set::<(K::V, K::V)>::empty());
        }
        r
    }

    /// The arcs only join nodes.
    pub proof fn arcs_join_nodes(&self)
        requires
            self.wf(),
        ensures
            self@.closed_arcs(),
    {
        assert forall|a: K::V, b: K::V| #[trigger] self@.arcs.contains((a, b)) implies self@.nodes.contains(
            a,
        ) && self@.nodes.contains(b) by {
            let i = choose|i: int| #[trigger] self.has_arc_at(i, a, b);
            assert(self.nodes@[i] == a);
            assert(self.dependencies@[i]@.contains(b));
        }
    }

    /// Adds a node without any dependencies.
    pub fn add_node(&mut self, node: K)
        requires
            old(self).wf(),
        ensures
            final(self).wf(),
            final(self)@ == old(self)@.with_node(node@),
    {
        let _ = self.enter(&node);
    }

    /// The position of `node`, which becomes a node if it is none.
    fn enter(&mut self, node: &K) -> (at: usize)
        requires
            old(self).wf(),
        ensures
            final(self).wf(),
            final(self)@ == old(self)@.with_node(node@),
            at < final(self).nodes@.len(),
            final(self).nodes@[at as int] == node@,
    {
        match self.nodes.position(node) {
            Some(i) => {
                proof {
                    assert(self.nodes@.contains(node@));
                    assert(self@.nodes =~= old(self)@.nodes.insert(node@));
                }
                i
            },
            None => {
                let ghost old_nodes = self.nodes@;
                let ghost old_deps = self.dependencies@;
                let ghost before = *self;
                let _ = self.nodes.insert(node.duplicate());
                let at: usize = match self.nodes.position(node) {
                    Some(i) => i,
                    None => {
                        assert(self.nodes@.contains(node@));
                        0
                    },
                };
                proof {
                    let i = choose|i: int|
                        0 <= i <= old_nodes.len() && self.nodes@ == #[trigger] old_nodes.insert(
                            i,
                            node@,
                        );
                    assert(self.nodes@[i] == node@);
                    order::lemma_ascending_distinct::<K>(self.nodes@);
                    assert(i == at);
                }
                self.dependencies.insert(at, OrderedSet::new());
                proof {
                    let empty = self.dependencies@[at as int];
                    assert(self.dependencies@ =~= old_deps.insert(at as int, empty));
                    assert forall|i: int, b: K::V|
                        0 <= i < self.dependencies@.len()
                            && #[trigger] self.dependencies@[i]@.contains(b) implies self.nodes@.contains(
                        b,
                    ) by {
                        if i < at {
                            assert(before.dependencies@[i]@.contains(b));
                        } else if i > at {
                            assert(before.dependencies@[i - 1]@.contains(b));
                        }
                        assert(old_nodes.contains(b));
                    }
                    assert forall|i: int| 0 <= i < self.dependencies@.len() implies (
                    #[trigger] self.dependencies@[i]).wf() by {
                        if i < at {
                            assert(before.dependencies@[i].wf());
                        } else if i > at {
                            assert(before.dependencies@[i - 1].wf());
                        }
                    }
                    assert(self@.nodes =~= before@.nodes.insert(node@));
                    assert forall|p: (K::V, K::V)|
                        self@.arcs.contains(p) == before@.arcs.contains(p) by {
                        if before.has_arc(p.0, p.1) {
                            let i = choose|i: int| #[trigger] before.has_arc_at(i, p.0, p.1);
                            let j = if i < at { i } else { i + 1 };
                            assert(self.has_arc_at(j, p.0, p.1));
                        }
                        if self.has_arc(p.0, p.1) {
                            let i = choose|i: int| #[trigger] self.has_arc_at(i, p.0, p.1);
                            assert(i != at);
                            let j = if i < at { i } else { i - 1 };
                            assert(before.has_arc_at(j, p.0, p.1));
                        }
                    }
                    assert(self@.arcs =~= before@.arcs);
                }
                at
            },
        }
    }

    /// Adds a dependency edge from `consumer` to `dependency`.
    pub fn add_dependency(&mut self, consumer: K, dependency: K)
        requires
            old(self).wf(),
        ensures
            final(self).wf(),
            final(self)@ == old(self)@.with_dependency(consumer@, dependency@),
    {
        let _ = self.enter(&dependency);
        let at: usize = self.enter(&consumer);
        let ghost before = *self;
        let ghost d = dependency@;
        let mut list: OrderedSet<K> = OrderedSet::new();
        std::mem::swap(&mut list, &mut self.dependencies[at]);
        let _ = list.insert(dependency);
        std::mem::swap(&mut list, &mut self.dependencies[at]);
        proof {
            assert(before@.nodes.contains(d));
            assert forall|i: int| 0 <= i < self.dependencies@.len() && i != at implies
                #[trigger] self.dependencies@[i] == before.dependencies@[i] by {}
            assert forall|i: int, b: K::V|
                0 <= i < self.dependencies@.len()
                    && #[trigger] self.dependencies@[i]@.contains(b) implies self.nodes@.contains(
                b,
            ) by {
                if b != d || i != at {
                    assert(before.dependencies@[i]@.contains(b));
                }
            }
            assert forall|p: (K::V, K::V)|
                self@.arcs.contains(p) == before@.arcs.insert((consumer@, d)).contains(p) by {
                if before.has_arc(p.0, p.1) {
                    let i = choose|i: int| #[trigger] before.has_arc_at(i, p.0, p.1);
                    assert(self.has_arc_at(i, p.0, p.1));
                }
                if p == (consumer@, d) {
                    assert(self.has_arc_at(at as int, p.0, p.1));
                }
                if self.has_arc(p.0, p.1) {
                    let i = choose|i: int| #[trigger] self.has_arc_at(i, p.0, p.1);
                    if i != at || p.1 != d {
                        assert(before.has_arc_at(i, p.0, p.1));
                    }
                }
            }
            assert(self@.arcs =~= before@.arcs.insert((consumer@, d)));
            assert(self@.nodes =~= old(self)@.nodes.insert(consumer@).insert(d));
        }
    }

    /// Adds dependency edges from `consumer` to each dependency.
    pub fn add_dependencies(&mut self, consumer: K, dependencies: Vec<K>)
        requires
            old(self).wf(),
        ensures
            final(self).wf(),
            final(self)@ == old(self)@.with_dependencies(consumer@, order::views(dependencies@)),
    {
        let ghost all = order::views(dependencies@);
        self.add_node(consumer.duplicate());
        let mut i: usize = 0;
        assert(all.take(0) =~= Seq::<K::V>::empty());
        while i < dependencies.len()
            invariant
                i <= dependencies@.len(),
                all == order::views(dependencies@),
                self.wf(),
                self@ == old(self)@.with_dependencies(consumer@, all.take(i as int)),
            decreases dependencies@.len() - i,
        {
            self.add_dependency(consumer.duplicate(), dependencies[i].duplicate());
            proof {
                assert(all.take(i + 1).drop_last() =~= all.take(i as int));
                assert(all.take(i + 1).last() == dependencies@[i as int]@);
            }
            i = i + 1;
        }
        assert(all.take(i as int) =~= all);
    }

    /// The dependencies by position: the positions of the dependencies of each node.
    fn adjacency(&self) -> (adj: Vec<Vec<usize>>)
        requires
            self.wf(),
        ensures
            follows(adj@, self.nodes@, self@.step()),
    {
        let n: usize = self.nodes.len();
        let mut adj: Vec<Vec<usize>> = Vec::new();
        let mut i: usize = 0;
        while i < n
            invariant
                self.wf(),
                n == self.nodes@.len(),
                i <= n,
                adj@.len() == i,
                forall|a: int, k: int|
                    0 <= a < i && 0 <= k < adj@[a]@.len() ==> (#[trigger] adj@[a]@[k]) < n,
                forall|a: int, j: usize|
                    0 <= a < i && j < n ==> (#[trigger] adj@[a]@.contains(j))
                        == self.dependencies@[a]@.contains(self.nodes@[j as int]),
            decreases n - i,
        {
            let mut row: Vec<usize> = Vec::new();
            let mut k: usize = 0;
            let ghost deps = self.dependencies@[i as int]@;
            while k < self.dependencies[i].len()
                invariant
                    self.wf(),
                    n == self.nodes@.len(),
                    i < n,
                    deps == self.dependencies@[i as int]@,
                    k <= deps.len(),
                    row@.len() == k,
                    forall|l: int|
                        0 <= l < k ==> (#[trigger] row@[l]) < n && self.nodes@[row@[l] as int]
                            == deps[l],
                decreases deps.len() - k,
            {
                let d: &K = self.dependencies[i].at(k);
                assert(deps.contains(deps[k as int]));
                match self.nodes.position(d) {
                    Some(j) => {
                        row.push(j);
                    },
                    None => {
                        assert(self.dependencies@[i as int]@.contains(d@));
                        assert(false);
                    },
                }
                k = k + 1;
            }
            proof {
                order::lemma_ascending_distinct::<K>(self.nodes@);
                assert forall|j: usize| j < n implies (#[trigger] row@.contains(j))
                    == deps.contains(self.nodes@[j as int]) by {
                    if row@.contains(j) {
                        let l = row@.index_of(j);
                        assert(deps[l] == self.nodes@[j as int]);
                    }
                    if deps.contains(self.nodes@[j as int]) {
                        let l = deps.index_of(self.nodes@[j as int]);
                        assert(self.nodes@[row@[l] as int] == deps[l]);
                        assert(row@[l] == j);
                    }
                }
            }
            adj.push(row);
            i = i + 1;
        }
        proof {
            order::lemma_ascending_distinct::<K>(self.nodes@);
            self.arcs_join_nodes();
            assert forall|a: usize, b: usize| a < n && b < n implies #[trigger] digraph::arcs(adj@)(
                a,
                b,
            ) == self@.step()(self.nodes@[a as int], self.nodes@[b as int]) by {
                let x = self.nodes@[a as int];
                let y = self.nodes@[b as int];
                assert(adj@[a as int]@.contains(b) == self.dependencies@[a as int]@.contains(y));
                if self.dependencies@[a as int]@.contains(y) {
                    assert(self.has_arc_at(a as int, x, y));
                }
                if self.has_arc(x, y) {
                    let i = choose|i: int| #[trigger] self.has_arc_at(i, x, y);
                    assert(i == a);
                }
            }
            assert forall|x: K::V, y: K::V| #[trigger] self@.step()(x, y) implies self.nodes@.contains(
                x,
            ) && self.nodes@.contains(y) by {
                assert(self@.arcs.contains((x, y)));
            }
        }
        adj
    }

    /// The nodes at the given positions.
    fn pick(&self, at: &Vec<usize>) -> (r: Vec<K>)
        requires
            self.wf(),
            forall|k: int| 0 <= k < at@.len() ==> (#[trigger] at@[k]) < self.nodes@.len(),
        ensures
            order::views(r@) == picked(self.nodes@, at@),
            r@.len() == at@.len(),
    {
        let mut r: Vec<K> = Vec::new();
        let mut i: usize = 0;
        while i < at.len()
            invariant
                self.wf(),
                i <= at@.len(),
                forall|k: int| 0 <= k < at@.len() ==> (#[trigger] at@[k]) < self.nodes@.len(),
                r@.len() == i,
                forall|k: int| 0 <= k < i ==> (#[trigger] r@[k])@ == self.nodes@[at@[k] as int],
            decreases at@.len() - i,
        {
            r.push(self.nodes.at(at[i]).duplicate());
            i = i + 1;
        }
        assert(order::views(r@) =~= picked(self.nodes@, at@));
        r
    }

    /// Returns the exact members of all cyclic strongly connected components.
    ///
    /// Nodes merely downstream of a cycle are excluded.
    pub fn cycle_members(&self) -> (r: Vec<K>)
        requires
            self.wf(),
        ensures
            order::lists::<K>(
                order::views(r@),
                |x: K::V| walk::leads_to(self@.step(), x, x),
            ),
    {
        let adj: Vec<Vec<usize>> = self.adjacency();
        let ghost step = self@.step();
        let cyclic: Vec<bool> = digraph::on_cycle(&adj);
        let marked: Vec<usize> = marked_positions(&cyclic);
        let r: Vec<K> = self.pick(&marked);
        proof {
            lemma_picked::<K>(self.nodes@, marked@);
            assert forall|x: K::V| #[trigger] order::views(r@).contains(x) <==> walk::leads_to(
                step,
                x,
                x,
            ) by {
                if order::views(r@).contains(x) {
                    let k = order::views(r@).index_of(x);
                    let i = marked@[k];
                    assert(marked@.contains(i));
                    assert(cyclic@[i as int]);
                    lemma_follows(adj@, self.nodes@, step, i, i);
                }
                if walk::leads_to(step, x, x) {
                    let y = walk::lemma_first_step(step, x, x);
                    assert(step(x, y));
                    let i = self.nodes@.index_of(x) as usize;
                    assert(self.nodes@[i as int] == x);
                    lemma_follows(adj@, self.nodes@, step, i, i);
                    assert(cyclic@[i as int]);
                    assert(marked@.contains(i));
                    let k = marked@.index_of(i);
                    assert(order::views(r@)[k] == x);
                }
            }
        }
        r
    }

    /// Groups the nodes by the length of their longest walk along `adj`.
    fn layers_along(&self, adj: &Vec<Vec<usize>>, step: Ghost<spec_fn(K::V, K::V) -> bool>) -> (r:
        Vec<Vec<K>>)
        requires
            self.wf(),
            follows(adj@, self.nodes@, step@),
            walk::acyclic(step@),
        ensures
            layered_by::<K>(r@, self@.nodes, step@),
    {
        let ghost nodes = self.nodes@;
        proof {
            assert forall|c: usize| c < adj@.len() implies !#[trigger] walk::leads_to(
                digraph::arcs(adj@),
                c,
                c,
            ) by {
                lemma_follows(adj@, nodes, step@, c, c);
            }
        }
        let groups: Vec<Vec<usize>> = digraph::layers(adj);
        let mut r: Vec<Vec<K>> = Vec::new();
        let mut k: usize = 0;
        while k < groups.len()
            invariant
                self.wf(),
                nodes == self.nodes@,
                adj@.len() == nodes.len(),
                k <= groups@.len(),
                forall|m: int|
                    0 <= m < groups@.len() ==> digraph::is_layer(
                        adj@,
                        (#[trigger] groups@[m])@,
                        m as nat,
                    ),
                r@.len() == k,
                forall|m: int|
                    0 <= m < k ==> order::views((#[trigger] r@[m])@) == picked(
                        nodes,
                        groups@[m]@,
                    ) && r@[m]@.len() == groups@[m]@.len(),
            decreases groups@.len() - k,
        {
            r.push(self.pick(&groups[k]));
            k = k + 1;
        }
        proof {
            assert forall|m: int| 0 <= m < r@.len() implies {
                &&& (#[trigger] r@[m])@.len() > 0
                &&& order::lists::<K>(
                    order::views(r@[m]@),
                    |x: K::V| self@.nodes.contains(x) && walk::longest_walk(step@, x, m as nat),
                )
            } by {
                let group = groups@[m]@;
                let names = order::views(r@[m]@);
                lemma_picked::<K>(nodes, group);
                assert forall|x: K::V| #[trigger] names.contains(x) <==> (self@.nodes.contains(x)
                    && walk::longest_walk(step@, x, m as nat)) by {
                    if names.contains(x) {
                        let k = names.index_of(x);
                        let i = group[k];
                        assert(group.contains(i));
                        assert(nodes[i as int] == x);
                        lemma_follows(adj@, nodes, step@, i, i);
                    }
                    if self@.nodes.contains(x) && walk::longest_walk(step@, x, m as nat) {
                        let i = nodes.index_of(x) as usize;
                        assert(nodes[i as int] == x);
                        lemma_follows(adj@, nodes, step@, i, i);
                        assert(group.contains(i));
                        let k = group.index_of(i);
                        assert(names[k] == x);
                    }
                }
            }
            assert forall|x: K::V| #[trigger] self@.nodes.contains(x) implies in_layer(r@, x) by {
                let i = nodes.index_of(x) as usize;
                assert(nodes[i as int] == x);
                assert(digraph::in_some_layer(groups@, i));
                let m = choose|m: int|
                    0 <= m < groups@.len() && (#[trigger] groups@[m])@.contains(i);
                let k = groups@[m]@.index_of(i);
                assert(order::views(r@[m]@) == picked(nodes, groups@[m]@));
                assert(order::views(r@[m]@)[k] == x);
                assert(stands_in(r@, x, m));
            }
        }
        r
    }

    /// Returns deterministic provider-first topological layers.
    ///
    /// # Errors
    ///
    /// Returns the exact cycle members when the graph is not acyclic.
    pub fn topological_layers(&self) -> (r: Result<Vec<Vec<K>>, Vec<K>>)
        requires
            self.wf(),
        ensures
            match r {
                Ok(layers) => walk::acyclic(self@.step()) && layered_by::<K>(
                    layers@,
                    self@.nodes,
                    self@.step(),
                ),
                Err(members) => members@.len() > 0 && order::lists::<K>(
                    order::views(members@),
                    |x: K::V| walk::leads_to(self@.step(), x, x),
                ),
            },
    {
        let members: Vec<K> = self.cycle_members();
        if members.len() > 0 {
            return Err(members);
        }
        proof {
            lemma_no_members::<K>(order::views(members@), self@.step());
        }
        let adj: Vec<Vec<usize>> = self.adjacency();
        Ok(self.layers_along(&adj, Ghost(self@.step())))
    }

    /// Returns all graph nodes transitively required by `roots`, including the roots.
    pub fn reachable_dependencies(&self, roots: Vec<K>) -> (r: OrderedSet<K>)
        requires
            self.wf(),
        ensures
            order::lists::<K>(
                r@,
                |x: K::V| required_by(self@, order::views(roots@), x),
            ),
    {
        let adj: Vec<Vec<usize>> = self.adjacency();
        let ghost step = self@.step();
        let ghost names = order::views(roots@);
        let mut starts: Vec<usize> = Vec::new();
        let mut i: usize = 0;
        while i < roots.len()
            invariant
                self.wf(),
                i <= roots@.len(),
                names == order::views(roots@),
                forall|k: int|
                    0 <= k < starts@.len() ==> (#[trigger] starts@[k]) < self.nodes@.len()
                        && names.contains(self.nodes@[starts@[k] as int]),
                forall|k: int|
                    0 <= k < i && self.nodes@.contains(#[trigger] names[k]) ==> exists|m: int|
                        0 <= m < starts@.len() && self.nodes@[#[trigger] starts@[m] as int]
                            == names[k],
            decreases roots@.len() - i,
        {
            let ghost starts0 = starts@;
            match self.nodes.position(&roots[i]) {
                Some(p) => {
                    assert(names[i as int] == self.nodes@[p as int]);
                    starts.push(p);
                    proof {
                        assert(starts@[starts0.len() as int] == p);
                        assert forall|k: int|
                            0 <= k < i + 1 && self.nodes@.contains(
                                #[trigger] names[k],
                            ) implies exists|m: int|
                            0 <= m < starts@.len() && self.nodes@[#[trigger] starts@[m] as int]
                                == names[k] by {
                            if k < i {
                                let m = choose|m: int|
                                    0 <= m < starts0.len()
                                        && self.nodes@[#[trigger] starts0[m] as int] == names[k];
                                assert(starts@[m] == starts0[m]);
                            }
                        }
                    }
                },
                None => {
                    assert(names[i as int] == roots@[i as int]@);
                },
            }
            i = i + 1;
        }
        let seen: Vec<bool> = digraph::reach(&adj, &starts);
        let marked: Vec<usize> = marked_positions(&seen);
        let r: OrderedSet<K> = OrderedSet::from_vec(self.pick(&marked));
        proof {
            lemma_picked::<K>(self.nodes@, marked@);
            let found = picked(self.nodes@, marked@);
            assert forall|x: K::V| #[trigger] r@.contains(x) <==> required_by(self@, names, x) by {
                assert(r@.contains(x) == found.contains(x));
                if found.contains(x) {
                    let k = found.index_of(x);
                    let j = marked@[k];
                    assert(marked@.contains(j));
                    assert(digraph::reached_from(adj@, starts@, j));
                    let m = choose|m: int|
                        0 <= m < starts@.len() && #[trigger] walk::reaches(
                            digraph::arcs(adj@),
                            starts@[m],
                            j,
                        );
                    let root = self.nodes@[starts@[m] as int];
                    lemma_follows(adj@, self.nodes@, step, starts@[m], j);
                    assert(self.nodes@.contains(root));
                    let q = names.index_of(root);
                    assert(names[q] == root);
                    assert(requires_at(self@, names, x, q));
                }
                if required_by(self@, names, x) {
                    let q = choose|q: int| #[trigger] requires_at(self@, names, x, q);
                    let m = choose|m: int|
                        0 <= m < starts@.len() && self.nodes@[#[trigger] starts@[m] as int]
                            == names[q];
                    if names[q] != x {
                        let back = walk::reversed(step);
                        walk::lemma_leads_reversed(step, names[q], x);
                        let y = walk::lemma_first_step(back, x, names[q]);
                        assert(step(y, x));
                    }
                    let j = self.nodes@.index_of(x) as usize;
                    assert(self.nodes@[j as int] == x);
                    lemma_follows(adj@, self.nodes@, step, starts@[m], j);
                    assert(walk::reaches(digraph::arcs(adj@), starts@[m], j));
                    assert(digraph::reached_from(adj@, starts@, j));
                    assert(marked@.contains(j));
                    let k = marked@.index_of(j);
                    assert(found[k] == x);
                }
            }
        }
        r
    }

    /// The dependents by position: the positions of the consumers of each node.
    fn dependents(&self) -> (rev: Vec<Vec<usize>>)
        requires
            self.wf(),
        ensures
            follows(rev@, self.nodes@, walk::reversed(self@.step())),
    {
        let adj: Vec<Vec<usize>> = self.adjacency();
        let rev: Vec<Vec<usize>> = digraph::turned(&adj);
        proof {
            let back = walk::reversed(self@.step());
            assert forall|x: K::V, y: K::V| #[trigger] back(x, y) implies self.nodes@.contains(x)
                && self.nodes@.contains(y) by {
                assert(self@.step()(y, x));
            }
            assert forall|a: usize, b: usize|
                a < self.nodes@.len() && b < self.nodes@.len() implies #[trigger] digraph::arcs(
                rev@,
            )(a, b) == back(self.nodes@[a as int], self.nodes@[b as int]) by {
                assert(digraph::arcs(rev@)(a, b) == digraph::arcs(adj@)(b, a));
            }
        }
        rev
    }

    /// The live nodes, with the dependencies among them.
    fn live_graph(&self, live: &OrderedSet<K>) -> (g: Self)
        requires
            self.wf(),
            live.wf(),
        ensures
            g.wf(),
            g@ == self@.restricted_to(live@.to_set()),
    {
        let mut g: DependencyGraph<K> = DependencyGraph::new();
        let mut i: usize = 0;
        while i < live.len()
            invariant
                self.wf(),
                live.wf(),
                i <= live@.len(),
                g.wf(),
                forall|x: K::V| #[trigger] g@.nodes.contains(x) ==> live@.contains(x),
                forall|k: int| 0 <= k < i ==> g@.nodes.contains(#[trigger] live@[k]),
                forall|a: K::V, b: K::V| #[trigger]
                    g@.arcs.contains((a, b)) == (live@.take(i as int).contains(a) && live@.contains(b)
                        && self@.arcs.contains((a, b))),
            decreases live@.len() - i,
        {
            let node: &K = live.at(i);
            let ghost g0 = g@;
            assert(live@.contains(node@));
            g.add_node(node.duplicate());
            match self.nodes.position(node) {
                Some(p) => {
                    let ghost deps = self.dependencies@[p as int]@;
                    let mut k: usize = 0;
                    while k < self.dependencies[p].len()
                        invariant
                            self.wf(),
                            live.wf(),
                            i < live@.len(),
                            node@ == live@[i as int],
                            p < self.nodes@.len(),
                            self.nodes@[p as int] == node@,
                            deps == self.dependencies@[p as int]@,
                            k <= deps.len(),
                            g.wf(),
                            forall|x: K::V| #[trigger]
                                g@.nodes.contains(x) ==> live@.contains(x),
                            g@.nodes.contains(node@),
                            forall|x: K::V| g0.nodes.contains(x) ==> #[trigger] g@.nodes.contains(x),
                            forall|a: K::V, b: K::V| #[trigger]
                                g@.arcs.contains((a, b)) == (g0.arcs.contains((a, b)) || (a == node@
                                    && deps.take(k as int).contains(b) && live@.contains(b))),
                        decreases deps.len() - k,
                    {
                        let d: &K = self.dependencies[p].at(k);
                        let ghost g1 = g@;
                        if live.contains(d) {
                            assert(live@.contains(node@));
                            g.add_dependency(node.duplicate(), d.duplicate());
                        }
                        proof {
                            let now = deps.take(k + 1);
                            let prev = deps.take(k as int);
                            assert(now =~= prev.push(d@));
                            assert forall|b: K::V| #[trigger] now.contains(b) == (prev.contains(b)
                                || b == d@) by {
                                if prev.contains(b) {
                                    assert(now[prev.index_of(b)] == b);
                                }
                                if now.contains(b) && b != d@ {
                                    assert(prev[now.index_of(b)] == b);
                                }
                                assert(now[k as int] == d@);
                            }
                        }
                        k = k + 1;
                    }
                    proof {
                        assert(deps.take(k as int) =~= deps);
                        order::lemma_ascending_distinct::<K>(self.nodes@);
                        assert forall|b: K::V| deps.contains(b) == #[trigger] self@.arcs.contains(
                            (node@, b),
                        ) by {
                            if deps.contains(b) {
                                assert(self.has_arc_at(p as int, node@, b));
                            }
                            if self.has_arc(node@, b) {
                                let q = choose|q: int| #[trigger] self.has_arc_at(q, node@, b);
                                assert(q == p);
                            }
                        }
                    }
                },
                None => {
                    proof {
                        assert forall|b: K::V| !(#[trigger] self@.arcs.contains((node@, b))) by {
                            if self.has_arc(node@, b) {
                                let q = choose|q: int| #[trigger] self.has_arc_at(q, node@, b);
                                assert(self.nodes@.contains(node@));
                            }
                        }
                    }
                },
            }
            proof {
                let now = live@.take(i + 1);
                let prev = live@.take(i as int);
                assert(now =~= prev.push(node@));
                assert forall|a: K::V| #[trigger] now.contains(a) == (prev.contains(a) || a
                    == node@) by {
                    if prev.contains(a) {
                        assert(now[prev.index_of(a)] == a);
                    }
                    if now.contains(a) && a != node@ {
                        assert(prev[now.index_of(a)] == a);
                    }
                    assert(now[i as int] == node@);
                }
                assert forall|k: int| 0 <= k < i + 1 implies g@.nodes.contains(
                    #[trigger] live@[k],
                ) by {
                    if k < i {
                        assert(g0.nodes.contains(live@[k]));
                    }
                }
            }
            i = i + 1;
        }
        proof {
            assert(live@.take(i as int) =~= live@);
            let want = self@.restricted_to(live@.to_set());
            assert forall|x: K::V| g@.nodes.contains(x) == want.nodes.contains(x) by {
                if live@.contains(x) {
                    let k = live@.index_of(x);
                    assert(g@.nodes.contains(live@[k]));
                }
            }
            assert(g@.nodes =~= want.nodes);
            assert forall|p: (K::V, K::V)| g@.arcs.contains(p) == want.arcs.contains(p) by {
                assert(g@.arcs.contains((p.0, p.1)) == (live@.contains(p.0) && live@.contains(p.1)
                    && self@.arcs.contains((p.0, p.1))));
            }
            assert(g@.arcs =~= want.arcs);
        }
        g
    }

    /// Returns deterministic consumer-first shutdown waves for `live` nodes.
    ///
    /// Dependencies are placed in a later wave than every live consumer,
    /// including when passive intermediate nodes create a transitive ordering.
    ///
    /// # Errors
    ///
    /// Returns the exact cycle members when the live subgraph is not acyclic.
    pub fn shutdown_waves(&self, live: &OrderedSet<K>) -> (r: Result<Vec<Vec<K>>, Vec<K>>)
        requires
            self.wf(),
            live.wf(),
        ensures
            ({
                let step = self@.restricted_to(live@.to_set()).step();
                match r {
                    Ok(waves) => walk::acyclic(step) && layered_by::<K>(
                        waves@,
                        live@.to_set(),
                        walk::reversed(step),
                    ),
                    Err(members) => members@.len() > 0 && order::lists::<K>(
                        order::views(members@),
                        |x: K::V| walk::leads_to(step, x, x),
                    ),
                }
            }),
    {
        let g: DependencyGraph<K> = self.live_graph(live);
        let members: Vec<K> = g.cycle_members();
        if members.len() > 0 {
            return Err(members);
        }
        proof {
            lemma_no_members::<K>(order::views(members@), g@.step());
            lemma_acyclic_reversed(g@.step());
        }
        let rev: Vec<Vec<usize>> = g.dependents();
        Ok(g.layers_along(&rev, Ghost(walk::reversed(g@.step()))))
    }
}

/// The arcs of `adj` are the steps among `nodes`, node for node, and no step leaves them.
spec fn follows<N>(
    adj: Seq<Vec<usize>>,
    nodes: Seq<N>,
    step: spec_fn(N, N) -> bool,
) -> bool {
    &&& nodes.no_duplicates()
    &&& adj.len() == nodes.len()
    &&& adj.len() <= usize::MAX
    &&& digraph::arcs_ok(adj)
    &&& forall|a: usize, b: usize|
        a < nodes.len() && b < nodes.len() ==> #[trigger] digraph::arcs(adj)(a, b) == step(
            nodes[a as int],
            nodes[b as int],
        )
    &&& forall|x: N, y: N| #[trigger] step(x, y) ==> nodes.contains(x) && nodes.contains(y)
}

proof fn lemma_follows<N>(
    adj: Seq<Vec<usize>>,
    nodes: Seq<N>,
    step: spec_fn(N, N) -> bool,
    a: usize,
    b: usize,
)
    requires
        follows(adj, nodes, step),
        a < nodes.len(),
        b < nodes.len(),
    ensures
        walk::leads_to(digraph::arcs(adj), a, b) == walk::leads_to(
            step,
            nodes[a as int],
            nodes[b as int],
        ),
        forall|k: nat| #[trigger]
            walk::walks(digraph::arcs(adj), a, k) == walk::walks(step, nodes[a as int], k),
{
    let arcs = digraph::arcs(adj);
    let f = |i: usize| nodes[i as int];
    let g = |x: N| nodes.index_of(x) as usize;
    assert forall|x: usize, y: usize| #[trigger] arcs(x, y) implies step(f(x), f(y)) by {
        let k = adj[x as int]@.index_of(y);
        assert(adj[x as int]@[k] == y);
    }
    assert forall|x: N, y: N| #[trigger] step(x, y) implies arcs(g(x), g(y)) by {
        assert(nodes[g(x) as int] == x);
        assert(nodes[g(y) as int] == y);
    }
    assert(nodes.contains(nodes[a as int]));
    assert(nodes.contains(nodes[b as int]));
    assert(g(f(a)) == a);
    assert(g(f(b)) == b);
    if walk::leads_to(arcs, a, b) {
        walk::lemma_leads_mapped(arcs, step, f, a, b);
    }
    if walk::leads_to(step, f(a), f(b)) {
        walk::lemma_leads_mapped(step, arcs, g, f(a), f(b));
    }
    assert forall|k: nat| #[trigger]
        walk::walks(arcs, a, k) == walk::walks(step, nodes[a as int], k) by {
        if walk::walks(arcs, a, k) {
            walk::lemma_walks_mapped(arcs, step, f, a, k);
        }
        if walk::walks(step, f(a), k) {
            walk::lemma_walks_mapped(step, arcs, g, f(a), k);
        }
    }
}

/// The elements of `nodes` at the positions `at`.
spec fn picked<N>(nodes: Seq<N>, at: Seq<usize>) -> Seq<N> {
    Seq::new(at.len(), |k: int| nodes[at[k] as int])
}

proof fn lemma_picked<K: OrderedKey>(nodes: Seq<K::V>, at: Seq<usize>)
    requires
        order::ascending::<K>(nodes),
        digraph::increasing(at),
        forall|k: int| 0 <= k < at.len() ==> (#[trigger] at[k]) < nodes.len(),
    ensures
        order::ascending::<K>(picked(nodes, at)),
        nodes.no_duplicates(),
{
    order::lemma_ascending_distinct::<K>(nodes);
}

/// The root at position `q` is a node of `g` and requires `x`, or is `x`.
pub open spec fn requires_at<N>(g: GraphView<N>, roots: Seq<N>, x: N, q: int) -> bool {
    0 <= q < roots.len() && g.nodes.contains(roots[q]) && walk::reaches(g.step(), roots[q], x)
}

/// Some root that is a node of `g` requires `x`, or is `x`.
pub open spec fn required_by<N>(g: GraphView<N>, roots: Seq<N>, x: N) -> bool {
    exists|q: int| #[trigger] requires_at(g, roots, x, q)
}

proof fn lemma_no_members<K: OrderedKey>(members: Seq<K::V>, step: spec_fn(K::V, K::V) -> bool)
    requires
        members.len() == 0,
        order::lists::<K>(members, |x: K::V| walk::leads_to(step, x, x)),
    ensures
        walk::acyclic(step),
{
    assert forall|x: K::V| !#[trigger] walk::leads_to(step, x, x) by {
        assert(!members.contains(x));
    }
}

/// The marked positions in ascending order.
fn marked_positions(marks: &Vec<bool>) -> (r: Vec<usize>)
    ensures
        digraph::increasing(r@),
        forall|k: int| 0 <= k < r@.len() ==> (#[trigger] r@[k]) < marks@.len(),
        forall|i: usize|
            i < marks@.len() ==> (#[trigger] r@.contains(i)) == marks@[i as int],
{
    let mut r: Vec<usize> = Vec::new();
    let mut i: usize = 0;
    while i < marks.len()
        invariant
            i <= marks@.len(),
            digraph::increasing(r@),
            forall|k: int| 0 <= k < r@.len() ==> (#[trigger] r@[k]) < i,
            forall|j: usize| j < i ==> (#[trigger] r@.contains(j)) == marks@[j as int],
        decreases marks@.len() - i,
    {
        let ghost r0 = r@;
        if marks[i] {
            r.push(i);
            proof {
                assert(r@[r0.len() as int] == i);
                assert forall|j: usize| j < i implies (#[trigger] r@.contains(j)) == r0.contains(
                    j,
                ) by {
                    if r0.contains(j) {
                        assert(r@[r0.index_of(j)] == j);
                    }
                    if r@.contains(j) {
                        assert(r0[r@.index_of(j)] == j);
                    }
                }
            }
        }
        i = i + 1;
    }
    r
}

proof fn lemma_acyclic_reversed<N>(step: spec_fn(N, N) -> bool)
    requires
        walk::acyclic(step),
    ensures
        walk::acyclic(walk::reversed(step)),
{
    assert forall|x: N| !#[trigger] walk::leads_to(walk::reversed(step), x, x) by {
        walk::lemma_leads_reversed(step, x, x);
    }
}

/// A node stands in one layer only: the one of its longest walk.
proof fn lemma_layer_of<K: OrderedKey>(
    layers: Seq<Vec<K>>,
    nodes: Set<K::V>,
    step: spec_fn(K::V, K::V) -> bool,
    x: K::V,
    k: int,
)
    requires
        layered_by::<K>(layers, nodes, step),
        stands_in(layers, x, k),
    ensures
        nodes.contains(x),
        walk::longest_walk(step, x, k as nat),
{
    assert(layers[k]@.len() > 0);
    assert(order::views(layers[k]@).contains(x));
}

/// Provider first: whatever a node depends on, directly or through others, stands in an
/// earlier layer.
pub proof fn providers_come_first<K: OrderedKey>(
    layers: Seq<Vec<K>>,
    nodes: Set<K::V>,
    step: spec_fn(K::V, K::V) -> bool,
    consumer: K::V,
    provider: K::V,
    i: int,
    j: int,
)
    requires
        layered_by::<K>(layers, nodes, step),
        walk::leads_to(step, consumer, provider),
        forall|a: K::V, b: K::V| #[trigger] step(a, b) ==> nodes.contains(a) && nodes.contains(b),
        stands_in(layers, consumer, i),
        stands_in(layers, provider, j),
    ensures
        j < i,
{
    lemma_layer_of::<K>(layers, nodes, step, consumer, i);
    lemma_layer_of::<K>(layers, nodes, step, provider, j);
    let w = choose|w: Seq<K::V>| #[trigger] walk::connects(step, w, consumer, provider);
    let tail = choose|t: Seq<K::V>| #[trigger] walk::is_walk_from(step, t, provider, j as nat);
    let v = w + tail.drop_first();
    assert forall|m: int| 0 <= m < v.len() - 1 implies #[trigger] walk::step_at(step, v, m) by {
        if m < w.len() - 1 {
            assert(walk::step_at(step, w, m));
        } else {
            assert(walk::step_at(step, tail, m - (w.len() - 1)));
        }
    }
    let k = (v.len() - 1) as nat;
    assert(walk::is_walk_from(step, v, consumer, k));
    if i < k {
        walk::lemma_walks_shorter(step, consumer, k, (i + 1) as nat);
    }
}

/// Consumer first: among live nodes, whatever a node depends on, directly or through other
/// live nodes, stands in a later shutdown wave.
pub proof fn consumers_stop_first<K: OrderedKey>(
    waves: Seq<Vec<K>>,
    g: GraphView<K::V>,
    live: Set<K::V>,
    consumer: K::V,
    provider: K::V,
    i: int,
    j: int,
)
    requires
        layered_by::<K>(waves, live, walk::reversed(g.restricted_to(live).step())),
        walk::leads_to(g.restricted_to(live).step(), consumer, provider),
        stands_in(waves, consumer, i),
        stands_in(waves, provider, j),
    ensures
        i < j,
{
    let step = g.restricted_to(live).step();
    walk::lemma_leads_reversed(step, consumer, provider);
    assert forall|a: K::V, b: K::V| #[trigger] walk::reversed(step)(a, b) implies live.contains(a)
        && live.contains(b) by {
        assert(g.restricted_to(live).arcs.contains((b, a)));
    }
    providers_come_first::<K>(waves, live, walk::reversed(step), provider, consumer, j, i);
}

/// The layers are determined by the graph: two layerings of the same nodes and steps have the
/// same names in the same places.
pub proof fn layers_are_determined<K: OrderedKey>(
    a: Seq<Vec<K>>,
    b: Seq<Vec<K>>,
    nodes: Set<K::V>,
    step: spec_fn(K::V, K::V) -> bool,
)
    requires
        layered_by::<K>(a, nodes, step),
        layered_by::<K>(b, nodes, step),
    ensures
        a.len() == b.len(),
        forall|k: int|
            0 <= k < a.len() ==> order::views((#[trigger] a[k])@) == order::views(b[k]@),
{
    lemma_no_shorter::<K>(a, b, nodes, step);
    lemma_no_shorter::<K>(b, a, nodes, step);
    assert forall|k: int| 0 <= k < a.len() implies order::views((#[trigger] a[k])@) == order::views(
        b[k]@,
    ) by {
        let u = order::views(a[k]@);
        let v = order::views(b[k]@);
        assert(a[k]@.len() > 0 && b[k]@.len() > 0);
        assert forall|x: K::V| #[trigger] u.contains(x) == v.contains(x) by {}
        order::ascending_is_unique::<K>(u, v);
    }
}

/// The waves in which all nodes stop are the layers of the graph with every arc turned round.
pub proof fn waves_of_all_are_layers_turned<K: OrderedKey>(
    g: GraphView<K::V>,
    waves: Seq<Vec<K>>,
    layers: Seq<Vec<K>>,
)
    requires
        g.closed_arcs(),
        layered_by::<K>(waves, g.nodes, walk::reversed(g.restricted_to(g.nodes).step())),
        layered_by::<K>(layers, g.turned().nodes, g.turned().step()),
    ensures
        waves.len() == layers.len(),
        forall|k: int|
            0 <= k < waves.len() ==> order::views((#[trigger] waves[k])@) == order::views(
                layers[k]@,
            ),
{
    let back = walk::reversed(g.restricted_to(g.nodes).step());
    assert forall|a: K::V, b: K::V| #[trigger] back(a, b) == g.turned().step()(a, b) by {
        if g.arcs.contains((b, a)) {
            assert(g.nodes.contains(a) && g.nodes.contains(b));
        }
    }
    assert(back =~= g.turned().step());
    layers_are_determined::<K>(waves, layers, g.nodes, back);
}

/// All nodes stop in waves exactly if the graph with every arc turned round has layers.
pub proof fn turning_keeps_cycles<K: OrderedKey>(g: GraphView<K::V>)
    requires
        g.closed_arcs(),
    ensures
        walk::acyclic(g.restricted_to(g.nodes).step()) == walk::acyclic(g.turned().step()),
{
    let step = g.restricted_to(g.nodes).step();
    let back = g.turned().step();
    assert forall|a: K::V, b: K::V| #[trigger] back(a, b) == walk::reversed(step)(a, b) by {
        if g.arcs.contains((b, a)) {
            assert(g.nodes.contains(a) && g.nodes.contains(b));
        }
    }
    assert(back =~= walk::reversed(step));
    assert(step =~= walk::reversed(back));
    if walk::acyclic(step) {
        lemma_acyclic_reversed(step);
    }
    if walk::acyclic(back) {
        lemma_acyclic_reversed(back);
    }
}

proof fn lemma_no_shorter<K: OrderedKey>(
    a: Seq<Vec<K>>,
    b: Seq<Vec<K>>,
    nodes: Set<K::V>,
    step: spec_fn(K::V, K::V) -> bool,
)
    requires
        layered_by::<K>(a, nodes, step),
        layered_by::<K>(b, nodes, step),
    ensures
        a.len() <= b.len(),
{
    if b.len() < a.len() {
        let k = b.len() as int;
        assert(a[k]@.len() > 0);
        let x = order::views(a[k]@)[0];
        assert(order::views(a[k]@).contains(x));
        assert(stands_in(a, x, k));
        lemma_layer_of::<K>(a, nodes, step, x, k);
        assert(in_layer(b, x));
        let j = choose|j: int| #[trigger] stands_in(b, x, j);
        lemma_layer_of::<K>(b, nodes, step, x, j);
        walk::lemma_longest_unique(step, x, j as nat, k as nat);
    }
}

/// What the roots require is closed: a dependency of something required is required too, and
/// so is every root that is a node.
pub proof fn required_is_closed<N>(g: GraphView<N>, roots: Seq<N>, x: N, y: N)
    ensures
        required_by(g, roots, x) && g.step()(x, y) ==> required_by(g, roots, y),
        roots.contains(x) && g.nodes.contains(x) ==> required_by(g, roots, x),
{
    if required_by(g, roots, x) && g.step()(x, y) {
        let q = choose|q: int| #[trigger] requires_at(g, roots, x, q);
        walk::lemma_step_leads(g.step(), x, y);
        if roots[q] != x {
            walk::lemma_leads_transitive(g.step(), roots[q], x, y);
        }
        assert(requires_at(g, roots, y, q));
    }
    if roots.contains(x) && g.nodes.contains(x) {
        let q = roots.index_of(x);
        assert(requires_at(g, roots, x, q));
    }
}

/// No node stands in a later layer than it has to: each that does not stand in the first has a
/// dependency in the layer before its own.
pub proof fn layers_are_as_early_as_possible<K: OrderedKey>(
    layers: Seq<Vec<K>>,
    nodes: Set<K::V>,
    step: spec_fn(K::V, K::V) -> bool,
    x: K::V,
    k: int,
) -> (y: K::V)
    requires
        layered_by::<K>(layers, nodes, step),
        forall|a: K::V, b: K::V| #[trigger] step(a, b) ==> nodes.contains(a) && nodes.contains(b),
        stands_in(layers, x, k),
        k > 0,
    ensures
        step(x, y),
        stands_in(layers, y, k - 1),
{
    lemma_layer_of::<K>(layers, nodes, step, x, k);
    let y = walk::lemma_walks_rest(step, x, (k - 1) as nat);
    assert(nodes.contains(y));
    assert(!walk::walks(step, y, k as nat)) by {
        if walk::walks(step, y, k as nat) {
            walk::lemma_walks_prepend(step, x, y, k as nat);
        }
    }
    assert(in_layer(layers, y));
    let j = choose|j: int| #[trigger] stands_in(layers, y, j);
    lemma_layer_of::<K>(layers, nodes, step, y, j);
    walk::lemma_longest_unique(step, y, j as nat, (k - 1) as nat);
    y
}

/// A live node stops before each live node that it depends on.
pub proof fn live_consumers_stop_before_their_dependencies<K: OrderedKey>(
    waves: Seq<Vec<K>>,
    g: GraphView<K::V>,
    live: Set<K::V>,
    consumer: K::V,
    dependency: K::V,
    i: int,
    j: int,
)
    requires
        layered_by::<K>(waves, live, walk::reversed(g.restricted_to(live).step())),
        g.arcs.contains((consumer, dependency)),
        live.contains(consumer),
        live.contains(dependency),
        stands_in(waves, consumer, i),
        stands_in(waves, dependency, j),
    ensures
        i < j,
{
    walk::lemma_step_leads(g.restricted_to(live).step(), consumer, dependency);
    consumers_stop_first::<K>(waves, g, live, consumer, dependency, i, j);
}

/// Nothing is required but what the roots lead to: whatever holds of the roots, and of all
/// dependencies of a node that it holds of, holds of all that is required.
pub proof fn nothing_else_is_required<N>(
    g: GraphView<N>,
    roots: Seq<N>,
    keep: spec_fn(N) -> bool,
    x: N,
)
    requires
        forall|q: int| 0 <= q < roots.len() ==> keep(#[trigger] roots[q]),
        forall|a: N, b: N| keep(a) && #[trigger] g.arcs.contains((a, b)) ==> keep(b),
        required_by(g, roots, x),
    ensures
        keep(x),
{
    let q = choose|q: int| #[trigger] requires_at(g, roots, x, q);
    let step = g.step();
    assert forall|a: N, b: N| keep(a) && #[trigger] step(a, b) implies keep(b) by {
        assert(g.arcs.contains((a, b)));
    }
    walk::lemma_closed(step, keep, roots[q], x);
}

/// Adding dependencies of a node adds an arc from it to each of them, and no other.
pub proof fn added_dependencies_are_arcs<N>(
    g: GraphView<N>,
    consumer: N,
    dependencies: Seq<N>,
    a: N,
    b: N,
)
    ensures
        g.with_dependencies(consumer, dependencies).arcs.contains((a, b)) <==> g.arcs.contains(
            (a, b),
        ) || (a == consumer && dependencies.contains(b)),
        g.with_dependencies(consumer, dependencies).nodes.contains(a) <==> g.nodes.contains(a) || a
            == consumer || dependencies.contains(a),
    decreases dependencies.len(),
{
    if dependencies.len() > 0 {
        let front = dependencies.drop_last();
        added_dependencies_are_arcs(g, consumer, front, a, b);
        assert forall|x: N| #[trigger] dependencies.contains(x) == (front.contains(x) || x
            == dependencies.last()) by {
            if front.contains(x) {
                assert(dependencies[front.index_of(x)] == x);
            }
            if dependencies.contains(x) && x != dependencies.last() {
                assert(front[dependencies.index_of(x)] == x);
            }
            assert(dependencies[dependencies.len() - 1] == dependencies.last());
        }
    }
}

} // verus!
