//! Validation and deterministic ordering for extension dependencies.

use vstd::prelude::*;
use vstd::string::*;

use crate::config::extension as config;
use crate::config::extension::{ExtensionUserConfig, PipelineExtensions};
use crate::dependency_graph;
use crate::dependency_graph::{DependencyGraph, GraphView};
use crate::order;
use crate::walk;

verus! {

/// Why the extensions cannot be ordered.
#[derive(Debug)]
pub enum DependencyError {
    /// An extension binds a capability to an extension that is not declared.
    ExtensionDependencyNotFound { extension: String, dependency: String },
    /// Extensions depend on one another in a circle.
    ExtensionDependencyCycle { extensions: Vec<String> },
}

/// The row at position `i` declares `consumer`, and its binding at position `j` names
/// `provider`.
pub open spec fn binds_at(
    rows: Seq<(String, ExtensionUserConfig)>,
    i: int,
    j: int,
    consumer: Seq<char>,
    provider: Seq<char>,
) -> bool {
    &&& config::declares_at(rows, i, consumer)
    &&& 0 <= j < rows[i].1.capabilities@.len()
    &&& rows[i].1.capabilities@[j].1@ == provider
}

/// The extension `consumer` binds a capability to `provider`.
pub open spec fn binds(
    rows: Seq<(String, ExtensionUserConfig)>,
    consumer: Seq<char>,
    provider: Seq<char>,
) -> bool {
    exists|i: int, j: int| #[trigger] binds_at(rows, i, j, consumer, provider)
}

/// The declared extensions, each with arcs to those that it binds a capability to.
pub open spec fn graph_of(rows: Seq<(String, ExtensionUserConfig)>) -> GraphView<Seq<char>> {
    GraphView {
        nodes: Set::new(|x: Seq<char>| config::declares(rows, x)),
        arcs: Set::new(|p: (Seq<char>, Seq<char>)| binds(rows, p.0, p.1)),
    }
}

/// The binding at position `j` of the row at position `i` names no declared extension.
pub open spec fn dangles(rows: Seq<(String, ExtensionUserConfig)>, i: int, j: int) -> bool {
    &&& 0 <= i < rows.len()
    &&& 0 <= j < rows[i].1.capabilities@.len()
    &&& !config::declares(rows, rows[i].1.capabilities@[j].1@)
}

/// The binding at position `j` of the row at position `i` is the first that names no
/// declared extension.
pub open spec fn first_dangling(rows: Seq<(String, ExtensionUserConfig)>, i: int, j: int) -> bool {
    &&& dangles(rows, i, j)
    &&& forall|a: int, b: int| #[trigger] dangles(rows, a, b) ==> a > i || (a == i && b >= j)
}

/// Among the first `i` rows and the first `j` bindings of the next one, the arcs of the graph.
spec fn arcs_up_to(
    rows: Seq<(String, ExtensionUserConfig)>,
    i: int,
    j: int,
) -> Set<(Seq<char>, Seq<char>)> {
    Set::new(
        |p: (Seq<char>, Seq<char>)|
            exists|a: int, b: int| #[trigger]
                binds_at(rows, a, b, p.0, p.1) && (a < i || (a == i && b < j)),
    )
}

proof fn lemma_next_arc(rows: Seq<(String, ExtensionUserConfig)>, i: int, j: int)
    requires
        0 <= i < rows.len(),
        0 <= j < rows[i].1.capabilities@.len(),
    ensures
        arcs_up_to(rows, i, j + 1) == arcs_up_to(rows, i, j).insert(
            (rows[i].0@, rows[i].1.capabilities@[j].1@),
        ),
{
    let arc = (rows[i].0@, rows[i].1.capabilities@[j].1@);
    assert(binds_at(rows, i, j, arc.0, arc.1));
    assert forall|p: (Seq<char>, Seq<char>)|
        arcs_up_to(rows, i, j + 1).contains(p) == arcs_up_to(rows, i, j).insert(arc).contains(
            p,
        ) by {
        if arcs_up_to(rows, i, j + 1).contains(p) && p != arc {
            let (a, b) = choose|a: int, b: int| #[trigger]
                binds_at(rows, a, b, p.0, p.1) && (a < i || (a == i && b < j + 1));
            assert(binds_at(rows, a, b, p.0, p.1) && (a < i || (a == i && b < j)));
        }
    }
    assert(arcs_up_to(rows, i, j + 1) =~= arcs_up_to(rows, i, j).insert(arc));
}

proof fn lemma_next_row(rows: Seq<(String, ExtensionUserConfig)>, i: int)
    requires
        0 <= i < rows.len(),
    ensures
        arcs_up_to(rows, i, rows[i].1.capabilities@.len() as int) == arcs_up_to(rows, i + 1, 0),
{
    assert forall|p: (Seq<char>, Seq<char>)|
        arcs_up_to(rows, i, rows[i].1.capabilities@.len() as int).contains(p) == arcs_up_to(
            rows,
            i + 1,
            0,
        ).contains(p) by {
        if arcs_up_to(rows, i + 1, 0).contains(p) {
            let (a, b) = choose|a: int, b: int| #[trigger]
                binds_at(rows, a, b, p.0, p.1) && (a < i + 1 || (a == i + 1 && b < 0));
            assert(binds_at(rows, a, b, p.0, p.1));
        }
    }
    assert(arcs_up_to(rows, i, rows[i].1.capabilities@.len() as int) =~= arcs_up_to(
        rows,
        i + 1,
        0,
    ));
}

/// Returns extension identifiers grouped into dependency layers.
///
/// Every extension in a layer depends only on extensions in earlier layers. The identifiers
/// within a layer are sorted.
pub fn dependency_layers(extensions: &PipelineExtensions) -> (r: Result<
    Vec<Vec<String>>,
    DependencyError,
>)
    ensures
        ({
            let rows = extensions.rows();
            let step = graph_of(rows).step();
            match r {
                Ok(layers) => {
                    &&& forall|i: int, j: int| !#[trigger] dangles(rows, i, j)
                    &&& walk::acyclic(step)
                    &&& dependency_graph::layered_by::<String>(
                        layers@,
                        graph_of(rows).nodes,
                        step,
                    )
                },
                Err(DependencyError::ExtensionDependencyNotFound { extension, dependency }) => {
                    exists|i: int, j: int| #[trigger]
                        first_dangling(rows, i, j) && extension == rows[i].0 && dependency
                            == rows[i].1.capabilities@[j].1
                },
                Err(DependencyError::ExtensionDependencyCycle { extensions: members }) => {
                    &&& forall|i: int, j: int| !#[trigger] dangles(rows, i, j)
                    &&& members@.len() > 0
                    &&& order::lists::<String>(
                        order::views(members@),
                        |x: Seq<char>| walk::leads_to(step, x, x),
                    )
                },
            }
        }),
{
    let ghost rows = extensions.rows();
    let ghost want = graph_of(rows);
    let mut graph: DependencyGraph<String> = DependencyGraph::new();
    let mut i: usize = 0;
    while i < extensions.len()
        invariant
            rows == extensions.rows(),
            i <= rows.len(),
            graph.wf(),
            graph@.arcs == Set::<(Seq<char>, Seq<char>)>::empty(),
            forall|x: Seq<char>|
                #![trigger graph@.nodes.contains(x)]
                graph@.nodes.contains(x) == exists|k: int|
                    k < i && #[trigger] config::declares_at(rows, k, x),
        decreases rows.len() - i,
    {
        let ghost before = graph@.nodes;
        graph.add_node(extensions.at(i).0.clone());
        proof {
            assert forall|x: Seq<char>| #[trigger] graph@.nodes.contains(x) == exists|k: int|
                k < i + 1 && #[trigger] config::declares_at(rows, k, x) by {
                if graph@.nodes.contains(x) {
                    if before.contains(x) {
                        let k = choose|k: int| k < i && #[trigger] config::declares_at(rows, k, x);
                        assert(config::declares_at(rows, k, x));
                    } else {
                        assert(config::declares_at(rows, i as int, x));
                    }
                }
            }
        }
        i = i + 1;
    }
    proof {
        assert(graph@.nodes =~= want.nodes);
        assert(arcs_up_to(rows, 0, 0) =~= Set::<(Seq<char>, Seq<char>)>::empty());
    }
    let mut i: usize = 0;
    while i < extensions.len()
        invariant
            rows == extensions.rows(),
            want == graph_of(rows),
            i <= rows.len(),
            graph.wf(),
            graph@.nodes == want.nodes,
            graph@.arcs == arcs_up_to(rows, i as int, 0),
            forall|a: int, b: int| #[trigger] dangles(rows, a, b) ==> a >= i,
        decreases rows.len() - i,
    {
        let consumer: &(String, ExtensionUserConfig) = extensions.at(i);
        let mut j: usize = 0;
        while j < consumer.1.capabilities.len()
            invariant
                rows == extensions.rows(),
                want == graph_of(rows),
                i < rows.len(),
                *consumer == rows[i as int],
                j <= consumer.1.capabilities@.len(),
                graph.wf(),
                graph@.nodes == want.nodes,
                graph@.arcs == arcs_up_to(rows, i as int, j as int),
                forall|a: int, b: int| #[trigger]
                    dangles(rows, a, b) ==> a > i || (a == i && b >= j),
            decreases consumer.1.capabilities@.len() - j,
        {
            let provider: &String = &consumer.1.capabilities[j].1;
            if !extensions.contains_key(provider.as_str()) {
                assert(first_dangling(rows, i as int, j as int));
                return Err(
                    DependencyError::ExtensionDependencyNotFound {
                        extension: consumer.0.clone(),
                        dependency: provider.clone(),
                    },
                );
            }
            graph.add_dependency(consumer.0.clone(), provider.clone());
            proof {
                lemma_next_arc(rows, i as int, j as int);
                assert(config::declares_at(rows, i as int, consumer.0@));
                assert(want.nodes.contains(consumer.0@));
                assert(want.nodes.contains(provider@));
                assert(graph@.nodes =~= want.nodes);
            }
            j = j + 1;
        }
        proof {
            lemma_next_row(rows, i as int);
        }
        i = i + 1;
    }
    proof {
        assert forall|p: (Seq<char>, Seq<char>)| graph@.arcs.contains(p) == want.arcs.contains(
            p,
        ) by {
            if want.arcs.contains(p) {
                let (a, b) = choose|a: int, b: int| #[trigger] binds_at(rows, a, b, p.0, p.1);
                assert(binds_at(rows, a, b, p.0, p.1) && a < i);
            }
        }
        assert(graph@.arcs =~= want.arcs);
        assert(graph@ =~= want);
        assert forall|a: int, b: int| !#[trigger] dangles(rows, a, b) by {}
    }
    match graph.topological_layers() {
        Ok(layers) => Ok(layers),
        Err(extensions) => Err(DependencyError::ExtensionDependencyCycle { extensions }),
    }
}

/// Provider first: an extension stands in a later layer than each extension that it binds a
/// capability to.
pub proof fn bound_extensions_come_first(
    rows: Seq<(String, ExtensionUserConfig)>,
    layers: Seq<Vec<String>>,
    i: int,
    j: int,
    consumer_layer: int,
    provider_layer: int,
)
    requires
        dependency_graph::layered_by::<String>(
            layers,
            graph_of(rows).nodes,
            graph_of(rows).step(),
        ),
        forall|a: int, b: int| !#[trigger] dangles(rows, a, b),
        0 <= i < rows.len(),
        0 <= j < rows[i].1.capabilities@.len(),
        dependency_graph::stands_in(layers, rows[i].0@, consumer_layer),
        dependency_graph::stands_in(layers, rows[i].1.capabilities@[j].1@, provider_layer),
    ensures
        provider_layer < consumer_layer,
{
    let g = graph_of(rows);
    let step = g.step();
    let consumer = rows[i].0@;
    let provider = rows[i].1.capabilities@[j].1@;
    assert(binds_at(rows, i, j, consumer, provider));
    assert(step(consumer, provider));
    walk::lemma_step_leads(step, consumer, provider);
    assert forall|a: Seq<char>, b: Seq<char>| #[trigger] step(a, b) implies g.nodes.contains(a)
        && g.nodes.contains(b) by {
        let (m, n) = choose|m: int, n: int| #[trigger] binds_at(rows, m, n, a, b);
        assert(config::declares_at(rows, m, a));
        assert(!dangles(rows, m, n));
    }
    dependency_graph::providers_come_first::<String>(
        layers,
        g.nodes,
        step,
        consumer,
        provider,
        consumer_layer,
        provider_layer,
    );
}

/// The layers hold the declared extensions and no others.
pub proof fn every_extension_stands_in_a_layer(
    rows: Seq<(String, ExtensionUserConfig)>,
    layers: Seq<Vec<String>>,
    id: Seq<char>,
)
    requires
        dependency_graph::layered_by::<String>(
            layers,
            graph_of(rows).nodes,
            graph_of(rows).step(),
        ),
    ensures
        dependency_graph::in_layer(layers, id) <==> exists|i: int|
            0 <= i < rows.len() && (#[trigger] rows[i]).0@ == id,
{
    let g = graph_of(rows);
    if exists|i: int| 0 <= i < rows.len() && (#[trigger] rows[i]).0@ == id {
        let i = choose|i: int| 0 <= i < rows.len() && (#[trigger] rows[i]).0@ == id;
        assert(config::declares_at(rows, i, id));
        assert(g.nodes.contains(id));
    }
    if dependency_graph::in_layer(layers, id) {
        let k = choose|k: int| #[trigger] dependency_graph::stands_in(layers, id, k);
        assert(layers[k]@.len() > 0);
        assert(order::views(layers[k]@).contains(id));
        assert(g.nodes.contains(id));
        let i = choose|i: int| #[trigger] config::declares_at(rows, i, id);
        assert(rows[i].0@ == id);
    }
}

} // verus!
