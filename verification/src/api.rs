use vstd::prelude::*;
use crate::graph::EdgeInfo;
use crate::graph::Graph;
use crate::graph::GraphError;
use crate::graph::edges_kept;
use crate::graph::same_eprops;
use crate::graph::same_vprops;
use crate::props::pair_values;
use crate::props::pairs_view;
use crate::seqs::keep_ids;
use crate::traversal::Traversal;

verus! {

/// Adds a vertex with the given initial properties: the free-function
/// form of `Graph::addV`.
#[allow(non_snake_case)]
pub fn addV(graph: &mut Graph, properties: &Vec<(String, String)>) -> (r: u64)
    requires
        old(graph).wf(),
        old(graph).id_bound() < u64::MAX,
    ensures
        final(graph).wf(),
        r == old(graph).id_bound(),
        !old(graph).has_v(r),
        !old(graph).has_e(r),
        final(graph).id_bound() == old(graph).id_bound() + 1,
        final(graph).v_ids() == old(graph).v_ids().push(r),
        final(graph).e_ids() == old(graph).e_ids(),
        forall|e: u64|
            old(graph).has_e(e) ==> (#[trigger] final(graph).e_label(e)) == old(graph).e_label(e)
                && final(graph).e_from(e) == old(graph).e_from(e) && final(graph).e_to(e) == old(
                graph,
            ).e_to(e),
        forall|o: u64, k: Seq<char>|
            o != r ==> (#[trigger] final(graph).vprops(o, k)) == old(graph).vprops(o, k),
        forall|k: Seq<char>|
            #[trigger] final(graph).vprops(r, k) == pair_values(pairs_view(properties@), k),
        same_eprops(*old(graph), *final(graph)),
        final(graph).out_ids(r) == Seq::<u64>::empty(),
        final(graph).in_ids(r) == Seq::<u64>::empty(),
{
    graph.addV(properties)
}

/// Adds a directed labeled edge: the free-function form of `Graph::addE`.
#[allow(non_snake_case)]
pub fn addE(
    graph: &mut Graph,
    label: &String,
    from: u64,
    to: u64,
    properties: &Vec<(String, String)>,
) -> (r: Result<u64, GraphError>)
    requires
        old(graph).wf(),
        old(graph).id_bound() < u64::MAX,
    ensures
        final(graph).wf(),
        r is Ok <==> (old(graph).has_v(from) && old(graph).has_v(to)),
        !(old(graph).has_v(from) && old(graph).has_v(to)) ==> r == Err::<u64, GraphError>(
            GraphError::UnknownVertex,
        ) && *final(graph) == *old(graph),
        r is Ok ==> r->Ok_0 == old(graph).id_bound() && !old(graph).has_e(r->Ok_0) && !old(
            graph,
        ).has_v(r->Ok_0) && final(graph).id_bound() == old(graph).id_bound() + 1,
        r is Ok ==> final(graph).v_ids() == old(graph).v_ids() && final(graph).e_ids() == old(
            graph,
        ).e_ids().push(r->Ok_0),
        r is Ok ==> final(graph).e_label(r->Ok_0) == label@ && final(graph).e_from(r->Ok_0)
            == from && final(graph).e_to(r->Ok_0) == to,
        r is Ok ==> edges_kept(*old(graph), *final(graph)),
        r is Ok ==> same_vprops(*old(graph), *final(graph)),
        r is Ok ==> forall|o: u64, k: Seq<char>|
            o != r->Ok_0 ==> (#[trigger] final(graph).eprops(o, k)) == old(graph).eprops(o, k),
        r is Ok ==> forall|k: Seq<char>|
            #[trigger] final(graph).eprops(r->Ok_0, k) == pair_values(pairs_view(properties@), k),
{
    graph.addE(label, from, to, properties)
}

/// Starts a traversal at all vertices: the free-function form of
/// `Graph::V`.
#[allow(non_snake_case)]
pub fn V<'g>(graph: &'g Graph) -> (t: Traversal<'g>)
    requires
        graph.wf(),
    ensures
        t.wf(),
        t.graph() == *graph,
        t.is_vertices(),
        t.unfiltered(),
        t.elems() == graph.v_ids(),
{
    graph.V()
}

/// Starts a traversal at all edges: the free-function form of `Graph::E`.
#[allow(non_snake_case)]
pub fn E<'g>(graph: &'g Graph) -> (t: Traversal<'g>)
    requires
        graph.wf(),
    ensures
        t.wf(),
        t.graph() == *graph,
        !t.is_vertices(),
        t.unfiltered(),
        t.elems() == graph.e_ids(),
{
    graph.E()
}

/// The vertices holding `value` under `key`, answered from the reverse
/// index: the free-function form of `Graph::V_has`.
#[allow(non_snake_case)]
pub fn V_has(graph: &Graph, key: &String, value: &String) -> (r: Vec<u64>)
    requires
        graph.wf(),
    ensures
        r@ == keep_ids(graph.v_ids(), graph.v_matcher(key@, value@)),
        r@.no_duplicates(),
        forall|o: u64| #[trigger] r@.contains(o) <==> graph.v_has_prop(o, key@, value@),
{
    graph.V_has(key, value)
}

/// The edges leaving `v`: the free-function form of `Graph::outE`.
#[allow(non_snake_case)]
pub fn outE(graph: &Graph, v: u64) -> (r: Result<Vec<EdgeInfo>, GraphError>)
    requires
        graph.wf(),
    ensures
        r is Ok <==> graph.has_v(v),
        !graph.has_v(v) ==> r == Err::<Vec<EdgeInfo>, GraphError>(GraphError::UnknownVertex),
        r is Ok ==> (r->Ok_0)@.len() == graph.out_ids(v).len() && forall|j: int|
            0 <= j < graph.out_ids(v).len() ==> (#[trigger] (r->Ok_0)@[j]).id == graph.out_ids(
                v,
            )[j] && (r->Ok_0)@[j].label@ == graph.e_label(graph.out_ids(v)[j]) && (r->Ok_0)@[j]
            .from == v && (r->Ok_0)@[j].to == graph.e_to(graph.out_ids(v)[j]),
{
    graph.outgoing(v)
}

/// The edges entering `v`: the free-function form of `Graph::inE`.
#[allow(non_snake_case)]
pub fn inE(graph: &Graph, v: u64) -> (r: Result<Vec<EdgeInfo>, GraphError>)
    requires
        graph.wf(),
    ensures
        r is Ok <==> graph.has_v(v),
        !graph.has_v(v) ==> r == Err::<Vec<EdgeInfo>, GraphError>(GraphError::UnknownVertex),
        r is Ok ==> (r->Ok_0)@.len() == graph.in_ids(v).len() && forall|j: int|
            0 <= j < graph.in_ids(v).len() ==> (#[trigger] (r->Ok_0)@[j]).id == graph.in_ids(
                v,
            )[j] && (r->Ok_0)@[j].label@ == graph.e_label(graph.in_ids(v)[j]) && (r->Ok_0)@[j].to
            == v && (r->Ok_0)@[j].from == graph.e_from(graph.in_ids(v)[j]),
{
    graph.incoming(v)
}

} // verus!
