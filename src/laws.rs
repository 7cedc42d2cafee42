//! Properties that relate the results of several operations.
use vstd::prelude::*;
use crate::identity::{edges_without, in_edges_of, out_edges_of, Graph, VertexId};
use crate::keyed::{pairs_without, predecessors, successors, GraphMap};
use crate::paths::lemma_closed_forward;
use crate::text::{encodes, read_as, render_header, rendered, Line};
use crate::traversal::{has_seed, splits_into};

verus! {

/// Right after `add_edge((u, v), w)` on an identity-keyed graph, `v` is an
/// outbound neighbour of `u` and `u` an inbound neighbour of `v`, both
/// through an edge carrying `w`.
pub proof fn lemma_added_edge_adjacent(g0: Graph, g1: Graph, u: VertexId, v: VertexId, w: u32)
    requires
        g1.edge_map() == g0.edge_map().insert((u, v), w),
    ensures
        out_edges_of(g1.edge_map(), u).contains_key(v),
        out_edges_of(g1.edge_map(), u)[v] == w,
        in_edges_of(g1.edge_map(), v).contains_key(u),
        in_edges_of(g1.edge_map(), v)[u] == w,
{
}

/// Right after `add_edge((u, v), w)` on a content-keyed graph, `v` is a
/// successor of `u`, `u` a predecessor of `v`, and the edge carries `w`.
pub proof fn lemma_added_pair_adjacent(g0: GraphMap, g1: GraphMap, u: u32, v: u32, w: u32)
    requires
        g1.edge_map() == g0.edge_map().insert((u, v), w),
    ensures
        successors(g1.edge_map(), u).contains_key(v),
        successors(g1.edge_map(), u)[v] == w,
        predecessors(g1.edge_map(), v).contains_key(u),
        predecessors(g1.edge_map(), v)[u] == w,
        g1.edge_map()[(u, v)] == w,
{
}

/// A vertex that `add_vertex` has just created has no edges, in or out.
pub proof fn lemma_new_vertex_isolated(g0: Graph, g1: Graph, id: VertexId)
    requires
        g0.wf(),
        !g0.vertex_map().contains_key(id),
        g1.edge_map() == g0.edge_map(),
    ensures
        out_edges_of(g1.edge_map(), id) == Map::<VertexId, u32>::empty(),
        in_edges_of(g1.edge_map(), id) == Map::<VertexId, u32>::empty(),
        out_edges_of(g1.edge_map(), id).len() == 0,
        in_edges_of(g1.edge_map(), id).len() == 0,
{
    g0.lemma_wf();
    assert(out_edges_of(g1.edge_map(), id) =~= Map::<VertexId, u32>::empty());
    assert(in_edges_of(g1.edge_map(), id) =~= Map::<VertexId, u32>::empty());
}

/// A payload that `add_vertex` has just added has no edges, in or out.
pub proof fn lemma_new_payload_isolated(g0: GraphMap, g1: GraphMap, p: u32)
    requires
        g0.wf(),
        !g0.vertex_set().contains(p),
        g1.edge_map() == g0.edge_map(),
    ensures
        successors(g1.edge_map(), p) == Map::<u32, u32>::empty(),
        predecessors(g1.edge_map(), p) == Map::<u32, u32>::empty(),
        successors(g1.edge_map(), p).len() == 0,
        predecessors(g1.edge_map(), p).len() == 0,
{
    g0.lemma_wf();
    assert(successors(g1.edge_map(), p) =~= Map::<u32, u32>::empty());
    assert(predecessors(g1.edge_map(), p) =~= Map::<u32, u32>::empty());
}

/// After `remove_vertex(v)` the vertex is gone and no edge touches it.
pub proof fn lemma_removed_vertex_detached(g0: Graph, g1: Graph, v: VertexId)
    requires
        g1.vertex_map() == g0.vertex_map().remove(v),
        g1.edge_map() == edges_without(g0.edge_map(), v),
    ensures
        !g1.vertex_map().contains_key(v),
        forall|w: VertexId| !g1.edge_map().contains_key((v, w)) && !g1.edge_map().contains_key((w, v)),
{
}

/// After `remove_vertex(p)` the payload is gone and no edge touches it.
pub proof fn lemma_removed_payload_detached(g0: GraphMap, g1: GraphMap, p: u32)
    requires
        g1.vertex_set() == g0.vertex_set().remove(p),
        g1.edge_map() == pairs_without(g0.edge_map(), p),
    ensures
        !g1.vertex_set().contains(p),
        forall|q: u32| !g1.edge_map().contains_key((p, q)) && !g1.edge_map().contains_key((q, p)),
{
}

/// Adding a payload a second time changes nothing, so the vertex count and
/// the payload's vertex stay as the first call left them.
pub proof fn lemma_add_vertex_twice(g0: GraphMap, g1: GraphMap, g2: GraphMap, p: u32)
    requires
        g1.vertex_set() == g0.vertex_set().insert(p),
        g1.vertex_set().contains(p) ==> g2 == g1,
    ensures
        g2 == g1,
        g2.vertex_set().len() == g1.vertex_set().len(),
{
}

/// The components partition the vertices of the graph: together they hold
/// exactly its vertices, and no two of them share a vertex.
pub proof fn lemma_components_partition(g: GraphMap, comps: Seq<GraphMap>)
    requires
        g.wf(),
        splits_into(g, comps),
    ensures
        forall|p: u32| g.vertex_set().contains(p) == exists|i: int|
            0 <= i < comps.len() && (#[trigger] comps[i]).vertex_set().contains(p),
        forall|i: int, j: int|
            0 <= i < comps.len() && 0 <= j < comps.len() && i != j
                ==> (#[trigger] comps[i]).vertex_set().disjoint(#[trigger] comps[j].vertex_set()),
{
    let em = g.edge_map();
    let vs = g.vertex_set();
    g.lemma_wf();
    assert forall|p: u32| g.vertex_set().contains(p) == exists|i: int|
        0 <= i < comps.len() && (#[trigger] comps[i]).vertex_set().contains(p) by {
        if exists|i: int| 0 <= i < comps.len() && (#[trigger] comps[i]).vertex_set().contains(p) {
            let i = choose|i: int| 0 <= i < comps.len() && (#[trigger] comps[i]).vertex_set().contains(p);
            assert(has_seed(g, comps, i));
            let s = choose|s: u32| #[trigger] crate::traversal::seeded_at(g, comps, i, s);
            assert(crate::paths::reach_set(em, s).contains(p));
            lemma_closed_forward(em, vs, s, p);
        }
    }
    assert forall|i: int, j: int|
        0 <= i < comps.len() && 0 <= j < comps.len() && i != j implies
            (#[trigger] comps[i]).vertex_set().disjoint(#[trigger] comps[j].vertex_set()) by {
        if i < j {
            assert(comps[i].vertex_set().disjoint(comps[j].vertex_set()));
        } else {
            assert(comps[j].vertex_set().disjoint(comps[i].vertex_set()));
        }
    }
}

/// Writing a graph in the text format and reading the text back (as a
/// directed graph) gives a
/// graph with the same vertices and the same edges, payloads included.
pub proof fn lemma_text_round_trip(g: GraphMap, t: Seq<u8>, r: Option<GraphMap>)
    requires
        encodes(t, g.vertex_set(), g.edge_map()),
        forall|n: nat, m: nat, ls: Seq<Line>| t == #[trigger] rendered(n, m, ls) ==> read_as(r, ls, false),
    ensures
        r is Some,
        r.unwrap().vertex_set() == g.vertex_set(),
        r.unwrap().edge_map() == g.edge_map(),
{
    let ls = choose|ls: Seq<Line>|
        t == render_header(g.vertex_set().len(), g.edge_map().len()) + crate::text::render_lines(ls)
            && #[trigger] crate::text::line_vertices(ls) == g.vertex_set()
            && crate::text::line_edges(ls, false) == g.edge_map();
    assert(t == rendered(g.vertex_set().len(), g.edge_map().len(), ls));
}

} // verus!
