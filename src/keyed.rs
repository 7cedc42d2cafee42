//! The content-keyed graph: a facade over [`Graph`] that names each vertex
//! by its payload, through a one-to-one index from payload to identity.
use vstd::prelude::*;
use std::collections::HashMap;
use crate::identity::{edges_without, in_edges_of, out_edges_of, EdgeId, Graph, VertexId};
use crate::listing::{lemma_listing_len, lists_exactly};

verus! {

broadcast use vstd::std_specs::hash::group_hash_axioms;

/// The edges of `m` that touch neither end at `p`.
pub open spec fn pairs_without(m: Map<(u32, u32), u32>, p: u32) -> Map<(u32, u32), u32> {
    Map::new(|k: (u32, u32)| m.contains_key(k) && k.0 != p && k.1 != p, |k: (u32, u32)| m[k])
}

/// The destinations of the edges leaving `p`, with their payloads.
pub open spec fn successors(m: Map<(u32, u32), u32>, p: u32) -> Map<u32, u32> {
    Map::new(|q: u32| m.contains_key((p, q)), |q: u32| m[(p, q)])
}

/// The sources of the edges entering `p`, with their payloads.
pub open spec fn predecessors(m: Map<(u32, u32), u32>, p: u32) -> Map<u32, u32> {
    Map::new(|q: u32| m.contains_key((q, p)), |q: u32| m[(q, p)])
}

/// A directed graph whose vertices are named by their `u32` payloads.
pub struct GraphMap {
    graph: Graph,
    map: HashMap<u32, VertexId>,
}

impl GraphMap {
    /// The vertices.
    pub closed spec fn vertex_set(&self) -> Set<u32> {
        self.map@.dom()
    }

    /// The edges, each named by the payloads of its ends, with their payloads.
    pub closed spec fn edge_map(&self) -> Map<(u32, u32), u32> {
        Map::new(
            |k: (u32, u32)|
                self.map@.contains_key(k.0) && self.map@.contains_key(k.1)
                    && self.graph.edge_map().contains_key((self.map@[k.0], self.map@[k.1])),
            |k: (u32, u32)| self.graph.edge_map()[(self.map@[k.0], self.map@[k.1])],
        )
    }

    /// How many more vertices can be removed; see [`Graph::removals_left`].
    pub closed spec fn removals_left(&self) -> nat {
        self.graph.removals_left()
    }

    /// The underlying graph is well formed and the index is a bijection
    /// between payloads and live identities that agrees with the stored
    /// payloads.
    pub closed spec fn wf(&self) -> bool {
        &&& self.graph.wf()
        &&& forall|p: u32| #[trigger]
            self.map@.contains_key(p) ==> self.graph.vertex_map().contains_key(self.map@[p])
                && self.graph.vertex_map()[self.map@[p]] == p
        &&& forall|id: VertexId| #[trigger]
            self.graph.vertex_map().contains_key(id) ==> self.map@.contains_key(
                self.graph.vertex_map()[id],
            ) && self.map@[self.graph.vertex_map()[id]] == id
    }

    /// Every edge joins two vertices, and both sets are finite.
    pub proof fn lemma_wf(&self)
        requires
            self.wf(),
        ensures
            self.vertex_set().finite(),
            self.edge_map().dom().finite(),
            forall|k: (u32, u32)| #[trigger]
                self.edge_map().contains_key(k) ==> self.vertex_set().contains(k.0)
                    && self.vertex_set().contains(k.1),
    {
        self.lemma_edge_count();
    }

    proof fn lemma_edge_count(&self)
        requires
            self.wf(),
        ensures
            self.vertex_set().finite(),
            self.edge_map().dom().finite(),
            self.edge_map().len() == self.graph.edge_map().len(),
    {
        self.graph.lemma_wf();
        let vm = self.graph.vertex_map();
        let f = |k: EdgeId| (vm[k.0], vm[k.1]);
        let x = self.graph.edge_map().dom();
        assert(x.map(f) =~= self.edge_map().dom()) by {
            assert forall|k: (u32, u32)| self.edge_map().dom().contains(k) implies x.map(f).contains(k) by {
                let e = (self.map@[k.0], self.map@[k.1]);
                assert(x.contains(e) && f(e) == k);
            }
            assert forall|k: (u32, u32)| x.map(f).contains(k) implies self.edge_map().dom().contains(k) by {
                let e = choose|e: EdgeId| x.contains(e) && f(e) == k;
                assert(self.graph.edge_map().contains_key(e));
            }
        }
        assert(vstd::relations::injective_on(f, x)) by {
            assert forall|a: EdgeId, b: EdgeId| x.contains(a) && x.contains(b) && #[trigger] f(a) == #[trigger] f(b) implies a == b by {
                assert(self.graph.edge_map().contains_key(a));
                assert(self.graph.edge_map().contains_key(b));
                assert(self.map@[vm[a.0]] == a.0);
                assert(self.map@[vm[b.0]] == b.0);
                assert(self.map@[vm[a.1]] == a.1);
                assert(self.map@[vm[b.1]] == b.1);
            }
        }
        vstd::set_lib::lemma_map_size(x, self.edge_map().dom(), f);
        let g = |id: VertexId| vm[id];
        assert(vm.dom().map(g) =~= self.map@.dom()) by {
            assert forall|p: u32| self.map@.dom().contains(p) implies vm.dom().map(g).contains(p) by {
                assert(vm.dom().contains(self.map@[p]) && g(self.map@[p]) == p);
            }
        }
        vstd::set_lib::lemma_map_size_bound(vm.dom(), self.map@.dom(), g);
    }

    pub fn new() -> (r: Self)
        ensures
            r.wf(),
            r.vertex_set() == Set::<u32>::empty(),
            r.edge_map() == Map::<(u32, u32), u32>::empty(),
            r.removals_left() == u64::MAX,
    {
        let r = GraphMap { graph: Graph::new(), map: HashMap::new() };
        assert(r.vertex_set() =~= Set::<u32>::empty());
        assert(r.edge_map() =~= Map::<(u32, u32), u32>::empty());
        r
    }

    fn add_or_get_vertex(&mut self, vertex: u32) -> (id: VertexId)
        requires
            old(self).wf(),
        ensures
            final(self).wf(),
            final(self).vertex_set() == old(self).vertex_set().insert(vertex),
            final(self).edge_map() == old(self).edge_map(),
            final(self).map@.contains_key(vertex) && final(self).map@[vertex] == id,
            forall|p: u32| #[trigger] old(self).map@.contains_key(p) ==> final(self).map@[p] == old(self).map@[p],
            final(self).graph.edge_map() == old(self).graph.edge_map(),
            final(self).removals_left() == old(self).removals_left(),
    {
        match self.map.get(&vertex) {
            Some(id) => {
                assert(self.vertex_set().insert(vertex) =~= self.vertex_set());
                *id
            },
            None => {
                proof { self.graph.lemma_wf(); }
                let id = self.graph.add_vertex(vertex);
                self.map.insert(vertex, id);
                assert(self.vertex_set() =~= old(self).vertex_set().insert(vertex));
                assert(self.edge_map() =~= old(self).edge_map()) by {
                    assert forall|k: (u32, u32)| #[trigger] self.edge_map().contains_key(k) implies k.0 != vertex && k.1 != vertex by {
                        if k.0 == vertex {
                            assert(self.graph.edge_map().contains_key((id, self.map@[k.1])));
                        }
                        if k.1 == vertex {
                            assert(self.graph.edge_map().contains_key((self.map@[k.0], id)));
                        }
                    }
                }
                id
            },
        }
    }

    /// Adds a vertex holding `vertex`; nothing changes if one is there already.
    pub fn add_vertex(&mut self, vertex: u32)
        requires
            old(self).wf(),
        ensures
            final(self).wf(),
            final(self).vertex_set() == old(self).vertex_set().insert(vertex),
            final(self).edge_map() == old(self).edge_map(),
            final(self).removals_left() == old(self).removals_left(),
            old(self).vertex_set().contains(vertex) ==> *final(self) == *old(self),
    {
        if self.map.contains_key(&vertex) {
            return;
        }
        let _ = self.add_or_get_vertex(vertex);
    }

    /// Adds an edge, or replaces the payload of the edge already there;
    /// either end that is not yet a vertex is added first.
    pub fn add_edge(&mut self, edge: (u32, u32), weight: u32)
        requires
            old(self).wf(),
        ensures
            final(self).wf(),
            final(self).vertex_set() == old(self).vertex_set().insert(edge.0).insert(edge.1),
            final(self).edge_map() == old(self).edge_map().insert(edge, weight),
            final(self).removals_left() == old(self).removals_left(),
    {
        let from = self.add_or_get_vertex(edge.0);
        let ghost m1 = self.map@;
        let to = self.add_or_get_vertex(edge.1);
        let ghost mid = self.edge_map();
        proof {
            self.graph.lemma_wf();
            assert(m1.contains_key(edge.0));
            assert(self.map@[edge.0] == from);
            assert(self.map@.contains_key(edge.0));
            assert(self.map@.contains_key(edge.1));
        }
        self.graph.add_edge((from, to), weight);
        assert(self.edge_map() =~= old(self).edge_map().insert(edge, weight)) by {
            assert(self.graph.vertex_map()[from] == edge.0);
            assert(self.graph.vertex_map()[to] == edge.1);
            assert forall|k: (u32, u32)| #[trigger] self.edge_map().contains_key(k) && k != edge implies
                mid.contains_key(k) && mid[k] == self.edge_map()[k] by {
                let e = (self.map@[k.0], self.map@[k.1]);
                if e == (from, to) {
                    assert(self.graph.vertex_map()[self.map@[k.0]] == k.0);
                    assert(self.graph.vertex_map()[self.map@[k.1]] == k.1);
                }
            }
            assert forall|k: (u32, u32)| #[trigger] mid.contains_key(k) && k != edge implies
                self.edge_map().contains_key(k) by {
            }
        }
    }

    /// The payload of the edge, if both ends are vertices and the edge is there.
    pub fn get_edge(&self, edge: (u32, u32)) -> (r: Option<u32>)
        requires
            self.wf(),
        ensures
            r == (if self.edge_map().contains_key(edge) {
                Some(self.edge_map()[edge])
            } else {
                None::<u32>
            }),
    {
        let from = match self.map.get(&edge.0) {
            Some(id) => *id,
            None => return None,
        };
        let to = match self.map.get(&edge.1) {
            Some(id) => *id,
            None => return None,
        };
        self.graph.get_edge((from, to))
    }

    /// Whether the edge is there.
    pub fn contains_edge(&self, edge: (u32, u32)) -> (r: bool)
        requires
            self.wf(),
        ensures
            r == self.edge_map().contains_key(edge),
    {
        self.get_edge(edge).is_some()
    }

    /// Removes the vertex and every edge that touches it; returns whether
    /// it was there (nothing changes if not).
    pub fn remove_vertex(&mut self, vertex: u32) -> (r: bool)
        requires
            old(self).wf(),
            old(self).removals_left() > 0,
        ensures
            final(self).wf(),
            r == old(self).vertex_set().contains(vertex),
            final(self).removals_left() == (if r {
                (old(self).removals_left() - 1) as nat
            } else {
                old(self).removals_left()
            }),
            final(self).vertex_set() == old(self).vertex_set().remove(vertex),
            final(self).edge_map() == pairs_without(old(self).edge_map(), vertex),
    {
        let id = match self.map.remove(&vertex) {
            Some(id) => id,
            None => {
                assert(self.vertex_set() =~= old(self).vertex_set().remove(vertex));
                assert(self.edge_map() =~= pairs_without(old(self).edge_map(), vertex));
                return false;
            },
        };
        let ghost gm = self.graph.edge_map();
        self.graph.remove_vertex(id);
        assert(self.vertex_set() =~= old(self).vertex_set().remove(vertex));
        assert(self.edge_map() =~= pairs_without(old(self).edge_map(), vertex)) by {
            assert forall|k: (u32, u32)| #[trigger] pairs_without(old(self).edge_map(), vertex).contains_key(k)
                implies self.edge_map().contains_key(k) by {
                let e = (old(self).map@[k.0], old(self).map@[k.1]);
                assert(gm.contains_key(e));
                assert(old(self).graph.vertex_map()[e.0] == k.0);
                assert(old(self).graph.vertex_map()[e.1] == k.1);
                assert(edges_without(gm, id).contains_key(e));
            }
        }
        true
    }

    /// Removes the edge, if there is one; returns whether both ends are
    /// vertices.
    pub fn remove_edge(&mut self, edge: (u32, u32)) -> (r: bool)
        requires
            old(self).wf(),
        ensures
            final(self).wf(),
            r == (old(self).vertex_set().contains(edge.0) && old(self).vertex_set().contains(edge.1)),
            final(self).vertex_set() == old(self).vertex_set(),
            final(self).edge_map() == old(self).edge_map().remove(edge),
            final(self).removals_left() == old(self).removals_left(),
    {
        let from = match self.map.get(&edge.0) {
            Some(id) => *id,
            None => {
                assert(self.edge_map() =~= old(self).edge_map().remove(edge));
                return false;
            },
        };
        let to = match self.map.get(&edge.1) {
            Some(id) => *id,
            None => {
                assert(self.edge_map() =~= old(self).edge_map().remove(edge));
                return false;
            },
        };
        self.graph.remove_edge((from, to));
        assert(self.edge_map() =~= old(self).edge_map().remove(edge)) by {
            assert forall|k: (u32, u32)| #[trigger] self.edge_map().contains_key(k) implies k != edge by {
            }
            assert forall|k: (u32, u32)| #[trigger] old(self).edge_map().contains_key(k) && k != edge
                implies self.edge_map().contains_key(k) by {
                let e = (self.map@[k.0], self.map@[k.1]);
                assert(old(self).graph.edge_map().contains_key(e));
                if e == (from, to) {
                    assert(self.graph.vertex_map()[e.0] == k.0);
                    assert(self.graph.vertex_map()[e.1] == k.1);
                }
            }
        }
        true
    }

    /// The destinations of the edges leaving `vertex`, each once, with the edge
    /// payloads; `None` if `vertex` is not in the graph.
    pub fn adj_out(&self, vertex: u32) -> (r: Option<Vec<(u32, u32)>>)
        requires
            self.wf(),
        ensures
            r.is_some() == self.vertex_set().contains(vertex),
            r.is_some() ==> lists_exactly(r.unwrap()@, successors(self.edge_map(), vertex)),
    {
        let id = match self.map.get(&vertex) {
            Some(id) => *id,
            None => return None,
        };
        let ghost gm = self.graph.edge_map();
        let ghost vm = self.graph.vertex_map();
        proof { self.graph.lemma_wf(); }
        let ids = self.graph.adj_out(id).unwrap();
        let mut r: Vec<(u32, u32)> = Vec::new();
        let mut i: usize = 0;
        while i < ids.len()
            invariant
                self.wf(),
                gm == self.graph.edge_map(),
                vm == self.graph.vertex_map(),
                self.map@[vertex] == id,
                forall|k: EdgeId| #[trigger] gm.contains_key(k) ==> vm.contains_key(k.0) && vm.contains_key(k.1),
                lists_exactly(ids@, out_edges_of(gm, id)),
                i <= ids@.len(),
                r@.len() == i,
                forall|a: int| 0 <= a < i ==> #[trigger] r@[a] == (vm[ids@[a].0], ids@[a].1),
            decreases ids@.len() - i,
        {
            proof {
                let x = ids@[i as int].0;
                assert(gm.contains_key((id, x)));
            }
            let q = self.graph.get_vertex(ids[i].0).unwrap();
            r.push((q, ids[i].1));
            i = i + 1;
        }
        proof {
            let cm = successors(self.edge_map(), vertex);
            assert forall|a: int| 0 <= a < r@.len() implies cm.contains_key(#[trigger] r@[a].0)
                && cm[r@[a].0] == r@[a].1 by {
                let x = ids@[a].0;
                assert(gm.contains_key((id, x)));
                assert(self.map@[vm[x]] == x);
                let q = vm[x];
                assert(self.edge_map().contains_key((vertex, q)));
            }
            assert forall|q: u32| #[trigger] cm.contains_key(q) implies exists|a: int|
                0 <= a < r@.len() && r@[a].0 == q by {
                assert(self.edge_map().contains_key((vertex, q)));
                let x = self.map@[q];
                assert(out_edges_of(gm, id).contains_key(x));
                let a = choose|a: int| 0 <= a < ids@.len() && ids@[a].0 == x;
                assert(r@[a].0 == q);
            }
            assert forall|a: int, b: int| 0 <= a < b < r@.len() implies #[trigger] r@[a].0
                != #[trigger] r@[b].0 by {
                let x = ids@[a].0;
                let y = ids@[b].0;
                assert(ids@[a].0 != ids@[b].0);
                assert(gm.contains_key((id, x)));
                assert(gm.contains_key((id, y)));
                assert(self.map@[vm[x]] == x);
                assert(self.map@[vm[y]] == y);
            }
        }
        Some(r)
    }

    /// The sources of the edges entering `vertex`, each once, with the edge
    /// payloads; `None` if `vertex` is not in the graph.
    pub fn adj_in(&self, vertex: u32) -> (r: Option<Vec<(u32, u32)>>)
        requires
            self.wf(),
        ensures
            r.is_some() == self.vertex_set().contains(vertex),
            r.is_some() ==> lists_exactly(r.unwrap()@, predecessors(self.edge_map(), vertex)),
    {
        let id = match self.map.get(&vertex) {
            Some(id) => *id,
            None => return None,
        };
        let ghost gm = self.graph.edge_map();
        let ghost vm = self.graph.vertex_map();
        proof { self.graph.lemma_wf(); }
        let ids = self.graph.adj_in(id).unwrap();
        let mut r: Vec<(u32, u32)> = Vec::new();
        let mut i: usize = 0;
        while i < ids.len()
            invariant
                self.wf(),
                gm == self.graph.edge_map(),
                vm == self.graph.vertex_map(),
                self.map@[vertex] == id,
                forall|k: EdgeId| #[trigger] gm.contains_key(k) ==> vm.contains_key(k.0) && vm.contains_key(k.1),
                lists_exactly(ids@, in_edges_of(gm, id)),
                i <= ids@.len(),
                r@.len() == i,
                forall|a: int| 0 <= a < i ==> #[trigger] r@[a] == (vm[ids@[a].0], ids@[a].1),
            decreases ids@.len() - i,
        {
            proof {
                let x = ids@[i as int].0;
                assert(gm.contains_key((x, id)));
            }
            let q = self.graph.get_vertex(ids[i].0).unwrap();
            r.push((q, ids[i].1));
            i = i + 1;
        }
        proof {
            let cm = predecessors(self.edge_map(), vertex);
            assert forall|a: int| 0 <= a < r@.len() implies cm.contains_key(#[trigger] r@[a].0)
                && cm[r@[a].0] == r@[a].1 by {
                let x = ids@[a].0;
                assert(gm.contains_key((x, id)));
                assert(self.map@[vm[x]] == x);
                let q = vm[x];
                assert(self.edge_map().contains_key((q, vertex)));
            }
            assert forall|q: u32| #[trigger] cm.contains_key(q) implies exists|a: int|
                0 <= a < r@.len() && r@[a].0 == q by {
                assert(self.edge_map().contains_key((q, vertex)));
                let x = self.map@[q];
                assert(in_edges_of(gm, id).contains_key(x));
                let a = choose|a: int| 0 <= a < ids@.len() && ids@[a].0 == x;
                assert(r@[a].0 == q);
            }
            assert forall|a: int, b: int| 0 <= a < b < r@.len() implies #[trigger] r@[a].0
                != #[trigger] r@[b].0 by {
                let x = ids@[a].0;
                let y = ids@[b].0;
                assert(ids@[a].0 != ids@[b].0);
                assert(gm.contains_key((x, id)));
                assert(gm.contains_key((y, id)));
                assert(self.map@[vm[x]] == x);
                assert(self.map@[vm[y]] == y);
            }
        }
        Some(r)
    }

    /// The number of edges entering `vertex`, which must be in the graph.
    pub fn indegree(&self, vertex: u32) -> (r: usize)
        requires
            self.wf(),
            self.vertex_set().contains(vertex),
        ensures
            r == predecessors(self.edge_map(), vertex).len(),
    {
        let v = self.adj_in(vertex).unwrap();
        proof { lemma_listing_len(v@, predecessors(self.edge_map(), vertex)); }
        v.len()
    }

    /// The number of edges leaving `vertex`, which must be in the graph.
    pub fn outdegree(&self, vertex: u32) -> (r: usize)
        requires
            self.wf(),
            self.vertex_set().contains(vertex),
        ensures
            r == successors(self.edge_map(), vertex).len(),
    {
        let v = self.adj_out(vertex).unwrap();
        proof { lemma_listing_len(v@, successors(self.edge_map(), vertex)); }
        v.len()
    }

    /// The number of vertices.
    pub fn vertex_count(&self) -> (r: usize)
        requires
            self.wf(),
        ensures
            r == self.vertex_set().len(),
    {
        self.map.len()
    }

    /// The number of edges.
    pub fn edge_count(&self) -> (r: usize)
        requires
            self.wf(),
        ensures
            r == self.edge_map().len(),
    {
        proof { self.lemma_edge_count(); }
        self.graph.edge_count()
    }

    /// Each vertex once.
    pub fn vertices(&self) -> (r: Vec<u32>)
        requires
            self.wf(),
        ensures
            r@.no_duplicates(),
            forall|p: u32| r@.contains(p) == self.vertex_set().contains(p),
    {
        let ids = self.graph.vertices();
        let ghost vm = self.graph.vertex_map();
        let mut r: Vec<u32> = Vec::new();
        let mut i: usize = 0;
        while i < ids.len()
            invariant
                lists_exactly(ids@, vm),
                i <= ids@.len(),
                r@.len() == i,
                forall|a: int| 0 <= a < i ==> #[trigger] r@[a] == ids@[a].1,
            decreases ids@.len() - i,
        {
            r.push(ids[i].1);
            i = i + 1;
        }
        proof {
            assert forall|a: int, b: int| 0 <= a < r@.len() && 0 <= b < r@.len() && a != b implies
                r@[a] != r@[b] by {
                assert(ids@[a].0 != ids@[b].0);
                assert(vm[ids@[a].0] == r@[a]);
                assert(vm[ids@[b].0] == r@[b]);
                assert(self.map@[vm[ids@[a].0]] == ids@[a].0);
                assert(self.map@[vm[ids@[b].0]] == ids@[b].0);
            }
            assert forall|p: u32| r@.contains(p) == self.vertex_set().contains(p) by {
                if r@.contains(p) {
                    let a = choose|a: int| 0 <= a < r@.len() && r@[a] == p;
                    assert(vm.contains_key(ids@[a].0));
                }
                if self.vertex_set().contains(p) {
                    let id = self.map@[p];
                    assert(vm.contains_key(id));
                    let a = choose|a: int| 0 <= a < ids@.len() && ids@[a].0 == id;
                    assert(r@[a] == p);
                }
            }
        }
        r
    }

    /// Each edge once, named by the payloads of its ends, with its payload.
    pub fn edges(&self) -> (r: Vec<((u32, u32), u32)>)
        requires
            self.wf(),
        ensures
            lists_exactly(r@, self.edge_map()),
    {
        let es = self.graph.edges();
        let ghost gm = self.graph.edge_map();
        let ghost vm = self.graph.vertex_map();
        proof { self.graph.lemma_wf(); }
        let mut r: Vec<((u32, u32), u32)> = Vec::new();
        let mut i: usize = 0;
        while i < es.len()
            invariant
                self.wf(),
                gm == self.graph.edge_map(),
                vm == self.graph.vertex_map(),
                forall|k: EdgeId| #[trigger] gm.contains_key(k) ==> vm.contains_key(k.0) && vm.contains_key(k.1),
                lists_exactly(es@, gm),
                i <= es@.len(),
                r@.len() == i,
                forall|a: int| 0 <= a < i ==> #[trigger] r@[a] == ((vm[es@[a].0.0], vm[es@[a].0.1]), es@[a].1),
            decreases es@.len() - i,
        {
            proof { assert(gm.contains_key(es@[i as int].0)); }
            let from = self.graph.get_vertex(es[i].0.0).unwrap();
            let to = self.graph.get_vertex(es[i].0.1).unwrap();
            r.push(((from, to), es[i].1));
            i = i + 1;
        }
        proof {
            let em = self.edge_map();
            assert forall|a: int| 0 <= a < r@.len() implies em.contains_key(#[trigger] r@[a].0)
                && em[r@[a].0] == r@[a].1 by {
                let e = es@[a].0;
                assert(gm.contains_key(e));
                assert(self.map@[vm[e.0]] == e.0);
                assert(self.map@[vm[e.1]] == e.1);
            }
            assert forall|k: (u32, u32)| #[trigger] em.contains_key(k) implies exists|a: int|
                0 <= a < r@.len() && r@[a].0 == k by {
                let e = (self.map@[k.0], self.map@[k.1]);
                assert(gm.contains_key(e));
                let a = choose|a: int| 0 <= a < es@.len() && es@[a].0 == e;
                assert(r@[a].0 == k);
            }
            assert forall|a: int, b: int| 0 <= a < b < r@.len() implies #[trigger] r@[a].0
                != #[trigger] r@[b].0 by {
                let e = es@[a].0;
                let f = es@[b].0;
                assert(e != f);
                assert(gm.contains_key(e));
                assert(gm.contains_key(f));
                assert(self.map@[vm[e.0]] == e.0);
                assert(self.map@[vm[e.1]] == e.1);
                assert(self.map@[vm[f.0]] == f.0);
                assert(self.map@[vm[f.1]] == f.1);
            }
        }
        r
    }
}

} // verus!
