//! The identity-keyed graph: vertices live in a generational arena and are
//! named by the identity the arena hands out; each edge is named by the
//! ordered pair of its endpoints and carries one payload.
use vstd::prelude::*;
use crate::arena::{
    arena_entries, arena_generation, arena_get, arena_insert, arena_items, arena_len, arena_new,
    arena_remove,
};
use crate::listing::{lemma_listing_len, lists_exactly};

verus! {

/// The identity of a vertex: the slot index and the generation of its arena
/// entry. A removed vertex's identity never names a live vertex again.
pub type VertexId = (usize, u64);

/// An edge, named by its source and destination.
pub type EdgeId = (VertexId, VertexId);

/// The edges of `m` that touch neither end at `v`.
pub open spec fn edges_without(m: Map<EdgeId, u32>, v: VertexId) -> Map<EdgeId, u32> {
    Map::new(|k: EdgeId| m.contains_key(k) && k.0 != v && k.1 != v, |k: EdgeId| m[k])
}

/// The destinations of the edges leaving `v`, with their payloads.
pub open spec fn out_edges_of(m: Map<EdgeId, u32>, v: VertexId) -> Map<VertexId, u32> {
    Map::new(|w: VertexId| m.contains_key((v, w)), |w: VertexId| m[(v, w)])
}

/// The sources of the edges entering `v`, with their payloads.
pub open spec fn in_edges_of(m: Map<EdgeId, u32>, v: VertexId) -> Map<VertexId, u32> {
    Map::new(|w: VertexId| m.contains_key((w, v)), |w: VertexId| m[(w, v)])
}

pub(crate) fn same_vertex(a: VertexId, b: VertexId) -> (r: bool)
    ensures
        r == (a == b),
{
    a.0 == b.0 && a.1 == b.1
}

pub(crate) fn same_edge(a: EdgeId, b: EdgeId) -> (r: bool)
    ensures
        r == (a == b),
{
    same_vertex(a.0, b.0) && same_vertex(a.1, b.1)
}

/// A directed graph whose vertices are named by arena identities.
pub struct Graph {
    arena: generational_arena::Arena<u32>,
    edge_list: Vec<(EdgeId, u32)>,
    edge_set: Ghost<Map<EdgeId, u32>>,
    removed: Ghost<Set<VertexId>>,
}

impl Graph {
    /// The live vertices and their payloads.
    pub closed spec fn vertex_map(&self) -> Map<VertexId, u32> {
        arena_items(self.arena)
    }

    /// The edges and their payloads.
    pub closed spec fn edge_map(&self) -> Map<EdgeId, u32> {
        self.edge_set@
    }

    /// The identities of the vertices removed so far; none of them is ever
    /// handed out again.
    pub closed spec fn retired(&self) -> Set<VertexId> {
        self.removed@
    }

    /// How many more vertices can be removed before the arena's generation
    /// counter runs out.
    pub closed spec fn removals_left(&self) -> nat {
        (u64::MAX - arena_generation(self.arena)) as nat
    }

    /// The edge list lists the edge map, the vertex store is finite, both
    /// ends of every edge are live vertices, live identities carry at most
    /// the current generation and retired ones an older one.
    pub closed spec fn wf(&self) -> bool {
        &&& lists_exactly(self.edge_list@, self.edge_set@)
        &&& arena_items(self.arena).dom().finite()
        &&& forall|k: VertexId| #[trigger] arena_items(self.arena).contains_key(k) ==> k.1 <= arena_generation(self.arena)
        &&& forall|k: VertexId| #[trigger] self.removed@.contains(k) ==> k.1 < arena_generation(self.arena)
        &&& forall|k: EdgeId| #[trigger]
            self.edge_set@.contains_key(k) ==> arena_items(self.arena).contains_key(k.0)
                && arena_items(self.arena).contains_key(k.1)
    }

    /// Both maps of a well-formed graph are finite, and every edge joins two
    /// live vertices.
    pub proof fn lemma_wf(&self)
        requires
            self.wf(),
        ensures
            self.vertex_map().dom().finite(),
            self.edge_map().dom().finite(),
            forall|k: EdgeId| #[trigger]
                self.edge_map().contains_key(k) ==> self.vertex_map().contains_key(k.0)
                    && self.vertex_map().contains_key(k.1),
    {
        lemma_listing_len(self.edge_list@, self.edge_set@);
    }

    pub fn new() -> (r: Self)
        ensures
            r.wf(),
            r.vertex_map() == Map::<VertexId, u32>::empty(),
            r.edge_map() == Map::<EdgeId, u32>::empty(),
            r.retired() == Set::<VertexId>::empty(),
            r.removals_left() == u64::MAX,
    {
        Graph {
            arena: arena_new(),
            edge_list: Vec::new(),
            edge_set: Ghost(Map::empty()),
            removed: Ghost(Set::empty()),
        }
    }

    /// Adds a vertex holding `vertex` and returns its new identity, which is
    /// the only way to obtain one.
    pub fn add_vertex(&mut self, vertex: u32) -> (id: VertexId)
        requires
            old(self).wf(),
        ensures
            final(self).wf(),
            !old(self).vertex_map().contains_key(id),
            !old(self).retired().contains(id),
            final(self).vertex_map() == old(self).vertex_map().insert(id, vertex),
            final(self).edge_map() == old(self).edge_map(),
            final(self).retired() == old(self).retired(),
            final(self).removals_left() == old(self).removals_left(),
    {
        arena_insert(&mut self.arena, vertex)
    }

    /// The payload of a live vertex; `None` for any other identity.
    pub fn get_vertex(&self, vertex: VertexId) -> (r: Option<u32>)
        ensures
            r == (if self.vertex_map().contains_key(vertex) {
                Some(self.vertex_map()[vertex])
            } else {
                None::<u32>
            }),
    {
        arena_get(&self.arena, vertex)
    }

    fn find_edge(&self, edge: EdgeId) -> (r: Option<usize>)
        requires
            self.wf(),
        ensures
            match r {
                Some(i) => i < self.edge_list@.len() && self.edge_list@[i as int].0 == edge,
                None => !self.edge_map().contains_key(edge),
            },
    {
        let mut i: usize = 0;
        while i < self.edge_list.len()
            invariant
                i <= self.edge_list@.len(),
                forall|j: int| 0 <= j < i ==> self.edge_list@[j].0 != edge,
            decreases self.edge_list@.len() - i,
        {
            if same_edge(self.edge_list[i].0, edge) {
                return Some(i);
            }
            i = i + 1;
        }
        None
    }

    /// Adds an edge between two live vertices, or replaces the payload of the
    /// edge already there.
    pub fn add_edge(&mut self, edge: EdgeId, weight: u32)
        requires
            old(self).wf(),
            old(self).vertex_map().contains_key(edge.0),
            old(self).vertex_map().contains_key(edge.1),
        ensures
            final(self).wf(),
            final(self).vertex_map() == old(self).vertex_map(),
            final(self).edge_map() == old(self).edge_map().insert(edge, weight),
            final(self).retired() == old(self).retired(),
            final(self).removals_left() == old(self).removals_left(),
    {
        let ghost m = self.edge_set@;
        let ghost mut at: int = 0;
        match self.find_edge(edge) {
            Some(i) => {
                self.edge_list.set(i, (edge, weight));
                proof { at = i as int; }
            },
            None => {
                proof { at = self.edge_list@.len() as int; }
                self.edge_list.push((edge, weight));
            },
        }
        self.edge_set = Ghost(m.insert(edge, weight));
        assert(lists_exactly(self.edge_list@, self.edge_set@)) by {
            let s = self.edge_list@;
            assert forall|k: EdgeId| #[trigger] self.edge_set@.contains_key(k) implies exists|i: int|
                0 <= i < s.len() && s[i].0 == k by {
                if k != edge {
                    let j = choose|j: int| 0 <= j < old(self).edge_list@.len() && old(self).edge_list@[j].0 == k;
                    assert(s[j].0 == k);
                } else {
                    assert(s[at].0 == k);
                }
            }
        }
    }

    /// The payload of the edge, if there is one.
    pub fn get_edge(&self, edge: EdgeId) -> (r: Option<u32>)
        requires
            self.wf(),
        ensures
            r == (if self.edge_map().contains_key(edge) {
                Some(self.edge_map()[edge])
            } else {
                None::<u32>
            }),
    {
        match self.find_edge(edge) {
            Some(i) => Some(self.edge_list[i].1),
            None => None,
        }
    }

    /// Removes the vertex and every edge that touches it, in either
    /// direction, and retires its identity. Nothing changes for an identity
    /// that is not live.
    pub fn remove_vertex(&mut self, vertex: VertexId)
        requires
            old(self).wf(),
            old(self).removals_left() > 0,
        ensures
            final(self).wf(),
            final(self).vertex_map() == old(self).vertex_map().remove(vertex),
            final(self).edge_map() == edges_without(old(self).edge_map(), vertex),
            final(self).retired() == (if old(self).vertex_map().contains_key(vertex) {
                old(self).retired().insert(vertex)
            } else {
                old(self).retired()
            }),
            final(self).removals_left() == (if old(self).vertex_map().contains_key(vertex) {
                (old(self).removals_left() - 1) as nat
            } else {
                old(self).removals_left()
            }),
    {
        if arena_remove(&mut self.arena, vertex).is_some() {
            self.removed = Ghost(self.removed@.insert(vertex));
        }
        let ghost m = self.edge_set@;
        let ghost s = self.edge_list@;
        let ghost keep = edges_without(m, vertex);
        let ghost mut src: Seq<int> = Seq::empty();
        let mut kept: Vec<(EdgeId, u32)> = Vec::new();
        let mut i: usize = 0;
        while i < self.edge_list.len()
            invariant
                s == self.edge_list@,
                i <= s.len(),
                src.len() == kept@.len(),
                forall|a: int| 0 <= a < kept@.len() ==> 0 <= #[trigger] src[a] < i
                    && kept@[a] == s[src[a]] && s[src[a]].0.0 != vertex && s[src[a]].0.1 != vertex,
                forall|a: int, b: int| 0 <= a < b < kept@.len() ==> #[trigger] src[a] < #[trigger] src[b],
                forall|j: int| 0 <= j < i && (#[trigger] s[j]).0.0 != vertex && s[j].0.1 != vertex
                    ==> exists|a: int| 0 <= a < kept@.len() && src[a] == j,
            decreases s.len() - i,
        {
            let e = self.edge_list[i];
            let ghost src0 = src;
            if !same_vertex(e.0.0, vertex) && !same_vertex(e.0.1, vertex) {
                kept.push(e);
                proof { src = src.push(i as int); }
            }
            proof {
                assert forall|j: int| 0 <= j < i + 1 && (#[trigger] s[j]).0.0 != vertex && s[j].0.1 != vertex
                    implies exists|a: int| 0 <= a < kept@.len() && src[a] == j by {
                    if j == i {
                        assert(src[src.len() - 1] == j);
                    } else {
                        let a = choose|a: int| 0 <= a < src0.len() && src0[a] == j;
                        assert(src[a] == src0[a]);
                    }
                }
            }
            i = i + 1;
        }
        proof {
            assert forall|a: int| 0 <= a < kept@.len() implies keep.contains_key(#[trigger] kept@[a].0)
                && keep[kept@[a].0] == kept@[a].1 by {
                assert(s[src[a]] == kept@[a]);
            }
            assert forall|a: int, b: int| 0 <= a < b < kept@.len() implies #[trigger] kept@[a].0
                != #[trigger] kept@[b].0 by {
                assert(src[a] < src[b]);
                assert(s[src[a]].0 != s[src[b]].0);
            }
            assert forall|k: EdgeId| #[trigger] keep.contains_key(k) implies exists|a: int|
                0 <= a < kept@.len() && kept@[a].0 == k by {
                let j = choose|j: int| 0 <= j < s.len() && s[j].0 == k;
                assert(s[j].0.0 != vertex && s[j].0.1 != vertex);
                let a = choose|a: int| 0 <= a < kept@.len() && src[a] == j;
                assert(kept@[a].0 == k);
            }
        }
        self.edge_list = kept;
        self.edge_set = Ghost(keep);
    }

    /// Removes the edge, if there is one.
    pub fn remove_edge(&mut self, edge: EdgeId)
        requires
            old(self).wf(),
        ensures
            final(self).wf(),
            final(self).vertex_map() == old(self).vertex_map(),
            final(self).edge_map() == old(self).edge_map().remove(edge),
            final(self).retired() == old(self).retired(),
            final(self).removals_left() == old(self).removals_left(),
    {
        let ghost m = self.edge_set@;
        match self.find_edge(edge) {
            Some(i) => {
                let ghost s = self.edge_list@;
                self.edge_list.remove(i);
                self.edge_set = Ghost(m.remove(edge));
                assert forall|k: EdgeId| #[trigger] self.edge_set@.contains_key(k) implies exists|a: int|
                    0 <= a < self.edge_list@.len() && self.edge_list@[a].0 == k by {
                    let j = choose|j: int| 0 <= j < s.len() && s[j].0 == k;
                    if j < i {
                        assert(self.edge_list@[j].0 == k);
                    } else {
                        assert(self.edge_list@[j - 1].0 == k);
                    }
                }
                assert forall|a: int, b: int| 0 <= a < b < self.edge_list@.len() implies
                    #[trigger] self.edge_list@[a].0 != #[trigger] self.edge_list@[b].0 by {
                    let a0 = if a < i { a } else { a + 1 };
                    let b0 = if b < i { b } else { b + 1 };
                    assert(s[a0].0 != s[b0].0);
                }
            },
            None => {
                assert(m.remove(edge) =~= m);
            },
        }
    }

    /// The destinations of the edges leaving a live vertex, each once, with
    /// the edge payloads; `None` for an identity that is not live.
    pub fn adj_out(&self, vertex: VertexId) -> (r: Option<Vec<(VertexId, u32)>>)
        requires
            self.wf(),
        ensures
            r.is_some() == self.vertex_map().contains_key(vertex),
            r.is_some() ==> lists_exactly(r.unwrap()@, out_edges_of(self.edge_map(), vertex)),
    {
        if arena_get(&self.arena, vertex).is_none() {
            return None;
        }
        let ghost m = out_edges_of(self.edge_set@, vertex);
        let ghost s = self.edge_list@;
        let ghost mut src: Seq<int> = Seq::empty();
        let mut r: Vec<(VertexId, u32)> = Vec::new();
        let mut i: usize = 0;
        while i < self.edge_list.len()
            invariant
                s == self.edge_list@,
                i <= s.len(),
                src.len() == r@.len(),
                forall|a: int| 0 <= a < r@.len() ==> 0 <= #[trigger] src[a] < i
                    && s[src[a]].0.0 == vertex && r@[a].0 == s[src[a]].0.1
                    && r@[a].1 == s[src[a]].1,
                forall|a: int, b: int| 0 <= a < b < r@.len() ==> #[trigger] src[a] < #[trigger] src[b],
                forall|j: int| 0 <= j < i && (#[trigger] s[j]).0.0 == vertex
                    ==> exists|a: int| 0 <= a < r@.len() && src[a] == j,
            decreases s.len() - i,
        {
            let e = self.edge_list[i];
            let ghost src0 = src;
            if same_vertex(e.0.0, vertex) {
                r.push((e.0.1, e.1));
                proof { src = src.push(i as int); }
            }
            proof {
                assert forall|j: int| 0 <= j < i + 1 && (#[trigger] s[j]).0.0 == vertex
                    implies exists|a: int| 0 <= a < r@.len() && src[a] == j by {
                    if j == i {
                        assert(src[src.len() - 1] == j);
                    } else {
                        let a = choose|a: int| 0 <= a < src0.len() && src0[a] == j;
                        assert(src[a] == src0[a]);
                    }
                }
            }
            i = i + 1;
        }
        proof {
            assert forall|a: int| 0 <= a < r@.len() implies m.contains_key(#[trigger] r@[a].0)
                && m[r@[a].0] == r@[a].1 by {
                assert(s[src[a]].0 == (vertex, r@[a].0));
                assert(self.edge_set@.contains_key(s[src[a]].0));
            }
            assert forall|a: int, b: int| 0 <= a < b < r@.len() implies #[trigger] r@[a].0
                != #[trigger] r@[b].0 by {
                assert(src[a] < src[b]);
                assert(s[src[a]].0 != s[src[b]].0);
            }
            assert forall|w: VertexId| #[trigger] m.contains_key(w) implies exists|a: int|
                0 <= a < r@.len() && r@[a].0 == w by {
                let k = (vertex, w);
                assert(self.edge_set@.contains_key(k));
                let j = choose|j: int| 0 <= j < s.len() && s[j].0 == k;
                assert(s[j].0.0 == vertex);
                let a = choose|a: int| 0 <= a < r@.len() && src[a] == j;
                assert(r@[a].0 == w);
            }
        }
        Some(r)
    }

    /// The sources of the edges entering a live vertex, each once, with
    /// the edge payloads; `None` for an identity that is not live.
    pub fn adj_in(&self, vertex: VertexId) -> (r: Option<Vec<(VertexId, u32)>>)
        requires
            self.wf(),
        ensures
            r.is_some() == self.vertex_map().contains_key(vertex),
            r.is_some() ==> lists_exactly(r.unwrap()@, in_edges_of(self.edge_map(), vertex)),
    {
        if arena_get(&self.arena, vertex).is_none() {
            return None;
        }
        let ghost m = in_edges_of(self.edge_set@, vertex);
        let ghost s = self.edge_list@;
        let ghost mut src: Seq<int> = Seq::empty();
        let mut r: Vec<(VertexId, u32)> = Vec::new();
        let mut i: usize = 0;
        while i < self.edge_list.len()
            invariant
                s == self.edge_list@,
                i <= s.len(),
                src.len() == r@.len(),
                forall|a: int| 0 <= a < r@.len() ==> 0 <= #[trigger] src[a] < i
                    && s[src[a]].0.1 == vertex && r@[a].0 == s[src[a]].0.0
                    && r@[a].1 == s[src[a]].1,
                forall|a: int, b: int| 0 <= a < b < r@.len() ==> #[trigger] src[a] < #[trigger] src[b],
                forall|j: int| 0 <= j < i && (#[trigger] s[j]).0.1 == vertex
                    ==> exists|a: int| 0 <= a < r@.len() && src[a] == j,
            decreases s.len() - i,
        {
            let e = self.edge_list[i];
            let ghost src0 = src;
            if same_vertex(e.0.1, vertex) {
                r.push((e.0.0, e.1));
                proof { src = src.push(i as int); }
            }
            proof {
                assert forall|j: int| 0 <= j < i + 1 && (#[trigger] s[j]).0.1 == vertex
                    implies exists|a: int| 0 <= a < r@.len() && src[a] == j by {
                    if j == i {
                        assert(src[src.len() - 1] == j);
                    } else {
                        let a = choose|a: int| 0 <= a < src0.len() && src0[a] == j;
                        assert(src[a] == src0[a]);
                    }
                }
            }
            i = i + 1;
        }
        proof {
            assert forall|a: int| 0 <= a < r@.len() implies m.contains_key(#[trigger] r@[a].0)
                && m[r@[a].0] == r@[a].1 by {
                assert(s[src[a]].0 == (r@[a].0, vertex));
                assert(self.edge_set@.contains_key(s[src[a]].0));
            }
            assert forall|a: int, b: int| 0 <= a < b < r@.len() implies #[trigger] r@[a].0
                != #[trigger] r@[b].0 by {
                assert(src[a] < src[b]);
                assert(s[src[a]].0 != s[src[b]].0);
            }
            assert forall|w: VertexId| #[trigger] m.contains_key(w) implies exists|a: int|
                0 <= a < r@.len() && r@[a].0 == w by {
                let k = (w, vertex);
                assert(self.edge_set@.contains_key(k));
                let j = choose|j: int| 0 <= j < s.len() && s[j].0 == k;
                assert(s[j].0.1 == vertex);
                let a = choose|a: int| 0 <= a < r@.len() && src[a] == j;
                assert(r@[a].0 == w);
            }
        }
        Some(r)
    }

    /// The number of edges entering the vertex; 0 for an identity that is not live.
    pub fn indegree(&self, vertex: VertexId) -> (r: usize)
        requires
            self.wf(),
        ensures
            r == in_edges_of(self.edge_map(), vertex).len(),
    {
        match self.adj_in(vertex) {
            Some(v) => {
                proof { lemma_listing_len(v@, in_edges_of(self.edge_map(), vertex)); }
                v.len()
            },
            None => {
                proof { self.lemma_wf(); }
                assert(in_edges_of(self.edge_map(), vertex) =~= Map::empty());
                0
            },
        }
    }

    /// The number of edges leaving the vertex; 0 for an identity that is not live.
    pub fn outdegree(&self, vertex: VertexId) -> (r: usize)
        requires
            self.wf(),
        ensures
            r == out_edges_of(self.edge_map(), vertex).len(),
    {
        match self.adj_out(vertex) {
            Some(v) => {
                proof { lemma_listing_len(v@, out_edges_of(self.edge_map(), vertex)); }
                v.len()
            },
            None => {
                proof { self.lemma_wf(); }
                assert(out_edges_of(self.edge_map(), vertex) =~= Map::empty());
                0
            },
        }
    }

    /// The number of live vertices.
    pub fn vertex_count(&self) -> (r: usize)
        ensures
            r == self.vertex_map().len(),
    {
        arena_len(&self.arena)
    }

    /// The number of edges.
    pub fn edge_count(&self) -> (r: usize)
        requires
            self.wf(),
        ensures
            r == self.edge_map().len(),
    {
        proof { lemma_listing_len(self.edge_list@, self.edge_set@); }
        self.edge_list.len()
    }

    /// Each live vertex once, with its payload.
    pub fn vertices(&self) -> (r: Vec<(VertexId, u32)>)
        ensures
            lists_exactly(r@, self.vertex_map()),
    {
        arena_entries(&self.arena)
    }

    /// Each edge once, with its payload.
    pub fn edges(&self) -> (r: Vec<(EdgeId, u32)>)
        requires
            self.wf(),
        ensures
            lists_exactly(r@, self.edge_map()),
    {
        let mut r: Vec<(EdgeId, u32)> = Vec::new();
        let mut i: usize = 0;
        while i < self.edge_list.len()
            invariant
                i <= self.edge_list@.len(),
                r@ == self.edge_list@.subrange(0, i as int),
            decreases self.edge_list@.len() - i,
        {
            r.push(self.edge_list[i]);
            i = i + 1;
        }
        assert(r@ =~= self.edge_list@);
        r
    }
}

} // verus!
