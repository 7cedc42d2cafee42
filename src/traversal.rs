//! Breadth-first search, forward-reachability components and shortest
//! paths over a [`GraphMap`].
use vstd::prelude::*;
use std::collections::{HashMap, HashSet};
use crate::keyed::{predecessors, successors, GraphMap};
use crate::listing::lists_exactly;
use crate::paths::{
    is_path, lemma_closed_backward, lemma_closed_forward, lemma_level_bound, lemma_reach_self,
    lemma_reach_step, lemma_walk_step, path_weight, reach_set, reachable, walk_of, walk_within,
};

verus! {

broadcast use vstd::std_specs::hash::group_hash_axioms;

/// The vertex at position `i` of `s` has an edge into it from a vertex
/// earlier in `s`.
pub open spec fn entered_from_earlier(m: Map<(u32, u32), u32>, s: Seq<u32>, i: int) -> bool {
    exists|j: int| 0 <= j < i && m.contains_key((s[j], s[i]))
}

/// A sequence without repeats drawn from a finite set is no longer than the set.
proof fn lemma_distinct_bound(s: Seq<u32>, v: Set<u32>)
    requires
        s.no_duplicates(),
        v.finite(),
        forall|i: int| 0 <= i < s.len() ==> v.contains(#[trigger] s[i]),
    ensures
        s.len() <= v.len(),
{
    s.unique_seq_to_set();
    vstd::set_lib::lemma_len_subset(s.to_set(), v);
}

proof fn lemma_push_contains(s: Seq<u32>, x: u32)
    ensures
        forall|v: u32| #[trigger] s.push(x).contains(v) == (s.contains(v) || v == x),
{
    assert forall|v: u32| #[trigger] s.push(x).contains(v) == (s.contains(v) || v == x) by {
        if s.contains(v) {
            let i = choose|i: int| 0 <= i < s.len() && s[i] == v;
            assert(s.push(x)[i] == v);
        }
        if v == x {
            assert(s.push(x)[s.len() as int] == v);
        }
        if s.push(x).contains(v) && v != x {
            let i = choose|i: int| 0 <= i < s.len() + 1 && s.push(x)[i] == v;
            assert(s[i] == v);
        }
    }
}

/// `x` capped at the largest `u32`.
pub open spec fn saturated(x: int) -> int {
    if x > u32::MAX {
        u32::MAX as int
    } else {
        x
    }
}

/// `d` bounds distances to a target from above along every edge into a
/// vertex it holds: an edge `(x, y)` with `y` held has `x` held too, with
/// `d[x] <= d[y] + weight`.
pub open spec fn certifies(m: Map<(u32, u32), u32>, d: Map<u32, u32>) -> bool {
    forall|x: u32, y: u32| d.contains_key(y) && #[trigger] m.contains_key((x, y))
        ==> d.contains_key(x) && d[x] <= d[y] + m[(x, y)]
}

proof fn lemma_weight_nonneg(m: Map<(u32, u32), u32>, p: Seq<u32>)
    ensures
        path_weight(m, p) >= 0,
    decreases p.len(),
{
    if p.len() > 1 {
        lemma_weight_nonneg(m, p.drop_first());
    }
}

proof fn lemma_weight_push(m: Map<(u32, u32), u32>, p: Seq<u32>, x: u32)
    requires
        p.len() >= 1,
    ensures
        path_weight(m, p.push(x)) == path_weight(m, p) + m[(p.last(), x)],
    decreases p.len(),
{
    let px = p.push(x);
    if p.len() > 1 {
        assert(px.drop_first() =~= p.drop_first().push(x));
        lemma_weight_push(m, p.drop_first(), x);
        assert(p.drop_first().last() == p.last());
        assert(px[0] == p[0] && px[1] == p[1]);
    } else {
        assert(px.drop_first().len() == 1);
        assert(px[0] == p.last() && px[1] == x);
        assert(path_weight(m, px.drop_first()) == 0);
    }
}

/// Under a certificate, no path into a held vertex weighs less than the
/// bound at its start.
proof fn lemma_certified_bound(m: Map<(u32, u32), u32>, d: Map<u32, u32>, q: Seq<u32>)
    requires
        certifies(m, d),
        is_path(m, q),
        d.contains_key(q.last()),
        d[q.last()] == 0,
    ensures
        d.contains_key(q[0]),
        d[q[0]] <= path_weight(m, q),
    decreases q.len(),
{
    if q.len() > 1 {
        let t = q.drop_first();
        assert forall|i: int| 0 <= i < t.len() - 1 implies #[trigger] m.contains_key((t[i], t[i + 1])) by {
            let j = i + 1;
            assert(m.contains_key((q[j], q[j + 1])));
        }
        lemma_certified_bound(m, d, t);
        assert(m.contains_key((q[0], q[1])));
    }
}

/// The edges of `m` from a vertex of `src` to a vertex of `dst`.
pub open spec fn edges_between(m: Map<(u32, u32), u32>, src: Set<u32>, dst: Set<u32>) -> Map<(u32, u32), u32> {
    Map::new(|k: (u32, u32)| m.contains_key(k) && src.contains(k.0) && dst.contains(k.1), |k: (u32, u32)| m[k])
}

/// The vertices held by the components before position `i`.
pub open spec fn held_before(comps: Seq<GraphMap>, i: int) -> Set<u32> {
    Set::new(|p: u32| exists|j: int| 0 <= j < i && (#[trigger] comps[j]).vertex_set().contains(p))
}

/// Component `i` of `comps` is seeded by `s`, a vertex of `g` that no earlier
/// component holds: it holds what `s` reaches, less what earlier components hold.
pub open spec fn seeded_at(g: GraphMap, comps: Seq<GraphMap>, i: int, s: u32) -> bool {
    &&& g.vertex_set().contains(s)
    &&& !held_before(comps, i).contains(s)
    &&& comps[i].vertex_set() == reach_set(g.edge_map(), s).difference(held_before(comps, i))
}

/// Component `i` of `comps` has a seed.
pub open spec fn has_seed(g: GraphMap, comps: Seq<GraphMap>, i: int) -> bool {
    exists|s: u32| #[trigger] seeded_at(g, comps, i, s)
}

/// `comps` is what `connected_components` makes of `g`: each component is
/// seeded as above and holds every edge of `g` between its own vertices; the
/// components share no vertex, and every vertex of `g` is in one of them.
pub open spec fn splits_into(g: GraphMap, comps: Seq<GraphMap>) -> bool {
    &&& forall|i: int| 0 <= i < comps.len() ==> (#[trigger] comps[i]).wf()
    &&& forall|p: u32| #[trigger] g.vertex_set().contains(p) ==> exists|i: int|
        0 <= i < comps.len() && comps[i].vertex_set().contains(p)
    &&& forall|i: int| 0 <= i < comps.len() ==> #[trigger] has_seed(g, comps, i)
    &&& forall|i: int| 0 <= i < comps.len() ==> (#[trigger] comps[i]).edge_map()
        == edges_between(g.edge_map(), comps[i].vertex_set(), comps[i].vertex_set())
    &&& forall|i: int, j: int| 0 <= i < j < comps.len() ==> (#[trigger] comps[i]).vertex_set().disjoint(
        (#[trigger] comps[j]).vertex_set())
}

impl GraphMap {
    /// Visits the vertices reachable from `start` along outbound edges in
    /// breadth-first order, each once; a vertex is marked when it is queued.
    /// The distance from `start` never decreases along the result: a walk
    /// to a later vertex is never shorter than the shortest walk to an
    /// earlier one.
    pub fn bfs(&self, start: &u32) -> (r: Vec<u32>)
        requires
            self.wf(),
            self.vertex_set().contains(*start),
        ensures
            r@.len() >= 1,
            r@[0] == *start,
            r@.no_duplicates(),
            forall|v: u32| r@.contains(v) == reachable(self.edge_map(), *start, v),
            forall|i: int| 0 < i < r@.len() ==> #[trigger] entered_from_earlier(self.edge_map(), r@, i),
            forall|i: int, j: int, q: Seq<u32>| 0 <= i <= j < r@.len() && #[trigger] is_path(self.edge_map(), q)
                && q[0] == *start && q.last() == #[trigger] r@[j]
                ==> walk_within(self.edge_map(), *start, #[trigger] r@[i], q.len()),
    {
        let s = *start;
        let ghost em = self.edge_map();
        let ghost vs = self.vertex_set();
        proof {
            self.lemma_wf();
            lemma_reach_self(em, s);
            vstd::set_lib::lemma_len_subset(set![s], vs);
        }
        let mut visited: HashSet<u32> = HashSet::new();
        let mut order: Vec<u32> = Vec::new();
        order.push(s);
        visited.insert(s);
        let ghost mut lvl: Map<u32, nat> = map![s => 0nat];
        proof {
            lemma_push_contains(Seq::empty(), s);
            assert(order@ =~= Seq::<u32>::empty().push(s));
            let single = seq![s];
            assert(is_path(em, single) && single[0] == s && single.last() == s && single.len() == 1);
            assert(walk_of(em, s, s, 1));
        }
        let mut head: usize = 0;
        while head < order.len()
            invariant
                self.wf(),
                em == self.edge_map(),
                vs == self.vertex_set(),
                vs.finite(),
                forall|k: (u32, u32)| #[trigger] em.contains_key(k) ==> vs.contains(k.0) && vs.contains(k.1),
                order@.len() >= 1,
                order@[0] == s,
                order@.no_duplicates(),
                head <= order@.len(),
                order@.len() <= vs.len(),
                forall|v: u32| visited@.contains(v) == order@.contains(v),
                forall|a: int| 0 <= a < order@.len() ==> vs.contains(#[trigger] order@[a])
                    && reachable(em, s, order@[a]),
                forall|a: int, q: u32| 0 <= a < head && #[trigger] em.contains_key((order@[a], q))
                    ==> order@.contains(q),
                forall|i: int| 0 < i < order@.len() ==> #[trigger] entered_from_earlier(em, order@, i),
                lvl.contains_key(s) && lvl[s] == 0,
                forall|v: u32| #[trigger] lvl.contains_key(v) ==> order@.contains(v),
                forall|a: int| 0 <= a < order@.len() ==> lvl.contains_key(#[trigger] order@[a])
                    && walk_of(em, s, order@[a], lvl[order@[a]] + 1),
                forall|a: int, b: int| 0 <= a <= b < order@.len() ==> lvl[#[trigger] order@[a]] <= lvl[#[trigger] order@[b]],
                head < order@.len() ==> lvl[order@.last()] <= lvl[order@[head as int]] + 1,
                forall|a: int, y: u32| 0 <= a < head && #[trigger] em.contains_key((order@[a], y))
                    ==> lvl.contains_key(y) && lvl[y] <= lvl[order@[a]] + 1,
            decreases vs.len() - head,
        {
            let current = order[head];
            let nbrs = self.adj_out(current).unwrap();
            let mut j: usize = 0;
            while j < nbrs.len()
                invariant
                    self.wf(),
                    em == self.edge_map(),
                    vs == self.vertex_set(),
                    vs.finite(),
                    forall|k: (u32, u32)| #[trigger] em.contains_key(k) ==> vs.contains(k.0) && vs.contains(k.1),
                    lists_exactly(nbrs@, successors(em, current)),
                    head < order@.len(),
                    current == order@[head as int],
                    order@.len() >= 1,
                    order@[0] == s,
                    order@.no_duplicates(),
                    order@.len() <= vs.len(),
                    forall|v: u32| visited@.contains(v) == order@.contains(v),
                    forall|a: int| 0 <= a < order@.len() ==> vs.contains(#[trigger] order@[a])
                        && reachable(em, s, order@[a]),
                    forall|a: int, q: u32| 0 <= a < head && #[trigger] em.contains_key((order@[a], q))
                        ==> order@.contains(q),
                    j <= nbrs@.len(),
                    forall|b: int| 0 <= b < j ==> order@.contains(#[trigger] nbrs@[b].0),
                    forall|i: int| 0 < i < order@.len() ==> #[trigger] entered_from_earlier(em, order@, i),
                    lvl.contains_key(s) && lvl[s] == 0,
                    forall|v: u32| #[trigger] lvl.contains_key(v) ==> order@.contains(v),
                    forall|a: int| 0 <= a < order@.len() ==> lvl.contains_key(#[trigger] order@[a])
                        && walk_of(em, s, order@[a], lvl[order@[a]] + 1),
                    forall|a: int, b: int| 0 <= a <= b < order@.len() ==> lvl[#[trigger] order@[a]] <= lvl[#[trigger] order@[b]],
                    lvl[order@.last()] <= lvl[current] + 1,
                    forall|a: int, y: u32| 0 <= a < head && #[trigger] em.contains_key((order@[a], y))
                        ==> lvl.contains_key(y) && lvl[y] <= lvl[order@[a]] + 1,
                    forall|b: int| 0 <= b < j ==> lvl.contains_key(#[trigger] nbrs@[b].0) && lvl[nbrs@[b].0] <= lvl[current] + 1,
                decreases nbrs@.len() - j,
            {
                let q = nbrs[j].0;
                if !visited.contains(&q) {
                    proof {
                        assert(successors(em, current).contains_key(nbrs@[j as int].0));
                        assert(em.contains_key((current, q)));
                        lemma_reach_step(em, s, current, q);
                        let o2 = order@.push(q);
                        assert forall|i: int| 0 <= i < o2.len() implies vs.contains(#[trigger] o2[i]) by {
                            if i < order@.len() {
                                assert(o2[i] == order@[i]);
                            }
                        }
                        lemma_distinct_bound(o2, vs);
                        lemma_push_contains(order@, q);
                    }
                    let ghost o_old = order@;
                    let ghost l_old = lvl;
                    visited.insert(q);
                    order.push(q);
                    proof {
                        assert(order@[order@.len() - 1] == q);
                        assert(!l_old.contains_key(q));
                        let lq: nat = lvl[current] + 1;
                        lemma_walk_step(em, s, current, q, (lvl[current] + 1) as nat);
                        lvl = lvl.insert(q, lq);
                        assert forall|v: u32| #[trigger] lvl.contains_key(v) implies order@.contains(v) by {
                            if v != q {
                                assert(o_old.contains(v));
                                let k = choose|k: int| 0 <= k < o_old.len() && o_old[k] == v;
                                assert(order@[k] == v);
                            }
                        }
                        assert forall|a: int| 0 <= a < order@.len() implies lvl.contains_key(#[trigger] order@[a])
                            && walk_of(em, s, order@[a], lvl[order@[a]] + 1) by {
                            if a < o_old.len() {
                                assert(order@[a] == o_old[a]);
                                assert(o_old[a] != q);
                            }
                        }
                        assert(l_old[o_old.last()] <= l_old[current] + 1);
                        assert forall|a: int, b: int| 0 <= a <= b < order@.len() implies lvl[#[trigger] order@[a]]
                            <= lvl[#[trigger] order@[b]] by {
                            if a < o_old.len() {
                                assert(order@[a] == o_old[a]);
                                assert(o_old[a] != q);
                                assert(l_old[o_old[a]] <= l_old[o_old[o_old.len() - 1]]);
                            }
                            if b < o_old.len() {
                                assert(order@[b] == o_old[b]);
                                assert(o_old[b] != q);
                            }
                        }
                        assert forall|a: int, y: u32| 0 <= a < head && #[trigger] em.contains_key((order@[a], y))
                            implies lvl.contains_key(y) && lvl[y] <= lvl[order@[a]] + 1 by {
                            assert(order@[a] == o_old[a]);
                            assert(o_old[a] != q);
                            assert(l_old.contains_key(y));
                        }
                        assert forall|b: int| 0 <= b < j + 1 implies lvl.contains_key(#[trigger] nbrs@[b].0)
                            && lvl[nbrs@[b].0] <= lvl[current] + 1 by {
                            if b < j {
                                assert(l_old.contains_key(nbrs@[b].0));
                            }
                        }
                        assert forall|i: int| 0 < i < order@.len() implies #[trigger] entered_from_earlier(em, order@, i) by {
                            if i == o_old.len() {
                                assert(order@[head as int] == current);
                                assert(em.contains_key((order@[head as int], order@[i])));
                            } else {
                                assert(entered_from_earlier(em, o_old, i));
                                let j = choose|j: int| 0 <= j < i && em.contains_key((o_old[j], o_old[i]));
                                assert(order@[j] == o_old[j] && order@[i] == o_old[i]);
                                assert(em.contains_key((order@[j], order@[i])));
                            }
                        }
                    }
                } else {
                    proof {
                        assert(order@.contains(q));
                        let k = choose|k: int| 0 <= k < order@.len() && order@[k] == q;
                        assert(lvl[order@[k]] <= lvl[order@[order@.len() - 1]]);
                    }
                }
                j = j + 1;
            }
            proof {
                assert forall|a: int, y: u32| 0 <= a < head + 1 && #[trigger] em.contains_key((order@[a], y))
                    implies lvl.contains_key(y) && lvl[y] <= lvl[order@[a]] + 1 by {
                    if a == head {
                        assert(successors(em, current).contains_key(y));
                        let b = choose|b: int| 0 <= b < nbrs@.len() && nbrs@[b].0 == y;
                        assert(lvl.contains_key(nbrs@[b].0));
                    }
                }
                if head + 1 < order@.len() {
                    assert(lvl[order@[head as int]] <= lvl[order@[head + 1]]);
                }
                assert forall|a: int, q: u32| 0 <= a < head + 1 && #[trigger] em.contains_key((order@[a], q))
                    implies order@.contains(q) by {
                    if a == head {
                        assert(successors(em, current).contains_key(q));
                        let b = choose|b: int| 0 <= b < nbrs@.len() && nbrs@[b].0 == q;
                        assert(order@.contains(nbrs@[b].0));
                    }
                }
            }
            head = head + 1;
        }
        proof {
            let st = order@.to_set();
            assert forall|x: u32, y: u32| st.contains(x) && #[trigger] em.contains_key((x, y)) implies st.contains(y) by {
                let a = choose|a: int| 0 <= a < order@.len() && order@[a] == x;
                assert(em.contains_key((order@[a], y)));
            }
            assert forall|v: u32| order@.contains(v) == reachable(em, s, v) by {
                if reachable(em, s, v) {
                    assert(st.contains(order@[0]));
                    lemma_closed_forward(em, st, s, v);
                }
            }
            assert forall|x: u32, y: u32| lvl.contains_key(x) && #[trigger] em.contains_key((x, y)) implies
                lvl.contains_key(y) && lvl[y] <= lvl[x] + 1 by {
                let a = choose|a: int| 0 <= a < order@.len() && order@[a] == x;
                assert(em.contains_key((order@[a], y)));
            }
            assert forall|i: int, j: int, q: Seq<u32>| 0 <= i <= j < order@.len() && #[trigger] is_path(em, q)
                && q[0] == s && q.last() == #[trigger] order@[j]
                implies walk_within(em, s, #[trigger] order@[i], q.len()) by {
                lemma_level_bound(em, lvl, q);
                assert(lvl[order@[i]] <= lvl[order@[j]]);
                assert(walk_of(em, s, order@[i], lvl[order@[i]] + 1));
                let p = choose|p: Seq<u32>| is_path(em, p) && p[0] == s && p.last() == order@[i] && p.len() == lvl[order@[i]] + 1;
                assert(p.len() <= q.len());
            }
        }
        order
    }

    /// The lightest path from `start` to `end` and its weight, or `None` if
    /// `start` does not reach `end`. The search runs backward from `end`
    /// along inbound edges, settling the closest unsettled vertex each round
    /// and keeping for each vertex the next step toward `end`. A weight that
    /// does not fit in `u32` is reported as `u32::MAX`.
    #[verifier::rlimit(60)]
    pub fn dijkstra(&self, start: u32, end: u32) -> (r: Option<(Vec<u32>, u32)>)
        requires
            self.wf(),
            self.vertex_set().contains(end),
        ensures
            r.is_some() == reachable(self.edge_map(), start, end),
            r matches Some((p, c)) ==> {
                &&& is_path(self.edge_map(), p@)
                &&& p@.no_duplicates()
                &&& p@[0] == start
                &&& p@.last() == end
                &&& c == saturated(path_weight(self.edge_map(), p@))
                &&& forall|q: Seq<u32>|
                    is_path(self.edge_map(), q) && q[0] == start && q.last() == end
                        ==> c <= path_weight(self.edge_map(), q)
            },
    {
        let ghost em = self.edge_map();
        let ghost vs = self.vertex_set();
        proof { self.lemma_wf(); }
        let mut dist: HashMap<u32, u32> = HashMap::new();
        let mut next: HashMap<u32, u32> = HashMap::new();
        let mut settled: HashSet<u32> = HashSet::new();
        let mut found: Vec<u32> = Vec::new();
        let ghost mut rank: Map<u32, nat> = Map::empty();
        dist.insert(end, 0);
        found.push(end);
        proof {
            lemma_push_contains(Seq::empty(), end);
            assert(found@ =~= Seq::<u32>::empty().push(end));
        }
        loop
            invariant
                self.wf(),
                em == self.edge_map(),
                vs == self.vertex_set(),
                vs.finite(),
                forall|k: (u32, u32)| #[trigger] em.contains_key(k) ==> vs.contains(k.0) && vs.contains(k.1),
                forall|v: u32| dist@.contains_key(v) == found@.contains(v),
                forall|a: int| 0 <= a < found@.len() ==> vs.contains(#[trigger] found@[a]),
                dist@.contains_key(end),
                dist@[end] == 0,
                settled@.finite(),
                settled@.subset_of(vs),
                forall|v: u32| #[trigger] settled@.contains(v) ==> dist@.contains_key(v) && rank.contains_key(v)
                    && rank[v] < settled@.len(),
                forall|s: u32, u: u32| #[trigger] settled@.contains(s) && #[trigger] dist@.contains_key(u)
                    && !settled@.contains(u) ==> dist@[s] <= dist@[u],
                forall|x: u32| #[trigger] next@.contains_key(x) ==> x != end && dist@.contains_key(x)
                    && settled@.contains(next@[x]) && em.contains_key((x, next@[x]))
                    && dist@[x] == saturated(dist@[next@[x]] + em[(x, next@[x])]),
                forall|x: u32| #[trigger] dist@.contains_key(x) ==> x == end || next@.contains_key(x),
                forall|x: u32| #[trigger] settled@.contains(x) && next@.contains_key(x)
                    ==> rank[next@[x]] < rank[x],
                forall|x: u32, y: u32| settled@.contains(y) && #[trigger] em.contains_key((x, y))
                    ==> dist@.contains_key(x) && dist@[x] <= dist@[y] + em[(x, y)],
            ensures
                forall|v: u32| #[trigger] dist@.contains_key(v) ==> settled@.contains(v),
            decreases vs.len() - settled@.len(),
        {
            let mut best: Option<usize> = None;
            let mut best_d: u32 = 0;
            let mut a: usize = 0;
            while a < found.len()
                invariant
                    forall|v: u32| dist@.contains_key(v) == found@.contains(v),
                    a <= found@.len(),
                    best matches Some(b) ==> b < found@.len() && !settled@.contains(found@[b as int])
                        && dist@.contains_key(found@[b as int]) && dist@[found@[b as int]] == best_d,
                    forall|i: int| 0 <= i < a && !settled@.contains(#[trigger] found@[i]) ==> best.is_some()
                        && dist@.contains_key(found@[i]) && best_d <= dist@[found@[i]],
                decreases found@.len() - a,
            {
                let v = found[a];
                if !settled.contains(&v) {
                    proof { assert(found@.contains(v)); }
                    let d = *dist.get(&v).unwrap();
                    match best {
                        Some(_) => {
                            if d < best_d {
                                best = Some(a);
                                best_d = d;
                            }
                        },
                        None => {
                            best = Some(a);
                            best_d = d;
                        },
                    }
                }
                a = a + 1;
            }
            let node = match best {
                Some(b) => found[b],
                None => {
                    proof {
                        assert forall|v: u32| #[trigger] dist@.contains_key(v) implies settled@.contains(v) by {
                            assert(found@.contains(v));
                            let i = choose|i: int| 0 <= i < found@.len() && found@[i] == v;
                            assert(!settled@.contains(found@[i]) ==> best.is_some());
                        }
                    }
                    break;
                },
            };
            let ghost s_old = settled@;
            proof {
                assert forall|u: u32| #[trigger] dist@.contains_key(u) && !settled@.contains(u) implies
                    best_d <= dist@[u] by {
                    assert(found@.contains(u));
                    let i = choose|i: int| 0 <= i < found@.len() && found@[i] == u;
                    assert(!settled@.contains(found@[i]));
                }
                rank = rank.insert(node, settled@.len());
                assert(found@.contains(node));
            }
            settled.insert(node);
            proof {
                assert(vs.contains(node));
                vstd::set_lib::lemma_len_subset(settled@, vs);
                assert(settled@.len() == s_old.len() + 1);
            }
            let dn = best_d;
            let nbrs = self.adj_in(node).unwrap();
            let mut j: usize = 0;
            while j < nbrs.len()
                invariant
                    self.wf(),
                    em == self.edge_map(),
                    vs == self.vertex_set(),
                    vs.finite(),
                    forall|k: (u32, u32)| #[trigger] em.contains_key(k) ==> vs.contains(k.0) && vs.contains(k.1),
                    lists_exactly(nbrs@, predecessors(em, node)),
                    settled@.contains(node),
                    dist@.contains_key(node),
                    dist@[node] == dn,
                    settled@.len() <= vs.len(),
                    forall|s: u32| #[trigger] settled@.contains(s) ==> dist@.contains_key(s) && dist@[s] <= dn,
                    forall|v: u32| dist@.contains_key(v) == found@.contains(v),
                    forall|a: int| 0 <= a < found@.len() ==> vs.contains(#[trigger] found@[a]),
                    dist@.contains_key(end),
                    dist@[end] == 0,
                    settled@.finite(),
                    settled@.subset_of(vs),
                    forall|v: u32| #[trigger] settled@.contains(v) ==> dist@.contains_key(v) && rank.contains_key(v)
                        && rank[v] < settled@.len(),
                    forall|s: u32, u: u32| #[trigger] settled@.contains(s) && #[trigger] dist@.contains_key(u)
                        && !settled@.contains(u) ==> dist@[s] <= dist@[u],
                    forall|x: u32| #[trigger] next@.contains_key(x) ==> x != end && dist@.contains_key(x)
                        && settled@.contains(next@[x]) && em.contains_key((x, next@[x]))
                        && dist@[x] == saturated(dist@[next@[x]] + em[(x, next@[x])]),
                    forall|x: u32| #[trigger] dist@.contains_key(x) ==> x == end || next@.contains_key(x),
                    forall|x: u32| #[trigger] settled@.contains(x) && next@.contains_key(x)
                        ==> rank[next@[x]] < rank[x],
                    forall|x: u32, y: u32| settled@.contains(y) && y != node && #[trigger] em.contains_key((x, y))
                        ==> dist@.contains_key(x) && dist@[x] <= dist@[y] + em[(x, y)],
                    j <= nbrs@.len(),
                    forall|b: int| 0 <= b < j ==> dist@.contains_key(#[trigger] nbrs@[b].0)
                        && dist@[nbrs@[b].0] <= dn + nbrs@[b].1,
                decreases nbrs@.len() - j,
            {
                let prev = nbrs[j].0;
                let cost = nbrs[j].1;
                let nd: u32 = if dn > u32::MAX - cost { u32::MAX } else { dn + cost };
                proof {
                    assert(predecessors(em, node).contains_key(nbrs@[j as int].0));
                    assert(em.contains_key((prev, node)));
                    assert(em[(prev, node)] == cost);
                    assert(nd == saturated(dn + cost));
                }
                let known = dist.get(&prev);
                let improve = match known {
                    Some(d) => nd < *d,
                    None => true,
                };
                if improve {
                    proof {
                        if dist@.contains_key(prev) {
                            assert(!settled@.contains(prev));
                        }
                    }
                    let ghost d_old = dist@;
                    let ghost f_old = found@;
                    if known.is_none() {
                        found.push(prev);
                        proof { lemma_push_contains(f_old, prev); }
                    }
                    dist.insert(prev, nd);
                    next.insert(prev, node);
                    proof {
                        assert forall|x: u32| #[trigger] next@.contains_key(x) && x != prev implies
                            settled@.contains(next@[x]) && next@[x] != prev by {}
                        assert forall|b: int| 0 <= b < j + 1 implies dist@.contains_key(#[trigger] nbrs@[b].0)
                            && dist@[nbrs@[b].0] <= dn + nbrs@[b].1 by {
                            if nbrs@[b].0 != prev {
                                assert(d_old.contains_key(nbrs@[b].0));
                            }
                        }
                    }
                }
                j = j + 1;
            }
            proof {
                assert forall|x: u32, y: u32| settled@.contains(y) && #[trigger] em.contains_key((x, y)) implies
                    dist@.contains_key(x) && dist@[x] <= dist@[y] + em[(x, y)] by {
                    if y == node {
                        assert(predecessors(em, node).contains_key(x));
                        let b = choose|b: int| 0 <= b < nbrs@.len() && nbrs@[b].0 == x;
                        assert(dist@.contains_key(nbrs@[b].0));
                    }
                }
            }
        }
        let start_known = dist.get(&start).is_some();
        if !start_known {
            proof {
                if reachable(em, start, end) {
                    assert forall|x: u32, y: u32| dist@.dom().contains(y) && #[trigger] em.contains_key((x, y))
                        implies dist@.dom().contains(x) by {}
                    lemma_closed_backward(em, dist@.dom(), start, end);
                }
            }
            return None;
        }
        let cost = *dist.get(&start).unwrap();
        let mut path: Vec<u32> = Vec::new();
        let mut curr = start;
        proof {
            assert(certifies(em, dist@)) by {
                assert forall|x: u32, y: u32| dist@.contains_key(y) && #[trigger] em.contains_key((x, y)) implies
                    dist@.contains_key(x) && dist@[x] <= dist@[y] + em[(x, y)] by {
                    assert(settled@.contains(y));
                }
            }
            assert(path@.push(curr) =~= seq![start]);
        }
        while curr != end
            invariant
                certifies(em, dist@),
                dist@.contains_key(curr),
                dist@.contains_key(start),
                cost == dist@[start],
                dist@.contains_key(end),
                dist@[end] == 0,
                forall|v: u32| #[trigger] dist@.contains_key(v) ==> settled@.contains(v),
                forall|v: u32| #[trigger] settled@.contains(v) ==> rank.contains_key(v) && dist@.contains_key(v),
                forall|x: u32| #[trigger] next@.contains_key(x) ==> x != end && dist@.contains_key(x)
                    && settled@.contains(next@[x]) && em.contains_key((x, next@[x]))
                    && dist@[x] == saturated(dist@[next@[x]] + em[(x, next@[x])]),
                forall|x: u32| #[trigger] dist@.contains_key(x) ==> x == end || next@.contains_key(x),
                forall|x: u32| #[trigger] settled@.contains(x) && next@.contains_key(x)
                    ==> rank[next@[x]] < rank[x],
                is_path(em, path@.push(curr)),
                path@.push(curr)[0] == start,
                forall|a: int| 0 <= a < path@.len() + 1 ==> settled@.contains(#[trigger] path@.push(curr)[a]),
                forall|a: int, b: int| 0 <= a < b < path@.len() + 1 ==> rank[#[trigger] path@.push(curr)[a]]
                    > rank[#[trigger] path@.push(curr)[b]],
                cost == saturated(path_weight(em, path@.push(curr)) + dist@[curr]),
            decreases rank[curr],
        {
            let ghost p_old = path@.push(curr);
            path.push(curr);
            let nx = *next.get(&curr).unwrap();
            proof {
                assert(settled@.contains(curr));
                assert(settled@.contains(nx));
                assert(dist@.contains_key(nx));
                let w = em[(curr, nx)];
                lemma_weight_nonneg(em, p_old);
                assert(dist@[curr] == saturated(dist@[nx] + w));
                assert(saturated(path_weight(em, p_old) + dist@[curr]) == saturated(path_weight(em, p_old) + w + dist@[nx]));
                lemma_weight_push(em, p_old, nx);
                assert(path@ == p_old);
                let p_new = p_old.push(nx);
                assert(next@.contains_key(curr));
                assert(rank[nx] < rank[curr]);
                assert forall|a: int| 0 <= a < p_new.len() implies settled@.contains(#[trigger] p_new[a]) by {
                    if a < p_old.len() {
                        assert(p_new[a] == p_old[a]);
                    }
                }
                assert forall|a: int, b: int| 0 <= a < b < p_new.len() implies rank[#[trigger] p_new[a]]
                    > rank[#[trigger] p_new[b]] by {
                    assert(p_new[a] == p_old[a]);
                    if b < p_old.len() {
                        assert(p_new[b] == p_old[b]);
                    } else {
                        assert(p_old[p_old.len() - 1] == curr);
                        if a < p_old.len() - 1 {
                            assert(rank[p_old[a]] > rank[p_old[p_old.len() - 1]]);
                        }
                    }
                }
                assert forall|i: int| 0 <= i < p_new.len() - 1 implies #[trigger] em.contains_key((p_new[i], p_new[i + 1])) by {
                    if i < p_old.len() - 1 {
                        assert(em.contains_key((p_old[i], p_old[i + 1])));
                    }
                }
            }
            curr = nx;
        }
        path.push(end);
        proof {
            assert forall|q: Seq<u32>| is_path(em, q) && q[0] == start && q.last() == end implies
                cost <= path_weight(em, q) by {
                lemma_certified_bound(em, dist@, q);
            }
            let p = path@;
            assert(p[0] == start);
            assert forall|a: int, b: int| 0 <= a < p.len() && 0 <= b < p.len() && a != b implies p[a] != p[b] by {
                if a < b {
                    assert(rank[p[a]] > rank[p[b]]);
                } else {
                    assert(rank[p[b]] > rank[p[a]]);
                }
            }
            if !reachable(em, start, end) {
                assert(is_path(em, p) && p[0] == start && p.last() == end);
            }
        }
        Some((path, cost))
    }

    /// The subgraph on the vertices of `comp` with every edge between them.
    /// An out-neighbour of a vertex of `comp` is in `comp` exactly when
    /// `excluded` does not hold it.
    fn component_graph(&self, comp: &Vec<u32>, excluded: &HashSet<u32>) -> (r: GraphMap)
        requires
            self.wf(),
            forall|a: int| 0 <= a < comp@.len() ==> self.vertex_set().contains(#[trigger] comp@[a]),
            forall|a: int, y: u32| 0 <= a < comp@.len() && #[trigger] self.edge_map().contains_key((comp@[a], y))
                ==> (comp@.contains(y) <==> !excluded@.contains(y)),
        ensures
            r.wf(),
            r.vertex_set() == comp@.to_set(),
            r.edge_map() == edges_between(self.edge_map(), comp@.to_set(), comp@.to_set()),
    {
        let ghost em = self.edge_map();
        let ghost cs = comp@.to_set();
        let mut g = GraphMap::new();
        let ghost mut done: Set<u32> = Set::empty();
        let mut a: usize = 0;
        proof {
            assert(g.edge_map() =~= edges_between(em, done, cs));
        }
        while a < comp.len()
            invariant
                self.wf(),
                em == self.edge_map(),
                cs == comp@.to_set(),
                forall|a: int, y: u32| 0 <= a < comp@.len() && #[trigger] em.contains_key((comp@[a], y))
                    ==> (comp@.contains(y) <==> !excluded@.contains(y)),
                a <= comp@.len(),
                forall|a: int| 0 <= a < comp@.len() ==> self.vertex_set().contains(#[trigger] comp@[a]),
                g.wf(),
                g.vertex_set().subset_of(cs),
                done.subset_of(g.vertex_set()),
                done.subset_of(cs),
                forall|k: int| 0 <= k < a ==> done.contains(#[trigger] comp@[k]),
                g.edge_map() == edges_between(em, done, cs),
            decreases comp@.len() - a,
        {
            let node = comp[a];
            proof { assert(comp@.contains(node)); }
            g.add_vertex(node);
            let nbrs = self.adj_out(node).unwrap();
            let ghost mut seen: Set<u32> = Set::empty();
            let mut b: usize = 0;
            proof {
                assert(g.edge_map() =~= Map::new(
                    |k: (u32, u32)| em.contains_key(k) && ((done.contains(k.0) && cs.contains(k.1)) || (k.0 == node && seen.contains(k.1))),
                    |k: (u32, u32)| em[k],
                ));
            }
            while b < nbrs.len()
                invariant
                    self.wf(),
                    em == self.edge_map(),
                    cs == comp@.to_set(),
                    forall|a: int, y: u32| 0 <= a < comp@.len() && #[trigger] em.contains_key((comp@[a], y))
                        ==> (comp@.contains(y) <==> !excluded@.contains(y)),
                    a < comp@.len(),
                    node == comp@[a as int],
                    lists_exactly(nbrs@, successors(em, node)),
                    b <= nbrs@.len(),
                    g.wf(),
                    g.vertex_set().subset_of(cs),
                    g.vertex_set().contains(node),
                    done.subset_of(g.vertex_set()),
                    done.subset_of(cs),
                    forall|k: int| 0 <= k < a ==> done.contains(#[trigger] comp@[k]),
                    forall|c: int| 0 <= c < b && cs.contains(nbrs@[c].0) ==> seen.contains(#[trigger] nbrs@[c].0),
                    forall|y: u32| #[trigger] seen.contains(y) ==> em.contains_key((node, y)) && cs.contains(y),
                    g.edge_map() == Map::new(
                        |k: (u32, u32)| em.contains_key(k) && ((done.contains(k.0) && cs.contains(k.1)) || (k.0 == node && seen.contains(k.1))),
                        |k: (u32, u32)| em[k],
                    ),
                decreases nbrs@.len() - b,
            {
                let q = nbrs[b].0;
                let w = nbrs[b].1;
                proof {
                    assert(successors(em, node).contains_key(nbrs@[b as int].0));
                    assert(em.contains_key((node, q)));
                    assert(comp@.contains(q) == cs.contains(q));
                }
                if !excluded.contains(&q) {
                    g.add_edge((node, q), w);
                    proof {
                        seen = seen.insert(q);
                        assert(g.edge_map() =~= Map::new(
                            |k: (u32, u32)| em.contains_key(k) && ((done.contains(k.0) && cs.contains(k.1)) || (k.0 == node && seen.contains(k.1))),
                            |k: (u32, u32)| em[k],
                        ));
                    }
                }
                b = b + 1;
            }
            proof {
                assert forall|y: u32| em.contains_key((node, y)) && cs.contains(y) implies seen.contains(y) by {
                    assert(successors(em, node).contains_key(y));
                    let c = choose|c: int| 0 <= c < nbrs@.len() && nbrs@[c].0 == y;
                    assert(seen.contains(nbrs@[c].0));
                }
                done = done.insert(node);
                assert(g.edge_map() =~= edges_between(em, done, cs));
            }
            a = a + 1;
        }
        proof {
            assert forall|x: u32| cs.contains(x) implies done.contains(x) by {
                let k = choose|k: int| 0 <= k < comp@.len() && comp@[k] == x;
                assert(done.contains(comp@[k]));
            }
            assert(done =~= cs);
            assert(g.vertex_set() =~= cs);
        }
        g
    }

    /// Splits the graph into components: vertices are taken in turn, and
    /// each one that no component holds yet seeds a new component made of
    /// everything it reaches along outbound edges that no earlier component
    /// holds, with the edges among them.
    pub fn connected_components(&self) -> (r: Vec<GraphMap>)
        requires
            self.wf(),
        ensures
            splits_into(*self, r@),
    {
        let ghost em = self.edge_map();
        let ghost vs = self.vertex_set();
        let ghost me = *self;
        let verts = self.vertices();
        let mut visited: HashSet<u32> = HashSet::new();
        let mut comps: Vec<GraphMap> = Vec::new();
        let mut i: usize = 0;
        proof {
            assert(visited@ =~= held_before(comps@, 0));
        }
        while i < verts.len()
            invariant
                self.wf(),
                me == *self,
                em == self.edge_map(),
                vs == self.vertex_set(),
                forall|p: u32| verts@.contains(p) == vs.contains(p),
                i <= verts@.len(),
                visited@ == held_before(comps@, comps@.len() as int),
                forall|k: int| 0 <= k < i ==> visited@.contains(#[trigger] verts@[k]),
                forall|c: int| 0 <= c < comps@.len() ==> (#[trigger] comps@[c]).wf(),
                forall|c: int| 0 <= c < comps@.len() ==> #[trigger] has_seed(me, comps@, c),
                forall|c: int| 0 <= c < comps@.len() ==> (#[trigger] comps@[c]).edge_map()
                    == edges_between(em, comps@[c].vertex_set(), comps@[c].vertex_set()),
                forall|a: int, b: int| 0 <= a < b < comps@.len() ==> (#[trigger] comps@[a]).vertex_set().disjoint(
                    (#[trigger] comps@[b]).vertex_set()),
            decreases verts@.len() - i,
        {
            let v = verts[i];
            proof { assert(verts@.contains(v)); }
            if !visited.contains(&v) {
                let comp = self.bfs(&v);
                proof {
                    self.lemma_wf();
                    assert forall|a: int| 0 <= a < comp@.len() implies vs.contains(#[trigger] comp@[a]) by {
                        assert(comp@.contains(comp@[a]));
                        let pth = choose|pth: Seq<u32>| is_path(em, pth) && pth[0] == v && pth.last() == comp@[a];
                        if pth.len() > 1 {
                            let k = pth.len() - 2;
                            assert(em.contains_key((pth[k], pth[k + 1])));
                        }
                    }
                }
                let mut members: Vec<u32> = Vec::new();
                let mut k: usize = 0;
                while k < comp.len()
                    invariant
                        k <= comp@.len(),
                        forall|a: int| 0 <= a < members@.len() ==> comp@.contains(#[trigger] members@[a])
                            && !visited@.contains(members@[a]),
                        forall|a: int| 0 <= a < k && !visited@.contains(#[trigger] comp@[a]) ==> members@.contains(comp@[a]),
                    decreases comp@.len() - k,
                {
                    let x = comp[k];
                    if !visited.contains(&x) {
                        let ghost m0 = members@;
                        members.push(x);
                        proof {
                            assert(comp@.contains(x));
                            assert(members@[members@.len() - 1] == x);
                            assert forall|a: int| 0 <= a < k + 1 && !visited@.contains(#[trigger] comp@[a]) implies
                                members@.contains(comp@[a]) by {
                                if a < k {
                                    let j = choose|j: int| 0 <= j < m0.len() && m0[j] == comp@[a];
                                    assert(members@[j] == comp@[a]);
                                }
                            }
                        }
                    }
                    k = k + 1;
                }
                let ghost vis_old = visited@;
                let ghost c_old = comps@;
                let ghost ms = members@.to_set();
                proof {
                    assert forall|p: u32| ms.contains(p) == (reach_set(em, v).contains(p) && !vis_old.contains(p)) by {
                        if ms.contains(p) {
                            let a = choose|a: int| 0 <= a < members@.len() && members@[a] == p;
                            assert(comp@.contains(members@[a]));
                        }
                        if reach_set(em, v).contains(p) && !vis_old.contains(p) {
                            assert(comp@.contains(p));
                            let a = choose|a: int| 0 <= a < comp@.len() && comp@[a] == p;
                            assert(members@.contains(comp@[a]));
                        }
                    }
                    assert forall|a: int| 0 <= a < members@.len() implies vs.contains(#[trigger] members@[a]) by {
                        let b = choose|b: int| 0 <= b < comp@.len() && comp@[b] == members@[a];
                        assert(vs.contains(comp@[b]));
                    }
                    assert forall|a: int, y: u32| 0 <= a < members@.len() && #[trigger] em.contains_key((members@[a], y))
                        implies (members@.contains(y) <==> !visited@.contains(y)) by {
                        assert(ms.contains(members@[a]));
                        lemma_reach_step(em, v, members@[a], y);
                        assert(ms.contains(y) == members@.contains(y));
                    }
                }
                let g = self.component_graph(&members, &visited);
                let mut k2: usize = 0;
                while k2 < members.len()
                    invariant
                        k2 <= members@.len(),
                        forall|p: u32| #[trigger] visited@.contains(p) == (vis_old.contains(p) || exists|a: int|
                            0 <= a < k2 && members@[a] == p),
                    decreases members@.len() - k2,
                {
                    let ghost vis_k = visited@;
                    visited.insert(members[k2]);
                    proof {
                        assert forall|p: u32| visited@.contains(p) == (vis_old.contains(p) || exists|a: int|
                            0 <= a < k2 + 1 && members@[a] == p) by {
                            assert(vis_k.contains(p) == (vis_old.contains(p) || exists|a: int|
                                0 <= a < k2 && members@[a] == p));
                            assert(visited@ == vis_k.insert(members@[k2 as int]));
                            if p == members@[k2 as int] {
                                assert(0 <= k2 < k2 + 1 && members@[k2 as int] == p);
                            } else if exists|a: int| 0 <= a < k2 + 1 && members@[a] == p {
                                let a = choose|a: int| 0 <= a < k2 + 1 && members@[a] == p;
                                assert(0 <= a < k2 && members@[a] == p);
                            }
                        }
                    }
                    k2 = k2 + 1;
                }
                comps.push(g);
                proof {
                    let n = c_old.len() as int;
                    assert(comps@[n] == g);
                    assert forall|c: int| 0 <= c < n implies comps@[c] == c_old[c] by {}
                    assert forall|c: int| 0 <= c <= n implies held_before(comps@, c) == held_before(c_old, c) by {
                        assert forall|p: u32| held_before(comps@, c).contains(p) == held_before(c_old, c).contains(p) by {
                            if held_before(comps@, c).contains(p) {
                                let j = choose|j: int| 0 <= j < c && (#[trigger] comps@[j]).vertex_set().contains(p);
                                assert(c_old[j] == comps@[j]);
                            }
                            if held_before(c_old, c).contains(p) {
                                let j = choose|j: int| 0 <= j < c && (#[trigger] c_old[j]).vertex_set().contains(p);
                                assert(c_old[j] == comps@[j]);
                            }
                        }
                        assert(held_before(comps@, c) =~= held_before(c_old, c));
                    }
                    assert(held_before(comps@, n) == vis_old);
                    assert(g.vertex_set() =~= ms);
                    assert forall|p: u32| visited@.contains(p) == held_before(comps@, n + 1).contains(p) by {
                        if visited@.contains(p) && !vis_old.contains(p) {
                            let a = choose|a: int| 0 <= a < members@.len() && members@[a] == p;
                            assert(ms.contains(p));
                            assert(comps@[n].vertex_set().contains(p));
                        }
                        if visited@.contains(p) && vis_old.contains(p) {
                            assert(held_before(c_old, n).contains(p));
                            let j = choose|j: int| 0 <= j < n && (#[trigger] c_old[j]).vertex_set().contains(p);
                            assert(comps@[j] == c_old[j]);
                        }
                        if held_before(comps@, n + 1).contains(p) {
                            let j = choose|j: int| 0 <= j < n + 1 && (#[trigger] comps@[j]).vertex_set().contains(p);
                            if j < n {
                                assert(comps@[j] == c_old[j]);
                                assert(held_before(c_old, n).contains(p));
                            } else {
                                assert(ms.contains(p));
                                assert(members@.contains(p));
                            }
                        }
                    }
                    assert(visited@ =~= held_before(comps@, comps@.len() as int));
                    assert forall|c: int| 0 <= c < comps@.len() implies #[trigger] has_seed(me, comps@, c) by {
                        if c < n {
                            assert(has_seed(me, c_old, c));
                            let s = choose|s: u32| #[trigger] seeded_at(me, c_old, c, s);
                            assert(comps@[c] == c_old[c]);
                            assert(seeded_at(me, comps@, c, s));
                        } else {
                            assert(reach_set(em, v).difference(vis_old) =~= ms);
                            assert(seeded_at(me, comps@, c, v));
                        }
                    }
                    assert forall|c: int| 0 <= c < comps@.len() implies (#[trigger] comps@[c]).edge_map()
                        == edges_between(em, comps@[c].vertex_set(), comps@[c].vertex_set()) by {
                        if c < n {
                            assert(comps@[c] == c_old[c]);
                        }
                    }
                    assert forall|a: int, b: int| 0 <= a < b < comps@.len() implies (#[trigger] comps@[a]).vertex_set().disjoint(
                        (#[trigger] comps@[b]).vertex_set()) by {
                        assert(comps@[a] == c_old[a]);
                        if b < n {
                            assert(comps@[b] == c_old[b]);
                        } else {
                            assert forall|p: u32| comps@[a].vertex_set().contains(p) implies !comps@[b].vertex_set().contains(p) by {
                                assert(held_before(c_old, n).contains(p));
                            }
                        }
                    }
                }
            }
            i = i + 1;
        }
        proof {
            assert forall|p: u32| #[trigger] vs.contains(p) implies exists|i: int|
                0 <= i < comps@.len() && comps@[i].vertex_set().contains(p) by {
                assert(verts@.contains(p));
                let k = choose|k: int| 0 <= k < verts@.len() && verts@[k] == p;
                assert(visited@.contains(verts@[k]));
                assert(held_before(comps@, comps@.len() as int).contains(p));
            }
        }
        comps
    }
}

} // verus!
