//! Paths and reachability over an edge map keyed by `(source, destination)`.
use vstd::prelude::*;

verus! {

/// `p` is a non-empty walk that follows edges of `m`.
pub open spec fn is_path(m: Map<(u32, u32), u32>, p: Seq<u32>) -> bool {
    &&& p.len() >= 1
    &&& forall|i: int| 0 <= i < p.len() - 1 ==> #[trigger] m.contains_key((p[i], p[i + 1]))
}

/// Some walk along edges of `m` leads from `a` to `b` (every vertex reaches itself).
pub open spec fn reachable(m: Map<(u32, u32), u32>, a: u32, b: u32) -> bool {
    exists|p: Seq<u32>| is_path(m, p) && p[0] == a && p.last() == b
}

/// The vertices that `a` reaches.
pub open spec fn reach_set(m: Map<(u32, u32), u32>, a: u32) -> Set<u32> {
    Set::new(|b: u32| reachable(m, a, b))
}

/// The sum of the edge payloads along `p`.
pub open spec fn path_weight(m: Map<(u32, u32), u32>, p: Seq<u32>) -> int
    decreases p.len(),
{
    if p.len() <= 1 {
        0
    } else {
        m[(p[0], p[1])] + path_weight(m, p.drop_first())
    }
}

pub proof fn lemma_reach_self(m: Map<(u32, u32), u32>, a: u32)
    ensures
        reachable(m, a, a),
{
    let p = seq![a];
    assert(is_path(m, p) && p[0] == a && p.last() == a);
}

/// A path extended by one edge.
pub proof fn lemma_reach_step(m: Map<(u32, u32), u32>, a: u32, b: u32, c: u32)
    requires
        reachable(m, a, b),
        m.contains_key((b, c)),
    ensures
        reachable(m, a, c),
{
    let p = choose|p: Seq<u32>| is_path(m, p) && p[0] == a && p.last() == b;
    let q = p.push(c);
    assert forall|i: int| 0 <= i < q.len() - 1 implies #[trigger] m.contains_key((q[i], q[i + 1])) by {
        if i < p.len() - 1 {
            assert(m.contains_key((p[i], p[i + 1])));
        }
    }
    assert(is_path(m, q) && q[0] == a && q.last() == c);
}

proof fn lemma_closed_forward_from(m: Map<(u32, u32), u32>, s: Set<u32>, p: Seq<u32>, i: int)
    requires
        is_path(m, p),
        0 <= i < p.len(),
        s.contains(p[i]),
        forall|x: u32, y: u32| s.contains(x) && #[trigger] m.contains_key((x, y)) ==> s.contains(y),
    ensures
        s.contains(p.last()),
    decreases p.len() - i,
{
    if i < p.len() - 1 {
        assert(m.contains_key((p[i], p[i + 1])));
        lemma_closed_forward_from(m, s, p, i + 1);
    }
}

proof fn lemma_closed_backward_from(m: Map<(u32, u32), u32>, s: Set<u32>, p: Seq<u32>, i: int)
    requires
        is_path(m, p),
        0 <= i < p.len(),
        s.contains(p[i]),
        forall|x: u32, y: u32| s.contains(y) && #[trigger] m.contains_key((x, y)) ==> s.contains(x),
    ensures
        s.contains(p[0]),
    decreases i,
{
    if i > 0 {
        let j = i - 1;
        assert(m.contains_key((p[j], p[j + 1])));
        lemma_closed_backward_from(m, s, p, i - 1);
    }
}

/// A set that holds `a` and is closed under following edges forward holds
/// everything that `a` reaches.
pub proof fn lemma_closed_forward(m: Map<(u32, u32), u32>, s: Set<u32>, a: u32, b: u32)
    requires
        s.contains(a),
        forall|x: u32, y: u32| s.contains(x) && #[trigger] m.contains_key((x, y)) ==> s.contains(y),
        reachable(m, a, b),
    ensures
        s.contains(b),
{
    let p = choose|p: Seq<u32>| is_path(m, p) && p[0] == a && p.last() == b;
    lemma_closed_forward_from(m, s, p, 0);
}

/// A set that holds `b` and is closed under following edges backward holds
/// everything that reaches `b`.
pub proof fn lemma_closed_backward(m: Map<(u32, u32), u32>, s: Set<u32>, a: u32, b: u32)
    requires
        s.contains(b),
        forall|x: u32, y: u32| s.contains(y) && #[trigger] m.contains_key((x, y)) ==> s.contains(x),
        reachable(m, a, b),
    ensures
        s.contains(a),
{
    let p = choose|p: Seq<u32>| is_path(m, p) && p[0] == a && p.last() == b;
    lemma_closed_backward_from(m, s, p, p.len() - 1);
}

/// Some walk of exactly `n` vertices leads from `a` to `b`.
pub open spec fn walk_of(m: Map<(u32, u32), u32>, a: u32, b: u32, n: nat) -> bool {
    exists|p: Seq<u32>| is_path(m, p) && p[0] == a && p.last() == b && p.len() == n
}

/// Some walk of at most `n` vertices leads from `a` to `b`.
pub open spec fn walk_within(m: Map<(u32, u32), u32>, a: u32, b: u32, n: nat) -> bool {
    exists|p: Seq<u32>| is_path(m, p) && p[0] == a && p.last() == b && p.len() <= n
}

pub proof fn lemma_walk_step(m: Map<(u32, u32), u32>, a: u32, b: u32, c: u32, n: nat)
    requires
        walk_of(m, a, b, n),
        m.contains_key((b, c)),
    ensures
        walk_of(m, a, c, n + 1),
{
    let p = choose|p: Seq<u32>| is_path(m, p) && p[0] == a && p.last() == b && p.len() == n;
    let q = p.push(c);
    assert forall|i: int| 0 <= i < q.len() - 1 implies #[trigger] m.contains_key((q[i], q[i + 1])) by {
        if i < p.len() - 1 {
            assert(m.contains_key((p[i], p[i + 1])));
        }
    }
    assert(is_path(m, q) && q[0] == a && q.last() == c && q.len() == n + 1);
}

/// Levels that grow by at most one along each edge bound the length of
/// every walk from below.
pub proof fn lemma_level_bound(m: Map<(u32, u32), u32>, lvl: Map<u32, nat>, q: Seq<u32>)
    requires
        is_path(m, q),
        lvl.contains_key(q[0]),
        forall|x: u32, y: u32| lvl.contains_key(x) && #[trigger] m.contains_key((x, y))
            ==> lvl.contains_key(y) && lvl[y] <= lvl[x] + 1,
    ensures
        lvl.contains_key(q.last()),
        lvl[q.last()] <= lvl[q[0]] + q.len() - 1,
    decreases q.len(),
{
    if q.len() > 1 {
        let t = q.drop_last();
        assert forall|i: int| 0 <= i < t.len() - 1 implies #[trigger] m.contains_key((t[i], t[i + 1])) by {
            assert(m.contains_key((q[i], q[i + 1])));
        }
        lemma_level_bound(m, lvl, t);
        let k = q.len() - 2;
        assert(m.contains_key((q[k], q[k + 1])));
    }
}

} // verus!
