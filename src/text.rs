//! The line-based text format: a header `"<vertices> <edges>"`, one line
//! `"<source> <target> <payload>"` per edge, then one line per isolated
//! vertex holding only the vertex, all numbers in decimal.
use vstd::prelude::*;
use crate::keyed::{predecessors, successors, GraphMap};
use crate::listing::lists_exactly;

verus! {

/// `b` is an ASCII decimal digit.
pub open spec fn is_digit(b: u8) -> bool {
    48 <= b <= 57
}

/// The decimal digits of `n`, most significant first.
pub open spec fn digits(n: nat) -> Seq<u8>
    decreases n,
{
    if n < 10 {
        seq![(48 + n) as u8]
    } else {
        digits(n / 10).push((48 + n % 10) as u8)
    }
}

/// The number that a run of decimal digits stands for.
pub open spec fn value(s: Seq<u8>) -> nat
    decreases s.len(),
{
    if s.len() == 0 {
        0
    } else {
        value(s.drop_last()) * 10 + (s.last() - 48) as nat
    }
}

proof fn lemma_digits(n: nat)
    ensures
        value(digits(n)) == n,
        digits(n).len() >= 1,
        forall|i: int| 0 <= i < digits(n).len() ==> is_digit(#[trigger] digits(n)[i]),
    decreases n,
{
    if n >= 10 {
        lemma_digits(n / 10);
        let d = digits(n);
        assert(d.drop_last() =~= digits(n / 10));
        assert(d.last() == (48 + n % 10) as u8);
        assert(n == 10 * (n / 10) + n % 10) by {
            vstd::arithmetic::div_mod::lemma_fundamental_div_mod(n as int, 10);
        }
        assert(value(d) == value(digits(n / 10)) * 10 + (n % 10));
        assert forall|i: int| 0 <= i < d.len() implies is_digit(#[trigger] d[i]) by {
            if i < d.len() - 1 {
                assert(d[i] == digits(n / 10)[i]);
            }
        }
    } else {
        let d = digits(n);
        assert(d.drop_last() =~= Seq::<u8>::empty());
        assert(value(d) == value(d.drop_last()) * 10 + (d.last() - 48) as nat);
    }
}

proof fn lemma_value_prefix(s: Seq<u8>, k: int)
    requires
        0 <= k <= s.len(),
        forall|i: int| 0 <= i < s.len() ==> is_digit(#[trigger] s[i]),
    ensures
        value(s.subrange(0, k)) <= value(s),
    decreases s.len(),
{
    if k < s.len() {
        let t = s.drop_last();
        assert forall|i: int| 0 <= i < t.len() implies is_digit(#[trigger] t[i]) by {
            assert(t[i] == s[i]);
        }
        lemma_value_prefix(t, k);
        assert(t.subrange(0, k) =~= s.subrange(0, k));
    } else {
        assert(s.subrange(0, k) =~= s);
    }
}

/// `t` holds the digits of `n` from `pos` on, followed by the end or a
/// byte that is not a digit.
pub open spec fn digits_at(t: Seq<u8>, pos: int, n: nat) -> bool {
    let d = digits(n);
    &&& 0 <= pos
    &&& pos + d.len() <= t.len()
    &&& t.subrange(pos, pos + d.len()) == d
    &&& (pos + d.len() == t.len() || !is_digit(t[pos + d.len()]))
}

/// Reads the longest run of decimal digits at `pos`; `None` if there is
/// none or its value does not fit in `u32`.
pub fn parse_number(t: &Vec<u8>, pos: usize) -> (r: Option<(u32, usize)>)
    ensures
        forall|n: u32| #[trigger] digits_at(t@, pos as int, n as nat) ==> r == Some(
            (n, (pos + digits(n as nat).len()) as usize),
        ),
        r matches Some((n, e)) ==> pos < e <= t@.len(),
{
    let mut i: usize = pos;
    let mut acc: u64 = 0;
    if pos > t.len() {
        return None;
    }
    while i < t.len() && 48 <= t[i] && t[i] <= 57
        invariant
            pos <= i <= t@.len(),
            acc == value(t@.subrange(pos as int, i as int)),
            acc <= u32::MAX,
            forall|j: int| pos <= j < i ==> is_digit(#[trigger] t@[j]),
            forall|n: u32| #[trigger] digits_at(t@, pos as int, n as nat) ==> i <= pos + digits(n as nat).len(),
        decreases t@.len() - i,
    {
        let ghost s0 = t@.subrange(pos as int, i as int);
        let d = (t[i] - 48) as u64;
        acc = acc * 10 + d;
        i = i + 1;
        proof {
            let s1 = t@.subrange(pos as int, i as int);
            assert(s1.drop_last() =~= s0);
            assert forall|n: u32| #[trigger] digits_at(t@, pos as int, n as nat) implies i <= pos + digits(n as nat).len() by {
                let dn = digits(n as nat);
                if i > pos + dn.len() {
                    assert(is_digit(t@[pos + dn.len()]));
                }
            }
        }
        if acc > 0xffff_ffff {
            proof {
                assert forall|n: u32| !#[trigger] digits_at(t@, pos as int, n as nat) by {
                    if digits_at(t@, pos as int, n as nat) {
                        let dn = digits(n as nat);
                        lemma_digits(n as nat);
                        assert(t@.subrange(pos as int, i as int) =~= dn.subrange(0, i - pos));
                        lemma_value_prefix(dn, i - pos);
                    }
                }
            }
            return None;
        }
    }
    if i == pos {
        proof {
            assert forall|n: u32| !#[trigger] digits_at(t@, pos as int, n as nat) by {
                lemma_digits(n as nat);
                if digits_at(t@, pos as int, n as nat) {
                    assert(t@[pos as int] == digits(n as nat)[0]);
                }
            }
        }
        return None;
    }
    proof {
        assert forall|n: u32| #[trigger] digits_at(t@, pos as int, n as nat) implies acc == n && i == pos + digits(n as nat).len() by {
            let dn = digits(n as nat);
            lemma_digits(n as nat);
            if i < pos + dn.len() {
                assert(t@[i as int] == dn[i - pos]);
            }
            assert(t@.subrange(pos as int, i as int) =~= dn);
        }
    }
    Some((acc as u32, i))
}


/// One line after the header: a bare vertex `(v, None)`, or an edge
/// `(source, Some((target, payload)))`.
pub type Line = (u32, Option<(u32, u32)>);

/// The text of one line, newline included.
pub open spec fn render_line(l: Line) -> Seq<u8> {
    match l.1 {
        None => digits(l.0 as nat) + seq![10u8],
        Some((b, w)) => digits(l.0 as nat) + seq![32u8] + digits(b as nat) + seq![32u8] + digits(w as nat)
            + seq![10u8],
    }
}

/// The lines `ls`, one after another.
pub open spec fn render_lines(ls: Seq<Line>) -> Seq<u8>
    decreases ls.len(),
{
    if ls.len() == 0 {
        Seq::empty()
    } else {
        render_lines(ls.drop_last()) + render_line(ls.last())
    }
}

/// The header line for `n` vertices and `m` edges.
pub open spec fn render_header(n: nat, m: nat) -> Seq<u8> {
    digits(n) + seq![32u8] + digits(m) + seq![10u8]
}

/// The vertices that reading `ls` in order adds: every bare vertex and both
/// ends of every edge.
pub open spec fn line_vertices(ls: Seq<Line>) -> Set<u32>
    decreases ls.len(),
{
    if ls.len() == 0 {
        Set::empty()
    } else {
        let l = ls.last();
        match l.1 {
            None => line_vertices(ls.drop_last()).insert(l.0),
            Some((b, w)) => line_vertices(ls.drop_last()).insert(l.0).insert(b),
        }
    }
}

/// The edges that reading `ls` in order leaves, a later line for the same
/// pair replacing an earlier one. With `undirected`, each edge line also
/// sets the reverse edge, right after its own.
pub open spec fn line_edges(ls: Seq<Line>, undirected: bool) -> Map<(u32, u32), u32>
    decreases ls.len(),
{
    if ls.len() == 0 {
        Map::empty()
    } else {
        let l = ls.last();
        match l.1 {
            None => line_edges(ls.drop_last(), undirected),
            Some((b, w)) => if undirected {
                line_edges(ls.drop_last(), undirected).insert((l.0, b), w).insert((b, l.0), w)
            } else {
                line_edges(ls.drop_last(), undirected).insert((l.0, b), w)
            },
        }
    }
}

/// `t` is a header followed by lines that, read in order, give exactly the
/// vertices `vs` and the edges `em`.
pub open spec fn encodes(t: Seq<u8>, vs: Set<u32>, em: Map<(u32, u32), u32>) -> bool {
    exists|ls: Seq<Line>|
        t == render_header(vs.len(), em.len()) + render_lines(ls) && #[trigger] line_vertices(ls) == vs
            && line_edges(ls, false) == em
}

/// The line for one edge.
pub open spec fn edge_line(e: ((u32, u32), u32)) -> Line {
    (e.0.0, Some((e.0.1, e.1)))
}

/// The lines for the edges `es`, in order.
pub open spec fn edge_lines(es: Seq<((u32, u32), u32)>) -> Seq<Line> {
    es.map_values(|e: ((u32, u32), u32)| edge_line(e))
}

/// The bare lines for the vertices `vs`, in order.
pub open spec fn bare_lines(vs: Seq<u32>) -> Seq<Line> {
    vs.map_values(|v: u32| (v, None::<(u32, u32)>))
}

/// No edge of `m` enters or leaves `v`.
pub open spec fn isolated(m: Map<(u32, u32), u32>, v: u32) -> bool {
    forall|q: u32| !m.contains_key((v, q)) && !m.contains_key((q, v))
}

/// `t` is the header for `vs` and `em`, then one line per edge of `em`,
/// each once, then one bare line per isolated vertex of `vs`, each once.
pub open spec fn written_as(t: Seq<u8>, vs: Set<u32>, em: Map<(u32, u32), u32>) -> bool {
    exists|es: Seq<((u32, u32), u32)>, iso: Seq<u32>|
        #[trigger] lists_exactly(es, em) && #[trigger] iso.no_duplicates()
            && (forall|v: u32| iso.contains(v) == (vs.contains(v) && isolated(em, v)))
            && t == render_header(vs.len(), em.len()) + render_lines(edge_lines(es) + bare_lines(iso))
}

proof fn lemma_render_prefix(ls: Seq<Line>, k: int)
    requires
        0 <= k <= ls.len(),
    ensures
        render_lines(ls.take(k)).len() <= render_lines(ls).len(),
        render_lines(ls).subrange(0, render_lines(ls.take(k)).len() as int) == render_lines(ls.take(k)),
    decreases ls.len(),
{
    if k == ls.len() {
        assert(ls.take(k) =~= ls);
    } else {
        lemma_render_prefix(ls.drop_last(), k);
        assert(ls.drop_last().take(k) =~= ls.take(k));
        let a = render_lines(ls.drop_last());
        assert(render_lines(ls) == a + render_line(ls.last()));
        assert((a + render_line(ls.last())).subrange(0, render_lines(ls.take(k)).len() as int)
            =~= a.subrange(0, render_lines(ls.take(k)).len() as int));
    }
}

proof fn lemma_render_step(ls: Seq<Line>, k: int)
    requires
        0 <= k < ls.len(),
    ensures
        ls.take(k + 1).drop_last() == ls.take(k),
        ls.take(k + 1).last() == ls[k],
        render_lines(ls.take(k + 1)) == render_lines(ls.take(k)) + render_line(ls[k]),
{
    assert(ls.take(k + 1).drop_last() =~= ls.take(k));
}

fn push_digits(out: &mut Vec<u8>, n: u32)
    ensures
        final(out)@ == old(out)@ + digits(n as nat),
    decreases n,
{
    if n >= 10 {
        push_digits(out, n / 10);
    }
    out.push(48 + (n % 10) as u8);
    proof {
        assert(final(out)@ =~= old(out)@ + digits(n as nat));
    }
}

fn push_count(out: &mut Vec<u8>, n: usize)
    ensures
        final(out)@ == old(out)@ + digits(n as nat),
    decreases n,
{
    if n >= 10 {
        push_count(out, n / 10);
    }
    out.push(48 + (n % 10) as u8);
    proof {
        assert(final(out)@ =~= old(out)@ + digits(n as nat));
    }
}


/// Writes `graph` in the text format: the header, one line per edge, then
/// one line per vertex with no edges.
pub fn write_graph(graph: &GraphMap) -> (r: Vec<u8>)
    requires
        graph.wf(),
    ensures
        written_as(r@, graph.vertex_set(), graph.edge_map()),
        encodes(r@, graph.vertex_set(), graph.edge_map()),
{
    let ghost vs = graph.vertex_set();
    let ghost em = graph.edge_map();
    proof { graph.lemma_wf(); }
    let mut out: Vec<u8> = Vec::new();
    push_count(&mut out, graph.vertex_count());
    out.push(32);
    push_count(&mut out, graph.edge_count());
    out.push(10);
    let ghost h = out@;
    proof {
        assert(h =~= render_header(vs.len(), em.len()));
        assert(out@ =~= h + render_lines(Seq::<Line>::empty()));
    }
    let es = graph.edges();
    let ghost mut ls: Seq<Line> = Seq::empty();
    let mut i: usize = 0;
    while i < es.len()
        invariant
            graph.wf(),
            vs == graph.vertex_set(),
            em == graph.edge_map(),
            forall|k: (u32, u32)| #[trigger] em.contains_key(k) ==> vs.contains(k.0) && vs.contains(k.1),
            lists_exactly(es@, em),
            i <= es@.len(),
            h == render_header(vs.len(), em.len()),
            out@ == h + render_lines(ls),
            forall|k: (u32, u32)| #[trigger] line_edges(ls, false).contains_key(k) ==> em.contains_key(k)
                && line_edges(ls, false)[k] == em[k],
            forall|j: int| 0 <= j < i ==> line_edges(ls, false).contains_key(#[trigger] es@[j].0),
            forall|v: u32| #[trigger] line_vertices(ls).contains(v) ==> vs.contains(v),
            forall|j: int| 0 <= j < i ==> line_vertices(ls).contains((#[trigger] es@[j]).0.0)
                && line_vertices(ls).contains(es@[j].0.1),
            ls == edge_lines(es@.subrange(0, i as int)),
        decreases es@.len() - i,
    {
        let e = es[i];
        let ghost before = out@;
        push_digits(&mut out, e.0.0);
        out.push(32);
        push_digits(&mut out, e.0.1);
        out.push(32);
        push_digits(&mut out, e.1);
        out.push(10);
        proof {
            let l: Line = (e.0.0, Some((e.0.1, e.1)));
            assert(out@ =~= before + render_line(l));
            let ls2 = ls.push(l);
            assert(ls2.drop_last() =~= ls);
            assert(render_lines(ls2) == render_lines(ls) + render_line(l));
            assert(out@ =~= h + render_lines(ls2));
            assert(em.contains_key(es@[i as int].0));
            assert(line_edges(ls2, false) == line_edges(ls, false).insert(e.0, e.1));
            assert(line_vertices(ls2) == line_vertices(ls).insert(e.0.0).insert(e.0.1));
            assert(ls2 =~= edge_lines(es@.subrange(0, i + 1)));
            ls = ls2;
        }
        i = i + 1;
    }
    proof {
        assert(es@.subrange(0, es@.len() as int) =~= es@);
        assert(ls =~= edge_lines(es@) + bare_lines(Seq::<u32>::empty()));
    }
    let ghost mut iso: Seq<u32> = Seq::empty();
    let verts = graph.vertices();
    let ghost le = line_edges(ls, false);
    let ghost lv0 = line_vertices(ls);
    let mut a: usize = 0;
    while a < verts.len()
        invariant
            graph.wf(),
            vs == graph.vertex_set(),
            em == graph.edge_map(),
            forall|p: u32| verts@.contains(p) == vs.contains(p),
            a <= verts@.len(),
            h == render_header(vs.len(), em.len()),
            out@ == h + render_lines(ls),
            line_edges(ls, false) == le,
            lv0.subset_of(line_vertices(ls)),
            verts@.no_duplicates(),
            ls == edge_lines(es@) + bare_lines(iso),
            iso.no_duplicates(),
            forall|x: u32| #[trigger] iso.contains(x) == (isolated(em, x) && exists|j: int| 0 <= j < a && verts@[j] == x),
            forall|v: u32| #[trigger] line_vertices(ls).contains(v) ==> vs.contains(v),
            forall|j: int| 0 <= j < a ==> line_vertices(ls).contains(#[trigger] verts@[j])
                || lv0.contains(verts@[j]) || exists|q: u32| em.contains_key((verts@[j], q)) || em.contains_key((q, verts@[j])),
        decreases verts@.len() - a,
    {
        let v = verts[a];
        proof { assert(verts@.contains(v)); }
        let outs = graph.adj_out(v).unwrap();
        let ins = graph.adj_in(v).unwrap();
        if outs.len() == 0 && ins.len() == 0 {
            let ghost before = out@;
            push_digits(&mut out, v);
            out.push(10);
            proof {
                let l: Line = (v, None);
                assert(out@ =~= before + render_line(l));
                let ls2 = ls.push(l);
                assert(ls2.drop_last() =~= ls);
                assert(render_lines(ls2) == render_lines(ls) + render_line(l));
                assert(out@ =~= h + render_lines(ls2));
                assert(line_vertices(ls2) == line_vertices(ls).insert(v));
                let iso2 = iso.push(v);
                assert(ls2 =~= edge_lines(es@) + bare_lines(iso2));
                assert(isolated(em, v)) by {
                    assert forall|q: u32| !em.contains_key((v, q)) && !em.contains_key((q, v)) by {
                        if em.contains_key((v, q)) {
                            assert(successors(em, v).contains_key(q));
                        }
                        if em.contains_key((q, v)) {
                            assert(predecessors(em, v).contains_key(q));
                        }
                    }
                }
                assert(!iso.contains(v)) by {
                    if iso.contains(v) {
                        let j = choose|j: int| 0 <= j < a && verts@[j] == v;
                        assert(verts@[j] == verts@[a as int]);
                    }
                }
                assert forall|x: u32| #[trigger] iso2.contains(x) == (isolated(em, x) && exists|j: int| 0 <= j < a + 1 && verts@[j] == x) by {
                    if x == v {
                        assert(iso2[iso.len() as int] == v);
                        assert(verts@[a as int] == x);
                    } else {
                        if iso2.contains(x) {
                            let k = choose|k: int| 0 <= k < iso2.len() && iso2[k] == x;
                            assert(iso[k] == x);
                        }
                        if iso.contains(x) {
                            let k = choose|k: int| 0 <= k < iso.len() && iso[k] == x;
                            assert(iso2[k] == x);
                        }
                        if exists|j: int| 0 <= j < a + 1 && verts@[j] == x {
                            let j = choose|j: int| 0 <= j < a + 1 && verts@[j] == x;
                            assert(j < a);
                        }
                    }
                }
                ls = ls2;
                iso = iso2;
            }
        } else {
            proof {
                if outs.len() > 0 {
                    assert(successors(em, v).contains_key(outs@[0].0));
                    assert(em.contains_key((v, outs@[0].0)));
                } else {
                    assert(predecessors(em, v).contains_key(ins@[0].0));
                    assert(em.contains_key((ins@[0].0, v)));
                }
                assert(!isolated(em, v));
                assert forall|x: u32| #[trigger] iso.contains(x) == (isolated(em, x) && exists|j: int| 0 <= j < a + 1 && verts@[j] == x) by {
                    if x != v && exists|j: int| 0 <= j < a + 1 && verts@[j] == x {
                        let j = choose|j: int| 0 <= j < a + 1 && verts@[j] == x;
                        assert(j < a);
                    }
                }
            }
        }
        a = a + 1;
    }
    proof {
        assert forall|k: (u32, u32)| em.contains_key(k) implies le.contains_key(k) by {
            let j = choose|j: int| 0 <= j < es@.len() && es@[j].0 == k;
            assert(line_edges(ls, false).contains_key(es@[j].0));
        }
        assert(line_edges(ls, false) =~= em);
        assert forall|p: u32| vs.contains(p) implies line_vertices(ls).contains(p) by {
            assert(verts@.contains(p));
            let j = choose|j: int| 0 <= j < verts@.len() && verts@[j] == p;
            assert(line_vertices(ls).contains(verts@[j]) || lv0.contains(verts@[j])
                || exists|q: u32| em.contains_key((verts@[j], q)) || em.contains_key((q, verts@[j])));
            if exists|q: u32| em.contains_key((p, q)) || em.contains_key((q, p)) {
                let q = choose|q: u32| em.contains_key((p, q)) || em.contains_key((q, p));
                let k = if em.contains_key((p, q)) { (p, q) } else { (q, p) };
                let jj = choose|jj: int| 0 <= jj < es@.len() && es@[jj].0 == k;
                assert(lv0.contains(es@[jj].0.0) && lv0.contains(es@[jj].0.1));
            }
        }
        assert(line_vertices(ls) =~= vs);
        assert(encodes(out@, vs, em));
        assert forall|v: u32| iso.contains(v) == (vs.contains(v) && isolated(em, v)) by {
            if vs.contains(v) {
                assert(verts@.contains(v));
            }
            if iso.contains(v) {
                let j = choose|j: int| 0 <= j < verts@.len() && verts@[j] == v;
                assert(verts@.contains(v));
            }
        }
        assert(lists_exactly(es@, em) && iso.no_duplicates());
        assert(written_as(out@, vs, em));
    }
    out
}


/// The header and then the lines `ls`.
pub open spec fn rendered(n: nat, m: nat, ls: Seq<Line>) -> Seq<u8> {
    render_header(n, m) + render_lines(ls)
}

/// `r` is a graph with exactly the vertices and edges that reading `ls`
/// gives.
pub open spec fn read_as(r: Option<GraphMap>, ls: Seq<Line>, undirected: bool) -> bool {
    &&& r is Some
    &&& r.unwrap().vertex_set() == line_vertices(ls)
    &&& r.unwrap().edge_map() == line_edges(ls, undirected)
}

proof fn lemma_line_in_text(h: Seq<u8>, ls: Seq<Line>, c: int)
    requires
        0 <= c < ls.len(),
    ensures
        ({
            let t = h + render_lines(ls);
            let pos: int = (h.len() + render_lines(ls.take(c)).len()) as int;
            let rl = render_line(ls[c]);
            &&& pos + rl.len() <= t.len()
            &&& t.subrange(pos, pos + rl.len()) == rl
            &&& pos + rl.len() == h.len() + render_lines(ls.take(c + 1)).len()
        }),
{
    lemma_render_prefix(ls, c + 1);
    lemma_render_step(ls, c);
    let t = h + render_lines(ls);
    let a = render_lines(ls.take(c));
    let rl = render_line(ls[c]);
    let pos: int = (h.len() + a.len()) as int;
    assert forall|k: int| 0 <= k < rl.len() implies t.subrange(pos, pos + rl.len())[k] == rl[k] by {
        assert(t[pos + k] == render_lines(ls)[a.len() + k]);
        assert(render_lines(ls.take(c + 1))[a.len() + k] == rl[k]);
    }
    assert(t.subrange(pos, pos + rl.len()) =~= rl);
}

proof fn lemma_line_at(t: Seq<u8>, pos: int, l: Line)
    requires
        0 <= pos,
        pos + render_line(l).len() <= t.len(),
        t.subrange(pos, pos + render_line(l).len()) == render_line(l),
    ensures
        digits_at(t, pos, l.0 as nat),
        ({
            let a_end = pos + digits(l.0 as nat).len();
            match l.1 {
                None => t[a_end] == 10 && a_end + 1 == pos + render_line(l).len(),
                Some((b, w)) => {
                    let b_end = a_end + 1 + digits(b as nat).len();
                    let w_end = b_end + 1 + digits(w as nat).len();
                    &&& t[a_end] == 32
                    &&& digits_at(t, a_end + 1, b as nat)
                    &&& t[b_end] == 32
                    &&& digits_at(t, b_end + 1, w as nat)
                    &&& t[w_end] == 10
                    &&& w_end + 1 == pos + render_line(l).len()
                },
            }
        }),
{
    let rl = render_line(l);
    let da = digits(l.0 as nat);
    lemma_digits(l.0 as nat);
    assert forall|k: int| 0 <= k < rl.len() implies t[pos + k] == rl[k] by {
        assert(t.subrange(pos, pos + rl.len())[k] == rl[k]);
    }
    assert(t.subrange(pos, pos + da.len()) =~= da) by {
        assert forall|k: int| 0 <= k < da.len() implies t.subrange(pos, pos + da.len())[k] == da[k] by {
            assert(rl[k] == da[k]);
        }
    }
    let a_end = pos + da.len();
    assert(t[a_end] == rl[da.len() as int]);
    match l.1 {
        None => {},
        Some((b, w)) => {
            let db = digits(b as nat);
            let dw = digits(w as nat);
            lemma_digits(b as nat);
            lemma_digits(w as nat);
            let o1: int = (da.len() + 1) as int;
            let o2: int = o1 + db.len() as int + 1;
            assert(t.subrange(a_end + 1, a_end + 1 + db.len()) =~= db) by {
                assert forall|k: int| 0 <= k < db.len() implies t.subrange(a_end + 1, a_end + 1 + db.len())[k] == db[k] by {
                    assert(t[pos + o1 + k] == rl[o1 + k]);
                    assert(rl[o1 + k] == db[k]);
                }
            }
            assert(t[pos + o1 + db.len()] == rl[o1 + db.len()]);
            assert(t.subrange(pos + o2, pos + o2 + dw.len()) =~= dw) by {
                assert forall|k: int| 0 <= k < dw.len() implies t.subrange(pos + o2, pos + o2 + dw.len())[k] == dw[k] by {
                    assert(t[pos + o2 + k] == rl[o2 + k]);
                    assert(rl[o2 + k] == dw[k]);
                }
            }
            assert(t[pos + o2 + dw.len()] == rl[o2 + dw.len()]);
        },
    }
}


/// Reads a graph written in the text format. The header line is skipped;
/// each following line adds a bare vertex or an edge (and its ends), in
/// order; with `undirected`, each edge line also adds the reverse edge. A text that `write_graph` could have produced is always read,
/// into exactly the vertices and edges its lines give.
pub fn read_graph(text: &Vec<u8>, undirected: bool) -> (r: Option<GraphMap>)
    ensures
        r matches Some(g) ==> g.wf(),
        forall|n: nat, m: nat, ls: Seq<Line>| text@ == #[trigger] rendered(n, m, ls) ==> read_as(r, ls, undirected),
{
    let mut i: usize = 0;
    while i < text.len() && text[i] != 10
        invariant
            i <= text@.len(),
            forall|n: nat, m: nat, ls: Seq<Line>| text@ == #[trigger] rendered(n, m, ls)
                ==> i < render_header(n, m).len(),
        decreases text@.len() - i,
    {
        proof {
            assert forall|n: nat, m: nat, ls: Seq<Line>| text@ == #[trigger] rendered(n, m, ls)
                implies i + 1 < render_header(n, m).len() by {
                let hd = render_header(n, m);
                if i + 1 == hd.len() {
                    assert(text@[i as int] == hd[i as int]);
                }
            }
        }
        i = i + 1;
    }
    if i >= text.len() {
        return None;
    }
    proof {
        assert forall|n: nat, m: nat, ls: Seq<Line>| text@ == #[trigger] rendered(n, m, ls)
            implies i + 1 == render_header(n, m).len() by {
            let hd = render_header(n, m);
            let dn = digits(n);
            let dm = digits(m);
            lemma_digits(n);
            lemma_digits(m);
            if i + 1 < hd.len() {
                assert(text@[i as int] == hd[i as int]);
                if i < dn.len() {
                    assert(hd[i as int] == dn[i as int]);
                } else if i > dn.len() {
                    assert(hd[i as int] == dm[i - dn.len() - 1]);
                }
            }
        }
    }
    let mut pos: usize = i + 1;
    let mut g = GraphMap::new();
    let ghost mut cnt: int = 0;
    proof {
        assert forall|n: nat, m: nat, ls: Seq<Line>| text@ == #[trigger] rendered(n, m, ls) implies
            ls.take(0) =~= Seq::<Line>::empty() && g.vertex_set() == line_vertices(ls.take(0))
                && g.edge_map() == line_edges(ls.take(0), undirected) by {
            assert(ls.take(0) =~= Seq::<Line>::empty());
        }
    }
    while pos < text.len()
        invariant
            g.wf(),
            pos <= text@.len(),
            cnt >= 0,
            forall|n: nat, m: nat, ls: Seq<Line>| text@ == #[trigger] rendered(n, m, ls) ==> {
                &&& cnt <= ls.len()
                &&& pos == render_header(n, m).len() + render_lines(ls.take(cnt)).len()
                &&& g.vertex_set() == line_vertices(ls.take(cnt))
                &&& g.edge_map() == line_edges(ls.take(cnt), undirected)
            },
        decreases text@.len() - pos,
    {
        let ghost g0 = g;
        let ghost pos0 = pos as int;
        proof {
            assert forall|n: nat, m: nat, ls: Seq<Line>| text@ == #[trigger] rendered(n, m, ls) implies
                cnt < ls.len() && line_facts(text@, pos0, ls, cnt) by {
                if cnt == ls.len() {
                    assert(ls.take(cnt) =~= ls);
                }
                lemma_line_in_text(render_header(n, m), ls, cnt);
                lemma_line_at(text@, pos0, ls[cnt]);
            }
        }
        let (a, a_end) = match parse_number(text, pos) {
            Some(x) => x,
            None => return None,
        };
        if a_end >= text.len() {
            return None;
        }
        if text[a_end] == 10 {
            g.add_vertex(a);
            pos = a_end + 1;
            proof {
                assert forall|n: nat, m: nat, ls: Seq<Line>| text@ == #[trigger] rendered(n, m, ls) implies {
                    &&& cnt + 1 <= ls.len()
                    &&& pos == render_header(n, m).len() + render_lines(ls.take(cnt + 1)).len()
                    &&& g.vertex_set() == line_vertices(ls.take(cnt + 1))
                    &&& g.edge_map() == line_edges(ls.take(cnt + 1), undirected)
                } by {
                    assert(line_facts(text@, pos0, ls, cnt));
                    lemma_render_step(ls, cnt);
                    lemma_line_in_text(render_header(n, m), ls, cnt);
                    assert(digits_at(text@, pos0, ls[cnt].0 as nat));
                    let l = ls[cnt];
                    if l.1 is Some {
                        assert(text@[pos0 + digits(l.0 as nat).len()] == 32);
                    }
                }
                cnt = cnt + 1;
            }
        } else if text[a_end] == 32 {
            let (b, b_end) = match parse_number(text, a_end + 1) {
                Some(x) => x,
                None => return None,
            };
            if b_end >= text.len() || text[b_end] != 32 {
                return None;
            }
            let (w, w_end) = match parse_number(text, b_end + 1) {
                Some(x) => x,
                None => return None,
            };
            if w_end >= text.len() || text[w_end] != 10 {
                return None;
            }
            g.add_edge((a, b), w);
            if undirected {
                g.add_edge((b, a), w);
            }
            pos = w_end + 1;
            proof {
                assert forall|n: nat, m: nat, ls: Seq<Line>| text@ == #[trigger] rendered(n, m, ls) implies {
                    &&& cnt + 1 <= ls.len()
                    &&& pos == render_header(n, m).len() + render_lines(ls.take(cnt + 1)).len()
                    &&& g.vertex_set() == line_vertices(ls.take(cnt + 1))
                    &&& g.edge_map() == line_edges(ls.take(cnt + 1), undirected)
                } by {
                    assert(line_facts(text@, pos0, ls, cnt));
                    lemma_render_step(ls, cnt);
                    lemma_line_in_text(render_header(n, m), ls, cnt);
                    let l = ls[cnt];
                    if l.1 is None {
                        assert(text@[pos0 + digits(l.0 as nat).len()] == 10);
                    } else {
                        assert(digits_at(text@, a_end + 1, l.1.unwrap().0 as nat));
                        assert(digits_at(text@, b_end + 1, l.1.unwrap().1 as nat));
                    }
                }
                cnt = cnt + 1;
            }
        } else {
            proof {
                assert forall|n: nat, m: nat, ls: Seq<Line>| !(text@ == #[trigger] rendered(n, m, ls)) by {
                    if text@ == rendered(n, m, ls) {
                        assert(line_facts(text@, pos0, ls, cnt));
                        let l = ls[cnt];
                        assert(digits_at(text@, pos0, l.0 as nat));
                    }
                }
            }
            return None;
        }
    }
    proof {
        assert forall|n: nat, m: nat, ls: Seq<Line>| text@ == #[trigger] rendered(n, m, ls) implies read_as(Some(g), ls, undirected) by {
            if cnt < ls.len() {
                lemma_line_in_text(render_header(n, m), ls, cnt);
            }
            assert(ls.take(cnt) =~= ls);
        }
    }
    Some(g)
}

/// What the text shows at a line start: the digits of the line's first
/// number, then what the line's kind puts after them.
spec fn line_facts(t: Seq<u8>, pos: int, ls: Seq<Line>, c: int) -> bool {
    let l = ls[c];
    let a_end = pos + digits(l.0 as nat).len();
    &&& digits_at(t, pos, l.0 as nat)
    &&& match l.1 {
        None => t[a_end] == 10 && a_end + 1 <= t.len(),
        Some((b, w)) => {
            let b_end = a_end + 1 + digits(b as nat).len();
            let w_end = b_end + 1 + digits(w as nat).len();
            &&& t[a_end] == 32
            &&& digits_at(t, a_end + 1, b as nat)
            &&& t[b_end] == 32
            &&& digits_at(t, b_end + 1, w as nat)
            &&& t[w_end] == 10
            &&& w_end + 1 <= t.len()
        },
    }
}

} // verus!
