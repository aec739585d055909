//! Lemmas about walks, reachability and cycles in the bipartite graph.
//!
//! These carry the correctness argument of the depth-first search: how
//! walks compose, how cycles rotate, and why a node whose successors are
//! all safe is itself safe.

use vstd::prelude::*;

use crate::model::Node;
use crate::model::Rag;
use crate::model::can_reach_cycle;
use crate::model::edge;
use crate::model::is_walk;
use crate::model::on_cycle;
use crate::model::reaches;

verus! {

/// Every node reaches itself, by the one-node walk.
pub proof fn lemma_reaches_refl(g: Rag, n: Node)
    ensures
        reaches(g, n, n),
{
    let w = seq![n];
    assert(is_walk(g, w) && w[0] == n && w.last() == n);
}

/// Two walks that share an endpoint compose into one.
pub proof fn lemma_walk_concat(g: Rag, u: Seq<Node>, v: Seq<Node>) -> (w: Seq<Node>)
    requires
        is_walk(g, u),
        is_walk(g, v),
        u.last() == v[0],
    ensures
        is_walk(g, w),
        w.len() == u.len() + v.len() - 1,
        w[0] == u[0],
        w.last() == v.last(),
{
    let w = u + v.subrange(1, v.len() as int);
    assert forall|t: int| 0 <= t < w.len() - 1 implies edge(g, #[trigger] w[t], w[t + 1]) by {
        if t < u.len() - 1 {
            assert(w[t] == u[t]);
            assert(w[t + 1] == u[t + 1]);
        } else if t == u.len() - 1 {
            assert(w[t] == u[u.len() - 1]);
            assert(w[t + 1] == v[1]);
            assert(edge(g, v[0], v[1]));
        } else {
            let s = t - u.len();
            assert(w[t] == v[s + 1]);
            assert(w[t + 1] == v[s + 2]);
            assert(edge(g, v[s + 1], v[s + 2]));
        }
    }
    if v.len() == 1 {
        assert(w =~= u);
        assert(w.last() == v.last());
    } else {
        assert(w.last() == v[v.len() - 1]);
    }
    w
}

/// A contiguous piece of a walk is a walk.
pub proof fn lemma_walk_subrange(g: Rag, w: Seq<Node>, lo: int, hi: int)
    requires
        is_walk(g, w),
        0 <= lo < hi <= w.len(),
    ensures
        is_walk(g, w.subrange(lo, hi)),
        w.subrange(lo, hi)[0] == w[lo],
        w.subrange(lo, hi).last() == w[hi - 1],
        w.subrange(lo, hi).len() == hi - lo,
{
    let u = w.subrange(lo, hi);
    assert forall|t: int| 0 <= t < u.len() - 1 implies edge(g, #[trigger] u[t], u[t + 1]) by {
        assert(u[t] == w[lo + t]);
        assert(u[t + 1] == w[lo + t + 1]);
        assert(edge(g, w[lo + t], w[lo + t + 1]));
    }
}

/// One more edge extends reachability by one step.
pub proof fn lemma_reaches_extend(g: Rag, a: Node, b: Node, c: Node)
    requires
        reaches(g, a, b),
        edge(g, b, c),
    ensures
        reaches(g, a, c),
{
    let w = choose|w: Seq<Node>| is_walk(g, w) && w[0] == a && w.last() == b;
    let w2 = w.push(c);
    assert forall|t: int| 0 <= t < w2.len() - 1 implies edge(g, #[trigger] w2[t], w2[t + 1]) by {
        if t < w.len() - 1 {
            assert(w2[t] == w[t]);
            assert(w2[t + 1] == w[t + 1]);
        } else {
            assert(w2[t] == w[w.len() - 1]);
            assert(w2[t + 1] == c);
        }
    }
    assert(is_walk(g, w2) && w2[0] == a && w2.last() == c);
}

/// A walk from `a` to `b` closed by an edge from `b` back to `a` puts `a`
/// on a cycle.
pub proof fn lemma_cycle_close(g: Rag, a: Node, b: Node)
    requires
        reaches(g, a, b),
        edge(g, b, a),
    ensures
        on_cycle(g, a),
{
    let w = choose|w: Seq<Node>| is_walk(g, w) && w[0] == a && w.last() == b;
    let w2 = w.push(a);
    assert forall|t: int| 0 <= t < w2.len() - 1 implies edge(g, #[trigger] w2[t], w2[t + 1]) by {
        if t < w.len() - 1 {
            assert(w2[t] == w[t]);
            assert(w2[t + 1] == w[t + 1]);
        } else {
            assert(w2[t] == w[w.len() - 1]);
            assert(w2[t + 1] == a);
        }
    }
    assert(is_walk(g, w2) && w2.len() >= 2 && w2[0] == a && w2.last() == a);
}

/// Dropping the first node of a walk of two or more nodes leaves a walk.
pub proof fn lemma_walk_drop_first(g: Rag, w: Seq<Node>)
    requires
        is_walk(g, w),
        w.len() >= 2,
    ensures
        is_walk(g, w.drop_first()),
        w.drop_first()[0] == w[1],
        w.drop_first().last() == w.last(),
        w.drop_first().len() == w.len() - 1,
{
    let u = w.drop_first();
    assert forall|t: int| 0 <= t < u.len() - 1 implies edge(g, #[trigger] u[t], u[t + 1]) by {
        assert(u[t] == w[t + 1]);
        assert(u[t + 1] == w[t + 2]);
        assert(edge(g, w[t + 1], w[t + 2]));
    }
}

/// A node all of whose successors are safe is safe: every circular wait
/// reachable from it would already be reachable from a successor.
pub proof fn lemma_safe_closure(g: Rag, n: Node)
    requires
        forall|s: Node| edge(g, n, s) ==> !can_reach_cycle(g, s),
    ensures
        !can_reach_cycle(g, n),
{
    if can_reach_cycle(g, n) {
        let m = choose|m: Node| reaches(g, n, m) && on_cycle(g, m);
        let w = choose|w: Seq<Node>| is_walk(g, w) && w[0] == n && w.last() == m;
        if w.len() == 1 {
            // The cycle passes through `n` itself; its first step leads to a
            // successor that loops back to `n`, hence lies on a cycle.
            assert(m == n);
            let c = choose|c: Seq<Node>|
                is_walk(g, c) && c.len() >= 2 && c[0] == n && c.last() == n;
            let s = c[1];
            assert(edge(g, c[0], c[1]));
            lemma_walk_drop_first(g, c);
            assert(reaches(g, s, n)) by {
                let u = c.drop_first();
                assert(is_walk(g, u) && u[0] == s && u.last() == n);
            }
            lemma_cycle_close(g, s, n);
            lemma_reaches_refl(g, s);
            assert(can_reach_cycle(g, s));
        } else {
            let s = w[1];
            assert(edge(g, w[0], w[1]));
            lemma_walk_drop_first(g, w);
            assert(reaches(g, s, m)) by {
                let u = w.drop_first();
                assert(is_walk(g, u) && u[0] == s && u.last() == m);
            }
            assert(can_reach_cycle(g, s));
        }
    }
}

/// A node with no outgoing edge at all is safe.
pub proof fn lemma_no_succ_safe(g: Rag, n: Node)
    requires
        forall|s: Node| !edge(g, n, s),
    ensures
        !can_reach_cycle(g, n),
{
    lemma_safe_closure(g, n);
}

/// Walks survive the passage to a graph with more edges.
pub proof fn lemma_walk_mono(g1: Rag, g2: Rag, w: Seq<Node>)
    requires
        forall|a: Node, b: Node| edge(g1, a, b) ==> edge(g2, a, b),
        is_walk(g1, w),
    ensures
        is_walk(g2, w),
{
    assert forall|t: int| 0 <= t < w.len() - 1 implies edge(g2, #[trigger] w[t], w[t + 1]) by {
        assert(edge(g1, w[t], w[t + 1]));
    }
}

/// Removing edges cannot put a node on a cycle.
pub proof fn lemma_on_cycle_mono(g1: Rag, g2: Rag, n: Node)
    requires
        forall|a: Node, b: Node| edge(g1, a, b) ==> edge(g2, a, b),
        on_cycle(g1, n),
    ensures
        on_cycle(g2, n),
{
    let w = choose|w: Seq<Node>| is_walk(g1, w) && w.len() >= 2 && w[0] == n && w.last() == n;
    lemma_walk_mono(g1, g2, w);
    assert(is_walk(g2, w) && w.len() >= 2 && w[0] == n && w.last() == n);
}

/// A node of a closed walk lies on a cycle: the walk rotates around to
/// start and end there.
pub proof fn lemma_cycle_rotate(g: Rag, w: Seq<Node>, t: int)
    requires
        is_walk(g, w),
        w.len() >= 2,
        w[0] == w.last(),
        0 <= t < w.len(),
    ensures
        on_cycle(g, w[t]),
{
    if t == 0 {
        assert(on_cycle(g, w[0]));
    } else {
        let u = w.subrange(t, w.len() as int);
        let v = w.subrange(0, t + 1);
        lemma_walk_subrange(g, w, t, w.len() as int);
        lemma_walk_subrange(g, w, 0, t + 1);
        assert(u.last() == w[w.len() - 1]);
        assert(v[0] == w[0]);
        let w2 = lemma_walk_concat(g, u, v);
        assert(w2[0] == w[t]);
        assert(w2.last() == w[t]);
        assert(w2.len() >= 2);
        assert(on_cycle(g, w[t]));
    }
}

/// A graph with no edge at all has no cycle.
pub proof fn lemma_no_edge_acyclic(g: Rag)
    requires
        forall|a: Node, b: Node| !edge(g, a, b),
    ensures
        crate::model::acyclic(g),
{
    assert forall|n: Node| !on_cycle(g, n) by {
        if on_cycle(g, n) {
            let w = choose|w: Seq<Node>|
                is_walk(g, w) && w.len() >= 2 && w[0] == n && w.last() == n;
            assert(edge(g, w[0], w[1]));
        }
    }
}

/// Removing edges (or leaving them alone) keeps an acyclic graph acyclic.
pub proof fn lemma_acyclic_mono(g1: Rag, g2: Rag)
    requires
        crate::model::acyclic(g1),
        forall|a: Node, b: Node| edge(g2, a, b) ==> edge(g1, a, b),
    ensures
        crate::model::acyclic(g2),
{
    assert forall|n: Node| !on_cycle(g2, n) by {
        if on_cycle(g2, n) {
            lemma_on_cycle_mono(g2, g1, n);
        }
    }
}

/// Adding one edge to an acyclic graph keeps it acyclic, provided no
/// circular wait is reachable from one of the new edge's endpoints: a new
/// cycle would have to run through the new edge, and so through both.
pub proof fn lemma_new_edge_acyclic(g1: Rag, g2: Rag, a0: Node, b0: Node)
    requires
        crate::model::acyclic(g1),
        forall|a: Node, b: Node| edge(g2, a, b) ==> edge(g1, a, b) || (a == a0 && b == b0),
        !can_reach_cycle(g2, a0) || !can_reach_cycle(g2, b0),
    ensures
        crate::model::acyclic(g2),
{
    assert forall|n: Node| !on_cycle(g2, n) by {
        if on_cycle(g2, n) {
            let w = choose|w: Seq<Node>|
                is_walk(g2, w) && w.len() >= 2 && w[0] == n && w.last() == n;
            if forall|t: int| 0 <= t < w.len() - 1 ==> edge(g1, #[trigger] w[t], w[t + 1]) {
                assert(is_walk(g1, w));
                assert(on_cycle(g1, n));
            } else {
                let t = choose|t: int| 0 <= t < w.len() - 1 && !edge(g1, #[trigger] w[t], w[t + 1]);
                assert(edge(g2, w[t], w[t + 1]));
                assert(w[t] == a0 && w[t + 1] == b0);
                lemma_cycle_rotate(g2, w, t);
                lemma_reaches_refl(g2, a0);
                assert(can_reach_cycle(g2, a0));
                lemma_cycle_rotate(g2, w, t + 1);
                lemma_reaches_refl(g2, b0);
                assert(can_reach_cycle(g2, b0));
            }
        }
    }
}

} // verus!
