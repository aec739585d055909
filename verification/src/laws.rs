//! The detector's governing properties, stated and proved over the model.
//!
//! Safety itself — the committed graph is never left with a circular wait —
//! is carried by the `wf(final(self)@)` clause in the contract of every
//! protocol call of [`crate::detector::DeadlockDetector`]; the lemmas here
//! spell out what that invariant yields, and how the transitions behave.

use vstd::prelude::*;

use crate::model::Node;
use crate::model::Rag;
use crate::model::acyclic;
use crate::model::edge;
use crate::model::proc_idx;
use crate::model::registered_proc;
use crate::model::registered_res;
use crate::model::res_idx;
use crate::model::spec_add_process;
use crate::model::spec_add_resource;
use crate::model::spec_release;
use crate::model::spec_request;
use crate::model::can_reach_cycle;
use crate::model::wf;
use crate::model::wf_basic;
use crate::paths::lemma_no_succ_safe;

verus! {

/// Safety: a committed state never holds a circular wait.  Every protocol
/// call promises `wf` of the state it leaves behind, and `wf` includes
/// acyclicity, so no sequence of calls can commit a cycle.
pub proof fn lemma_committed_acyclic(g: Rag)
    requires
        wf(g),
    ensures
        acyclic(g),
{
}

/// Mutual exclusion: a resource has at most one assignment edge, at any
/// state at all — two assignment edges out of one resource name the same
/// process.
pub proof fn lemma_mutual_exclusion(g: Rag, j: usize, i1: usize, i2: usize)
    requires
        edge(g, Node::Resource(j), Node::Process(i1)),
        edge(g, Node::Resource(j), Node::Process(i2)),
    ensures
        i1 == i2,
{
}

/// Rollback atomicity: a refused request leaves the graph exactly as it
/// was — edge sets and queue contents alike.
pub proof fn lemma_rollback(g: Rag, p: Seq<char>, r: Seq<char>)
    requires
        wf(g),
        registered_proc(g, p),
        registered_res(g, r),
    ensures
        spec_request(g, p, r).1 == false ==> spec_request(g, p, r).0 == g,
{
}

/// Idempotent registration: registering the same name twice leaves the
/// same graph as registering it once.
pub proof fn lemma_register_idempotent(g: Rag, n: Seq<char>)
    ensures
        spec_add_process(spec_add_process(g, n), n) == spec_add_process(g, n),
        spec_add_resource(spec_add_resource(g, n), n) == spec_add_resource(g, n),
{
    let g1 = spec_add_process(g, n);
    if !g.procs.contains(n) {
        assert(g1.procs[g.procs.len() as int] == n);
        assert(g1.procs.contains(n));
    }
    let g2 = spec_add_resource(g, n);
    if !g.res.contains(n) {
        assert(g2.res[g.res.len() as int] == n);
        assert(g2.res.contains(n));
    }
}

/// The model's name lookups land on the registered entries.
proof fn idx_facts(g: Rag, p: Seq<char>, r: Seq<char>)
    requires
        registered_proc(g, p),
        registered_res(g, r),
    ensures
        0 <= proc_idx(g, p) < g.procs.len(),
        g.procs[proc_idx(g, p)] == p,
        0 <= res_idx(g, r) < g.res.len(),
        g.res[res_idx(g, r)] == r,
{
    assert(exists|k: int| 0 <= k < g.procs.len() && g.procs[k] == p);
    assert(exists|k: int| 0 <= k < g.res.len() && g.res[k] == r);
}

/// Safety, request half: the admission protocol never commits a circular
/// wait — the state it leaves is well formed and acyclic.
pub proof fn lemma_request_preserves_wf(g: Rag, p: Seq<char>, r: Seq<char>)
    requires
        wf(g),
        registered_proc(g, p),
        registered_res(g, r),
    ensures
        wf(spec_request(g, p, r).0),
{
    idx_facts(g, p, r);
    let ip = proc_idx(g, p) as usize;
    let jr = res_idx(g, r);
    if g.holder[jr] is None {
        let g2 = Rag { holder: g.holder.update(jr, Some(ip)), ..g };
        if !can_reach_cycle(g2, Node::Process(ip)) {
            assert forall|a: Node, b: Node| edge(g2, a, b) implies edge(g, a, b) || (a
                == Node::Resource(jr as usize) && b == Node::Process(ip)) by {
                if let Node::Resource(j2) = a {
                    if j2 != jr {
                        assert(g2.holder[j2 as int] == g.holder[j2 as int]);
                    }
                }
            }
            crate::paths::lemma_new_edge_acyclic(
                g,
                g2,
                Node::Resource(jr as usize),
                Node::Process(ip),
            );
        }
    } else if !g.queues[jr].contains(ip) {
        let g2 = Rag { queues: g.queues.update(jr, g.queues[jr].push(ip)), ..g };
        if !can_reach_cycle(g2, Node::Process(ip)) {
            assert forall|a: Node, b: Node| edge(g2, a, b) implies edge(g, a, b) || (a
                == Node::Process(ip) && b == Node::Resource(jr as usize)) by {
                if let Node::Process(i2) = a {
                    if let Node::Resource(j2) = b {
                        if j2 == jr && i2 != ip {
                            let t = choose|t: int|
                                0 <= t < g2.queues[jr].len() && g2.queues[jr][t] == i2;
                            assert(g.queues[jr][t] == i2);
                        }
                    }
                }
            }
            crate::paths::lemma_new_edge_acyclic(
                g,
                g2,
                Node::Process(ip),
                Node::Resource(jr as usize),
            );
        }
    }
}

/// Safety, release half: the release protocol never commits a circular
/// wait either, whichever waiter it grants to.
pub proof fn lemma_release_preserves_wf(g: Rag, p: Seq<char>, r: Seq<char>, next: Option<Seq<char>>)
    requires
        wf(g),
        registered_proc(g, p),
        registered_res(g, r),
    ensures
        wf(spec_release(g, p, r, next).0),
{
    idx_facts(g, p, r);
    let ip = proc_idx(g, p) as usize;
    let jr = res_idx(g, r);
    if g.holder[jr] == Some(ip) {
        let g1 = crate::model::release_cleanup(g, ip, jr);
        let q0 = g.queues[jr];
        let q1 = g1.queues[jr];
        assert(wf(g1)) by {
            if q0.contains(ip) {
                let k = q0.index_of_first(ip)->0;
                q0.index_of_first_ensures(ip);
                crate::detector::lemma_remove_facts(q0, k);
            }
            assert forall|a: Node, b: Node| edge(g1, a, b) implies edge(g, a, b) by {
                if let Node::Process(i2) = a {
                    if let Node::Resource(j2) = b {
                        if j2 == jr && q0.contains(ip) {
                            let k = q0.index_of_first(ip)->0;
                            q0.index_of_first_ensures(ip);
                            crate::detector::lemma_remove_facts(q0, k);
                        }
                    }
                }
            }
            crate::paths::lemma_acyclic_mono(g, g1);
        }
        if q1.len() > 0 {
            let h = q1[0];
            let g2 = crate::model::release_grant(g1, jr);
            let granted = match next {
                None => true,
                Some(n) => g1.procs[q1[0] as int] == n,
            };
            if granted && !can_reach_cycle(g2, Node::Process(h)) {
                assert(wf_basic(g2));
                assert forall|a: Node, b: Node| edge(g2, a, b) implies edge(g1, a, b) || (a
                    == Node::Resource(jr as usize) && b == Node::Process(h)) by {
                    if let Node::Process(i2) = a {
                        if let Node::Resource(j2) = b {
                            if j2 == jr {
                                let t = choose|t: int|
                                    0 <= t < g2.queues[jr].len() && g2.queues[jr][t] == i2;
                                assert(g1.queues[jr][t + 1] == i2);
                            }
                        }
                    }
                }
                crate::paths::lemma_new_edge_acyclic(
                    g1,
                    g2,
                    Node::Resource(jr as usize),
                    Node::Process(h),
                );
            }
        }
    }
}

/// FIFO fairness, refusing half: releasing to a named process that is not
/// the head of the wait queue fails.
pub proof fn lemma_fifo_deny(g: Rag, p: Seq<char>, r: Seq<char>, n: Seq<char>)
    requires
        wf(g),
        registered_proc(g, p),
        registered_res(g, r),
        g.holder[res_idx(g, r)] == Some(proc_idx(g, p) as usize),
        !g.queues[res_idx(g, r)].contains(proc_idx(g, p) as usize),
        g.queues[res_idx(g, r)].len() == 0 || g.procs[g.queues[res_idx(g, r)][0] as int] != n,
    ensures
        spec_release(g, p, r, Some(n)).1 == false,
{
    let ip = proc_idx(g, p) as usize;
    let jr = res_idx(g, r);
    let g1 = crate::model::release_cleanup(g, ip, jr);
    assert(g1.queues[jr] == g.queues[jr]);
}

/// FIFO fairness, granting half: releasing to the process at the head of
/// the wait queue succeeds, provided the head is waiting for nothing else
/// (so that the grant cannot close a cycle), and leaves the head holding
/// the resource.
pub proof fn lemma_fifo_grant(g: Rag, p: Seq<char>, r: Seq<char>)
    requires
        wf(g),
        registered_proc(g, p),
        registered_res(g, r),
        g.holder[res_idx(g, r)] == Some(proc_idx(g, p) as usize),
        !g.queues[res_idx(g, r)].contains(proc_idx(g, p) as usize),
        g.queues[res_idx(g, r)].len() > 0,
        forall|j2: int|
            0 <= j2 < g.queues.len() && j2 != res_idx(g, r) ==> !(#[trigger] g.queues[j2]).contains(
                g.queues[res_idx(g, r)][0],
            ),
    ensures
        spec_release(g, p, r, Some(g.procs[g.queues[res_idx(g, r)][0] as int])).1 == true,
        spec_release(g, p, r, Some(g.procs[g.queues[res_idx(g, r)][0] as int])).0.holder[res_idx(
            g,
            r,
        )] == Some(g.queues[res_idx(g, r)][0]),
{
    let ip = proc_idx(g, p) as usize;
    let jr = res_idx(g, r);
    let h = g.queues[jr][0];
    let g1 = crate::model::release_cleanup(g, ip, jr);
    assert(g1.queues[jr] == g.queues[jr]);
    let g2 = crate::model::release_grant(g1, jr);
    assert forall|s: Node| !edge(g2, Node::Process(h), s) by {
        if let Node::Resource(j2) = s {
            if 0 <= j2 < g2.queues.len() {
                if j2 == jr {
                    if g2.queues[j2 as int].contains(h) {
                        let t = choose|t: int|
                            0 <= t < g2.queues[jr].len() && g2.queues[jr][t] == h;
                        assert(g1.queues[jr][t + 1] == h);
                        assert(g.queues[jr][t + 1] == g.queues[jr][0]);
                    }
                } else {
                    assert(!g.queues[j2 as int].contains(h));
                }
            }
        }
    }
    lemma_no_succ_safe(g2, Node::Process(h));
}

} // verus!
