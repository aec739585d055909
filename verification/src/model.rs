//! Mathematical model of the resource allocation graph.
//!
//! Processes and resources are registered under string names; inside the
//! model each node is named by its index in registration order.  A resource
//! has at most one holder (`holder[j]`), and an ordered wait queue
//! (`queues[j]`) of process indices.  Membership of a process in a
//! resource's wait queue *is* the request edge, so the queue and the
//! request-edge set can never disagree.

use vstd::prelude::*;

verus! {

/// A node of the bipartite graph: a process or a resource, named by its
/// index in the detector's registration order.
#[derive(PartialEq, Eq, Structural, Clone, Copy, Debug)]
pub enum Node {
    Process(usize),
    Resource(usize),
}

/// The committed state of the detector: registered names, one optional
/// holder per resource, and one FIFO wait queue per resource.
#[verifier::ext_equal]
pub struct Rag {
    /// Names of the registered processes, in registration order.
    pub procs: Seq<Seq<char>>,
    /// Names of the registered resources, in registration order.
    pub res: Seq<Seq<char>>,
    /// `holder[j]` is the process index holding resource `j`, if any.
    pub holder: Seq<Option<usize>>,
    /// `queues[j]` is the FIFO wait queue of resource `j`: the process
    /// indices waiting for it, oldest request first.
    pub queues: Seq<Seq<usize>>,
}

/// The two legal edge kinds: a request edge from a waiting process to a
/// resource, and an assignment edge from a resource to its holder.  No
/// process-to-process or resource-to-resource edge ever exists.
pub open spec fn edge(g: Rag, a: Node, b: Node) -> bool {
    match (a, b) {
        (Node::Process(i), Node::Resource(j)) => 0 <= j < g.queues.len()
            && g.queues[j as int].contains(i),
        (Node::Resource(j), Node::Process(i)) => 0 <= j < g.holder.len()
            && g.holder[j as int] == Some(i),
        _ => false,
    }
}

/// A walk: a non-empty sequence of nodes joined by edges.  Because every
/// edge joins nodes of different kinds, every walk alternates between
/// processes and resources.
pub open spec fn is_walk(g: Rag, w: Seq<Node>) -> bool {
    w.len() >= 1 && forall|t: int| 0 <= t < w.len() - 1 ==> edge(g, #[trigger] w[t], w[t + 1])
}

/// Node `b` can be reached from node `a` (in zero or more steps).
pub open spec fn reaches(g: Rag, a: Node, b: Node) -> bool {
    exists|w: Seq<Node>| is_walk(g, w) && w[0] == a && w.last() == b
}

/// Node `n` lies on a cycle: a walk of at least one step leads from `n`
/// back to `n`.
pub open spec fn on_cycle(g: Rag, n: Node) -> bool {
    exists|w: Seq<Node>| is_walk(g, w) && w.len() >= 2 && w[0] == n && w.last() == n
}

/// Some node on a cycle is reachable from `start`: admitting the state of
/// affairs that `start` waits in would risk a circular-wait deadlock.
pub open spec fn can_reach_cycle(g: Rag, start: Node) -> bool {
    exists|n: Node| reaches(g, start, n) && on_cycle(g, n)
}

/// No node lies on a circular wait.
pub open spec fn acyclic(g: Rag) -> bool {
    forall|n: Node| !on_cycle(g, n)
}

/// Structural well-formedness: one holder slot and one queue per resource,
/// distinct names, every stored process index registered, and no process
/// queued twice on the same resource.
pub open spec fn wf_basic(g: Rag) -> bool {
    &&& g.holder.len() == g.res.len()
    &&& g.queues.len() == g.res.len()
    &&& forall|i1: int, i2: int| 0 <= i1 < i2 < g.procs.len() ==> g.procs[i1] != g.procs[i2]
    &&& forall|j1: int, j2: int| 0 <= j1 < j2 < g.res.len() ==> g.res[j1] != g.res[j2]
    &&& forall|j: int| 0 <= j < g.res.len() && (#[trigger] g.holder[j]) is Some
        ==> g.holder[j]->0 < g.procs.len()
    &&& forall|j: int, k: int| 0 <= j < g.res.len() && 0 <= k < g.queues[j].len()
        ==> #[trigger] g.queues[j][k] < g.procs.len()
    &&& forall|j: int, k1: int, k2: int| 0 <= j < g.res.len()
        && 0 <= k1 < k2 < g.queues[j].len()
        ==> #[trigger] g.queues[j][k1] != #[trigger] g.queues[j][k2]
}

/// The public invariant of the detector: structurally well formed and free
/// of circular waits in every committed state.
pub open spec fn wf(g: Rag) -> bool {
    wf_basic(g) && acyclic(g)
}

pub open spec fn registered_proc(g: Rag, n: Seq<char>) -> bool {
    g.procs.contains(n)
}

pub open spec fn registered_res(g: Rag, n: Seq<char>) -> bool {
    g.res.contains(n)
}

/// Index of a registered process name (unique when `wf_basic` holds).
pub open spec fn proc_idx(g: Rag, n: Seq<char>) -> int {
    g.procs.index_of(n)
}

/// Index of a registered resource name (unique when `wf_basic` holds).
pub open spec fn res_idx(g: Rag, n: Seq<char>) -> int {
    g.res.index_of(n)
}

/// Registering a process: a fresh name is appended, a known one (whether a
/// process or already-registered name) leaves the state unchanged.
pub open spec fn spec_add_process(g: Rag, n: Seq<char>) -> Rag {
    if g.procs.contains(n) {
        g
    } else {
        Rag { procs: g.procs.push(n), ..g }
    }
}

/// Registering a resource: a fresh name is appended free and with an empty
/// wait queue; a known one leaves the state unchanged.
pub open spec fn spec_add_resource(g: Rag, n: Seq<char>) -> Rag {
    if g.res.contains(n) {
        g
    } else {
        Rag {
            res: g.res.push(n),
            holder: g.holder.push(None),
            queues: g.queues.push(Seq::empty()),
            ..g
        }
    }
}

/// The admission protocol, as a state transition.  Meaningful when
/// `wf_basic(g)` holds and both names are registered.
///
/// - A free resource is granted on the spot, unless the fresh assignment
///   edge would put a circular wait within the requester's reach (possible
///   only when the free resource still has waiters, and the requester
///   already waits elsewhere); then the grant is rolled back and the
///   request refused, so that the committed graph stays acyclic.
/// - A process already waiting for the resource is refused, so that no
///   duplicate request edge ever exists.
/// - Otherwise the request edge is added tentatively; if a circular wait
///   is then reachable from the requester the edge is rolled back and the
///   request refused, else it is kept (the process is queued).
pub open spec fn spec_request(g: Rag, p: Seq<char>, r: Seq<char>) -> (Rag, bool) {
    let ip = proc_idx(g, p) as usize;
    let jr = res_idx(g, r);
    if g.holder[jr] is None {
        let g2 = Rag { holder: g.holder.update(jr, Some(ip)), ..g };
        if can_reach_cycle(g2, Node::Process(ip)) {
            (g, false)
        } else {
            (g2, true)
        }
    } else if g.queues[jr].contains(ip) {
        (g, false)
    } else {
        let g2 = Rag { queues: g.queues.update(jr, g.queues[jr].push(ip)), ..g };
        if can_reach_cycle(g2, Node::Process(ip)) {
            (g, false)
        } else {
            (g2, true)
        }
    }
}

/// State after step 1 of the release protocol: the assignment edge is
/// removed, along with any stale request edge (queue entry) of `ip` on the
/// released resource.
pub open spec fn release_cleanup(g: Rag, ip: usize, jr: int) -> Rag {
    let q1 = if g.queues[jr].contains(ip) {
        g.queues[jr].remove_value(ip)
    } else {
        g.queues[jr]
    };
    Rag { holder: g.holder.update(jr, None), queues: g.queues.update(jr, q1), ..g }
}

/// State after granting resource `jr` to the head of its wait queue:
/// the head is dequeued (its request edge disappears with it) and the
/// assignment edge is added.  Meaningful when the queue is non-empty.
pub open spec fn release_grant(g1: Rag, jr: int) -> Rag {
    let h = g1.queues[jr][0];
    Rag {
        holder: g1.holder.update(jr, Some(h)),
        queues: g1.queues.update(jr, g1.queues[jr].drop_first()),
        ..g1
    }
}

/// The release protocol, as a state transition.  Meaningful when
/// `wf_basic(g)` holds and both names are registered.
///
/// - A caller that does not hold the resource changes nothing and is told
///   `false`.
/// - The holder's assignment edge (and any stale request edge of its own)
///   is removed.
/// - With `next` absent, the head of the wait queue, if any, is granted
///   the resource; a grant that would make a circular wait reachable from
///   the new holder is withheld (the waiter stays queued, the resource
///   stays free), and the release still reports `true`.
/// - With `next` present, the grant happens only if `next` names exactly
///   the queue head (FIFO order); a cycle found after the grant rolls the
///   grant back and reports `false`, as does a `next` that is not the
///   head.
pub open spec fn spec_release(g: Rag, p: Seq<char>, r: Seq<char>, next: Option<Seq<char>>) -> (
    Rag,
    bool,
) {
    let ip = proc_idx(g, p) as usize;
    let jr = res_idx(g, r);
    if g.holder[jr] != Some(ip) {
        (g, false)
    } else {
        let g1 = release_cleanup(g, ip, jr);
        match next {
            None => {
                if g1.queues[jr].len() == 0 {
                    (g1, true)
                } else {
                    let g2 = release_grant(g1, jr);
                    if can_reach_cycle(g2, Node::Process(g1.queues[jr][0])) {
                        (g1, true)
                    } else {
                        (g2, true)
                    }
                }
            },
            Some(n) => {
                if g1.queues[jr].len() > 0 && g1.procs[g1.queues[jr][0] as int] == n {
                    let g2 = release_grant(g1, jr);
                    if can_reach_cycle(g2, Node::Process(g1.queues[jr][0])) {
                        (g1, false)
                    } else {
                        (g2, true)
                    }
                } else {
                    (g1, false)
                }
            },
        }
    }
}

} // verus!
