//! The executable deadlock detector.
//!
//! `DeadlockDetector` stores the committed resource-allocation graph and
//! answers the three protocol calls: register a node, request a resource,
//! release a resource.  Its view is the mathematical graph of
//! [`crate::model`], and every call is specified as the corresponding
//! transition of that model.

use vstd::prelude::*;

use crate::model::Node;
use crate::model::Rag;
use crate::model::can_reach_cycle;
use crate::model::edge;
use crate::model::proc_idx;
use crate::model::reaches;
use crate::model::registered_proc;
use crate::model::registered_res;
use crate::model::res_idx;
use crate::model::spec_add_process;
use crate::model::spec_add_resource;
use crate::model::wf;
use crate::model::wf_basic;
use crate::paths::lemma_acyclic_mono;
use crate::paths::lemma_cycle_close;
use crate::paths::lemma_new_edge_acyclic;
use crate::paths::lemma_no_edge_acyclic;
use crate::paths::lemma_reaches_extend;
use crate::paths::lemma_reaches_refl;
use crate::paths::lemma_safe_closure;
use vstd::pervasive::VecAdditionalExecFns;

verus! {

/// A protocol call named a node that was never registered.
#[derive(PartialEq, Eq, Structural, Clone, Copy, Debug)]
pub enum RagError {
    UnknownProcess,
    UnknownResource,
}

/// The deadlock detector: the committed resource-allocation graph.
pub struct DeadlockDetector {
    /// Registered process names, in registration order.
    procs: Vec<String>,
    /// Registered resource names, in registration order.
    res_names: Vec<String>,
    /// `holder[j]`: index of the process holding resource `j`, if any.
    holder: Vec<Option<usize>>,
    /// `queues[j]`: FIFO wait queue of resource `j`, as process indices.
    queues: Vec<Vec<usize>>,
}

impl View for DeadlockDetector {
    type V = Rag;

    closed spec fn view(&self) -> Rag {
        Rag {
            procs: self.procs.deep_view(),
            res: self.res_names.deep_view(),
            holder: self.holder.deep_view(),
            queues: self.queues.deep_view(),
        }
    }
}

/// Colour of a node the depth-first search has not touched yet.
pub const WHITE: u8 = 0;

/// Colour of a node currently on the search's stack.
pub const GRAY: u8 = 1;

/// Colour of a node fully explored without finding a cycle.
pub const BLACK: u8 = 2;

/// A colour vector for `n` nodes, holding only the three legal colours.
pub open spec fn colors_ok(c: Seq<u8>, n: int) -> bool {
    c.len() == n && forall|k: int| 0 <= k < c.len() ==> (#[trigger] c[k]) == WHITE || c[k] == GRAY
        || c[k] == BLACK
}

/// The colour of a node, read from the process or the resource vector.
pub open spec fn node_color(pc: Seq<u8>, rc: Seq<u8>, n: Node) -> u8 {
    match n {
        Node::Process(i) => pc[i as int],
        Node::Resource(j) => rc[j as int],
    }
}

/// The node's index is in range for the graph.
pub open spec fn valid_node(g: Rag, n: Node) -> bool {
    match n {
        Node::Process(i) => i < g.procs.len(),
        Node::Resource(j) => j < g.res.len(),
    }
}

/// `s2` is `s1` with some white entries turned black and nothing else
/// changed; in particular both have the same gray entries.
pub open spec fn darkened(s1: Seq<u8>, s2: Seq<u8>) -> bool {
    s1.len() == s2.len() && forall|k: int| 0 <= k < s1.len() ==> (#[trigger] s2[k]) == s1[k] || (
    s1[k] == WHITE && s2[k] == BLACK)
}

/// Number of white entries: the measure that shrinks as the search runs.
pub open spec fn count_white(s: Seq<u8>) -> int
    decreases s.len(),
{
    if s.len() == 0 {
        0
    } else {
        count_white(s.drop_last()) + if s.last() == WHITE {
            1int
        } else {
            0int
        }
    }
}

/// The count of white entries is never negative.
pub proof fn lemma_count_white_nonneg(s: Seq<u8>)
    ensures
        count_white(s) >= 0,
    decreases s.len(),
{
    if s.len() > 0 {
        lemma_count_white_nonneg(s.drop_last());
    }
}

/// Darkening entries can only lower the count of white ones.
pub proof fn lemma_count_white_le(s1: Seq<u8>, s2: Seq<u8>)
    requires
        darkened(s1, s2),
    ensures
        count_white(s2) <= count_white(s1),
    decreases s1.len(),
{
    if s1.len() > 0 {
        assert(darkened(s1.drop_last(), s2.drop_last()));
        lemma_count_white_le(s1.drop_last(), s2.drop_last());
    }
}

/// Recolouring one white entry lowers the count of white ones by one.
pub proof fn lemma_count_white_update(s: Seq<u8>, k: int, v: u8)
    requires
        0 <= k < s.len(),
        s[k] == WHITE,
        v != WHITE,
    ensures
        count_white(s.update(k, v)) == count_white(s) - 1,
    decreases s.len(),
{
    let s2 = s.update(k, v);
    if k == s.len() - 1 {
        assert(s2.drop_last() =~= s.drop_last());
        assert(s2.last() == v);
    } else {
        assert(s2.drop_last() =~= s.drop_last().update(k, v));
        lemma_count_white_update(s.drop_last(), k, v);
        assert(s2.last() == s.last());
    }
}

/// Darkening steps compose.
pub proof fn lemma_darkened_trans(s1: Seq<u8>, s2: Seq<u8>, s3: Seq<u8>)
    requires
        darkened(s1, s2),
        darkened(s2, s3),
    ensures
        darkened(s1, s3),
{
}

/// The deep view of a vector of indices is its view.
pub proof fn lemma_indices_deep_view(q: Vec<usize>)
    ensures
        q.deep_view() == q@,
{
    assert(q.deep_view() =~= q@);
}

/// The deep view of a holder vector is its view.
pub proof fn lemma_holder_deep_view(h: Vec<Option<usize>>)
    ensures
        h.deep_view() == h@,
{
    assert forall|k: int| 0 <= k < h@.len() implies h.deep_view()[k] == h@[k] by {
        match h@[k] {
            Some(_) => {},
            None => {},
        }
    }
    assert(h.deep_view() =~= h@);
}

/// Each queue in the deep view is the view of the stored vector.
pub proof fn lemma_queues_deep_view(qs: Vec<Vec<usize>>)
    ensures
        qs.deep_view().len() == qs@.len(),
        forall|j: int| 0 <= j < qs@.len() ==> #[trigger] qs.deep_view()[j] == qs@[j]@,
{
    assert forall|j: int| 0 <= j < qs@.len() implies #[trigger] qs.deep_view()[j] == qs@[j]@ by {
        lemma_indices_deep_view(qs@[j]);
    }
}

/// What removing one entry does to a sequence, entry by entry.
pub proof fn lemma_remove_facts(s: Seq<usize>, k: int)
    requires
        0 <= k < s.len(),
    ensures
        s.remove(k).len() == s.len() - 1,
        forall|t: int| 0 <= t < k ==> #[trigger] s.remove(k)[t] == s[t],
        forall|t: int| k <= t < s.len() - 1 ==> #[trigger] s.remove(k)[t] == s[t + 1],
        forall|x: usize| #[trigger] s.remove(k).contains(x) ==> s.contains(x),
{
    s.remove_ensures(k);
    assert forall|x: usize| #[trigger] s.remove(k).contains(x) implies s.contains(x) by {
        let t = choose|t: int| 0 <= t < s.remove(k).len() && s.remove(k)[t] == x;
        if t < k {
            assert(s[t] == x);
        } else {
            assert(s[t + 1] == x);
        }
    }
}

/// The first occurrence found by a scan is the one the model's
/// `remove_value` removes.
pub proof fn lemma_first_occurrence(s: Seq<usize>, x: usize, k: int)
    requires
        0 <= k < s.len(),
        s[k] == x,
        forall|t: int| 0 <= t < k ==> s[t] != x,
    ensures
        s.index_of_first(x) == Some(k),
{
    assert(s.contains(x));
    s.index_of_first_ensures(x);
    let idx = s.index_of_first(x);
    match idx {
        Some(i) => {
            if i < k {
                assert(s[i] != x);
            } else if i > k {
                assert(s[k] != x);
            }
        },
        None => {},
    }
}

/// In a sequence of pairwise-distinct names, an index holding the name is
/// the index the model's lookup denotes.
pub proof fn lemma_idx_unique(s: Seq<Seq<char>>, n: Seq<char>, i: int)
    requires
        forall|i1: int, i2: int| 0 <= i1 < i2 < s.len() ==> s[i1] != s[i2],
        0 <= i < s.len(),
        s[i] == n,
    ensures
        s.contains(n),
        s.index_of(n) == i,
{
    assert(s.contains(n));
    let k = s.index_of(n);
    assert(0 <= k < s.len() && s[k] == n);
    if k < i {
        assert(s[k] != s[i]);
    } else if k > i {
        assert(s[i] != s[k]);
    }
}

/// String equality, decided through `String`'s specified `eq`.
fn str_eq(a: &String, b: &String) -> (r: bool)
    ensures
        r == (a@ == b@),
{
    a.eq(b)
}

/// First index holding `name`, or `None` if the name is absent.
fn find_name(v: &Vec<String>, name: &str) -> (r: Option<usize>)
    ensures
        match r {
            Some(i) => i < v.len() && v.deep_view()[i as int] == name@ && forall|k: int|
                0 <= k < i ==> v.deep_view()[k] != name@,
            None => forall|k: int| 0 <= k < v.len() ==> v.deep_view()[k] != name@,
        },
{
    let needle: String = name.to_owned();
    let n = v.len();
    let mut i: usize = 0;
    while i < n
        invariant
            n == v.len(),
            i <= n,
            needle@ == name@,
            forall|k: int| 0 <= k < i ==> v.deep_view()[k] != name@,
        decreases n - i,
    {
        if str_eq(&v[i], &needle) {
            assert(v.deep_view()[i as int] == name@);
            return Some(i);
        }
        i = i + 1;
    }
    None
}

/// Whether the index `x` occurs in `q`, and where it first does.
fn find_idx(q: &Vec<usize>, x: usize) -> (r: Option<usize>)
    ensures
        match r {
            Some(k) => k < q.len() && q@[k as int] == x && forall|t: int| 0 <= t < k ==> q@[t] != x,
            None => !q@.contains(x),
        },
        r is Some == q@.contains(x),
{
    let n = q.len();
    let mut k: usize = 0;
    while k < n
        invariant
            n == q.len(),
            k <= n,
            forall|t: int| 0 <= t < k ==> q@[t] != x,
        decreases n - k,
    {
        if q[k] == x {
            return Some(k);
        }
        k = k + 1;
    }
    assert(!q@.contains(x));
    None
}

/// A fresh copy of a queue of indices.
fn copy_indices(q: &Vec<usize>) -> (r: Vec<usize>)
    ensures
        r@ == q@,
{
    let n = q.len();
    let mut r: Vec<usize> = Vec::new();
    let mut k: usize = 0;
    while k < n
        invariant
            n == q.len(),
            k <= n,
            r@ =~= q@.subrange(0, k as int),
        decreases n - k,
    {
        r.push(q[k]);
        k = k + 1;
    }
    assert(r@ =~= q@);
    r
}

impl DeadlockDetector {
    /// A detector with no node registered: the empty graph.
    pub fn new() -> (d: DeadlockDetector)
        ensures
            d@ == crate::empty_rag(),
            wf(d@),
    {
        let d = DeadlockDetector {
            procs: Vec::new(),
            res_names: Vec::new(),
            holder: Vec::new(),
            queues: Vec::new(),
        };
        proof {
            assert(d@ =~~= crate::empty_rag());
            assert(forall|a: Node, b: Node| !edge(d@, a, b));
            lemma_no_edge_acyclic(d@);
        }
        d
    }

    /// Register a process.  Registering a name twice is a no-op.
    pub fn add_process(&mut self, name: &str)
        requires
            wf(old(self)@),
        ensures
            final(self)@ == spec_add_process(old(self)@, name@),
            wf(final(self)@),
            registered_proc(final(self)@, name@),
    {
        let found = find_name(&self.procs, name);
        match found {
            Some(i) => {
                proof {
                    lemma_idx_unique(old(self)@.procs, name@, i as int);
                }
            },
            None => {
                proof {
                    assert(!old(self)@.procs.contains(name@));
                }
                let s: String = name.to_owned();
                self.procs.push(s);
                proof {
                    let g0 = old(self)@;
                    assert(self@.procs =~= g0.procs.push(name@));
                    assert(self@ =~~= spec_add_process(g0, name@));
                    assert(forall|a: Node, b: Node| edge(self@, a, b) ==> edge(g0, a, b));
                    lemma_acyclic_mono(g0, self@);
                    assert(self@.procs.last() == name@);
                    assert(registered_proc(self@, name@));
                }
            },
        }
    }

    /// Register a resource: created free, with an empty wait queue.
    /// Registering a name twice is a no-op.
    pub fn add_resource(&mut self, name: &str)
        requires
            wf(old(self)@),
        ensures
            final(self)@ == spec_add_resource(old(self)@, name@),
            wf(final(self)@),
            registered_res(final(self)@, name@),
    {
        let found = find_name(&self.res_names, name);
        match found {
            Some(i) => {
                proof {
                    lemma_idx_unique(old(self)@.res, name@, i as int);
                }
            },
            None => {
                proof {
                    assert(!old(self)@.res.contains(name@));
                }
                let s: String = name.to_owned();
                self.res_names.push(s);
                self.holder.push(None);
                self.queues.push(Vec::new());
                proof {
                    let g0 = old(self)@;
                    assert(self@.res =~= g0.res.push(name@));
                    assert(self@.holder =~= g0.holder.push(None));
                    assert(self@.queues =~~= g0.queues.push(Seq::empty()));
                    assert(self@ =~~= spec_add_resource(g0, name@));
                    assert forall|a: Node, b: Node| edge(self@, a, b) implies edge(g0, a, b) by {
                        if let Node::Resource(j) = a {
                            assert(self@.holder[j as int] == if j < g0.res.len() {
                                g0.holder[j as int]
                            } else {
                                None
                            });
                        }
                    }
                    lemma_acyclic_mono(g0, self@);
                    assert(self@.res.last() == name@);
                    assert(registered_res(self@, name@));
                }
            },
        }
    }

    /// Every gray node lies on the search's current path: it reaches the
    /// node under visit, and is reachable from the search's start.
    spec fn grays_on_path(g: Rag, pc: Seq<u8>, rc: Seq<u8>, cur: Node, start: Node) -> bool {
        forall|n: Node|
            valid_node(g, n) && #[trigger] node_color(pc, rc, n) == GRAY ==> reaches(g, n, cur)
                && reaches(g, start, n)
    }

    /// Every black node is safe: no circular wait is reachable from it.
    spec fn blacks_safe(g: Rag, pc: Seq<u8>, rc: Seq<u8>) -> bool {
        forall|n: Node|
            valid_node(g, n) && #[trigger] node_color(pc, rc, n) == BLACK ==> !can_reach_cycle(
                g,
                n,
            )
    }

    /// Depth-first search for a circular wait, walking request edges from
    /// processes and assignment edges from resources, so that every step
    /// alternates node kind.  Meeting a gray node closes a cycle; a node
    /// turns black only once everything beyond it is known safe.
    fn dfs(&self, node: Node, pc: &mut Vec<u8>, rc: &mut Vec<u8>, start: Ghost<Node>) -> (found:
        bool)
        requires
            wf_basic(self@),
            valid_node(self@, node),
            colors_ok(old(pc)@, self@.procs.len() as int),
            colors_ok(old(rc)@, self@.res.len() as int),
            node_color(old(pc)@, old(rc)@, node) == WHITE,
            reaches(self@, start@, node),
            Self::grays_on_path(self@, old(pc)@, old(rc)@, node, start@),
            Self::blacks_safe(self@, old(pc)@, old(rc)@),
        ensures
            found ==> can_reach_cycle(self@, start@),
            !found ==> colors_ok(final(pc)@, self@.procs.len() as int) && colors_ok(
                final(rc)@,
                self@.res.len() as int,
            ),
            !found ==> darkened(old(pc)@, final(pc)@) && darkened(old(rc)@, final(rc)@),
            !found ==> node_color(final(pc)@, final(rc)@, node) == BLACK,
            !found ==> Self::blacks_safe(self@, final(pc)@, final(rc)@),
        decreases count_white(pc@) + count_white(rc@),
    {
        let ghost g = self@;
        proof {
            lemma_count_white_nonneg(old(pc)@);
            lemma_count_white_nonneg(old(rc)@);
        }
        match node {
            Node::Process(i) => {
                pc.set(i, GRAY);
                proof {
                    lemma_count_white_update(old(pc)@, i as int, GRAY);
                    lemma_reaches_refl(g, Node::Process(i));
                    assert(Self::grays_on_path(g, pc@, rc@, Node::Process(i), start@)) by {
                        assert forall|n: Node|
                            valid_node(g, n) && #[trigger] node_color(pc@, rc@, n)
                                == GRAY implies reaches(g, n, Node::Process(i)) && reaches(
                            g,
                            start@,
                            n,
                        ) by {
                            if n != Node::Process(i) {
                                assert(node_color(old(pc)@, old(rc)@, n) == GRAY);
                            }
                        }
                    }
                    assert(Self::blacks_safe(g, pc@, rc@)) by {
                        assert forall|n: Node|
                            valid_node(g, n) && #[trigger] node_color(pc@, rc@, n)
                                == BLACK implies !can_reach_cycle(g, n) by {
                            assert(node_color(old(pc)@, old(rc)@, n) == BLACK);
                        }
                    }
                }
                let n_res = self.queues.len();
                let mut j: usize = 0;
                while j < n_res
                    invariant
                        g == self@,
                        wf_basic(g),
                        i < g.procs.len(),
                        n_res == g.queues.len(),
                        j <= n_res,
                        colors_ok(pc@, g.procs.len() as int),
                        colors_ok(rc@, g.res.len() as int),
                        pc@[i as int] == GRAY,
                        darkened(old(pc)@.update(i as int, GRAY), pc@),
                        darkened(old(rc)@, rc@),
                        reaches(g, start@, Node::Process(i)),
                        Self::grays_on_path(g, pc@, rc@, Node::Process(i), start@),
                        Self::blacks_safe(g, pc@, rc@),
                        forall|jj: int|
                            0 <= jj < j && g.queues[jj].contains(i) ==> #[trigger] rc@[jj]
                                == BLACK,
                        count_white(pc@) + count_white(rc@) < count_white(old(pc)@) + count_white(
                            old(rc)@,
                        ),
                    decreases n_res - j,
                {
                    let waits = find_idx(&self.queues[j], i).is_some();
                    proof {
                        lemma_indices_deep_view(self.queues@[j as int]);
                        assert(g.queues[j as int] == self.queues@[j as int]@);
                        assert(waits == g.queues[j as int].contains(i));
                    }
                    if waits {
                        let ghost rn = Node::Resource(j as usize);
                        proof {
                            assert(edge(g, Node::Process(i), rn));
                            assert(valid_node(g, rn));
                        }
                        let c = rc[j];
                        if c == GRAY {
                            proof {
                                assert(node_color(pc@, rc@, rn) == GRAY);
                                lemma_cycle_close(g, rn, Node::Process(i));
                                assert(reaches(g, start@, rn) && crate::model::on_cycle(g, rn));
                                assert(can_reach_cycle(g, start@));
                            }
                            return true;
                        }
                        if c == WHITE {
                            proof {
                                lemma_reaches_extend(g, start@, Node::Process(i), rn);
                                assert(Self::grays_on_path(g, pc@, rc@, rn, start@)) by {
                                    assert forall|n: Node|
                                        valid_node(g, n) && #[trigger] node_color(pc@, rc@, n)
                                            == GRAY implies reaches(g, n, rn) && reaches(
                                        g,
                                        start@,
                                        n,
                                    ) by {
                                        lemma_reaches_extend(g, n, Node::Process(i), rn);
                                    }
                                }
                                lemma_count_white_nonneg(pc@);
                                lemma_count_white_nonneg(rc@);
                            }
                            let ghost pcb = pc@;
                            let ghost rcb = rc@;
                            let found = self.dfs(Node::Resource(j), pc, rc, start);
                            if found {
                                return true;
                            }
                            proof {
                                lemma_darkened_trans(old(pc)@.update(i as int, GRAY), pcb, pc@);
                                lemma_darkened_trans(old(rc)@, rcb, rc@);
                                lemma_count_white_le(pcb, pc@);
                                lemma_count_white_le(rcb, rc@);
                                assert(rc@[j as int] == BLACK);
                                assert(Self::grays_on_path(g, pc@, rc@, Node::Process(i), start@))
                                    by {
                                    assert forall|n: Node|
                                        valid_node(g, n) && #[trigger] node_color(pc@, rc@, n)
                                            == GRAY implies reaches(g, n, Node::Process(i))
                                        && reaches(g, start@, n) by {
                                        assert(node_color(pcb, rcb, n) == GRAY);
                                    }
                                }
                            }
                        }
                    }
                    j = j + 1;
                }
                proof {
                    assert forall|s: Node| edge(g, Node::Process(i), s) implies !can_reach_cycle(
                        g,
                        s,
                    ) by {
                        match s {
                            Node::Resource(jj) => {
                                assert(g.queues[jj as int].contains(i));
                                assert(rc@[jj as int] == BLACK);
                                assert(node_color(pc@, rc@, s) == BLACK);
                            },
                            Node::Process(_) => {
                                assert(!edge(g, Node::Process(i), s));
                            },
                        }
                    }
                    lemma_safe_closure(g, Node::Process(i));
                }
                let ghost pce = pc@;
                pc.set(i, BLACK);
                proof {
                    assert(darkened(old(pc)@, pc@));
                    assert(node_color(pc@, rc@, Node::Process(i)) == BLACK);
                    assert(Self::blacks_safe(g, pc@, rc@)) by {
                        assert forall|n: Node|
                            valid_node(g, n) && #[trigger] node_color(pc@, rc@, n)
                                == BLACK implies !can_reach_cycle(g, n) by {
                            if n != Node::Process(i) {
                                assert(node_color(pce, rc@, n) == BLACK);
                            }
                        }
                    }
                }
                false
            },
            Node::Resource(j) => {
                rc.set(j, GRAY);
                proof {
                    lemma_count_white_update(old(rc)@, j as int, GRAY);
                    lemma_reaches_refl(g, Node::Resource(j));
                    assert(Self::blacks_safe(g, pc@, rc@)) by {
                        assert forall|n: Node|
                            valid_node(g, n) && #[trigger] node_color(pc@, rc@, n)
                                == BLACK implies !can_reach_cycle(g, n) by {
                            assert(node_color(old(pc)@, old(rc)@, n) == BLACK);
                        }
                    }
                }
                let h = self.holder[j];
                proof {
                    assert(g.holder[j as int] == h);
                }
                match h {
                    None => {
                        proof {
                            assert forall|s: Node| edge(
                                g,
                                Node::Resource(j),
                                s,
                            ) implies !can_reach_cycle(g, s) by {
                                assert(g.holder[j as int] is None);
                            }
                            lemma_safe_closure(g, Node::Resource(j));
                        }
                    },
                    Some(i2) => {
                        let ghost pn = Node::Process(i2);
                        proof {
                            assert(edge(g, Node::Resource(j), pn));
                            assert(i2 < g.procs.len());
                        }
                        let c = pc[i2];
                        if c == GRAY {
                            proof {
                                assert(node_color(old(pc)@, old(rc)@, pn) == GRAY);
                                lemma_cycle_close(g, pn, Node::Resource(j));
                                assert(reaches(g, start@, pn) && crate::model::on_cycle(g, pn));
                                assert(can_reach_cycle(g, start@));
                            }
                            return true;
                        }
                        if c == WHITE {
                            proof {
                                lemma_reaches_extend(g, start@, Node::Resource(j), pn);
                                assert(Self::grays_on_path(g, pc@, rc@, pn, start@)) by {
                                    assert forall|n: Node|
                                        valid_node(g, n) && #[trigger] node_color(pc@, rc@, n)
                                            == GRAY implies reaches(g, n, pn) && reaches(
                                        g,
                                        start@,
                                        n,
                                    ) by {
                                        if n == Node::Resource(j) {
                                            lemma_reaches_refl(g, n);
                                            lemma_reaches_extend(g, n, Node::Resource(j), pn);
                                        } else {
                                            assert(node_color(old(pc)@, old(rc)@, n) == GRAY);
                                            lemma_reaches_extend(g, n, Node::Resource(j), pn);
                                        }
                                    }
                                }
                                lemma_count_white_nonneg(pc@);
                                lemma_count_white_nonneg(rc@);
                            }
                            let ghost pcb = pc@;
                            let ghost rcb = rc@;
                            let r = self.dfs(Node::Process(i2), pc, rc, start);
                            if r {
                                return true;
                            }
                            proof {
                                lemma_darkened_trans(old(rc)@.update(j as int, GRAY), rcb, rc@);
                                lemma_darkened_trans(old(pc)@, pcb, pc@);
                                assert(pc@[i2 as int] == BLACK);
                            }
                        } else {
                            proof {
                                assert(pc@[i2 as int] == BLACK);
                                assert(Self::blacks_safe(g, pc@, rc@));
                            }
                        }
                        proof {
                            assert(pc@[i2 as int] == BLACK);
                            assert forall|s: Node| edge(
                                g,
                                Node::Resource(j),
                                s,
                            ) implies !can_reach_cycle(g, s) by {
                                assert(s == pn);
                                assert(node_color(pc@, rc@, s) == BLACK);
                            }
                            lemma_safe_closure(g, Node::Resource(j));
                        }
                    },
                }
                let ghost pce = pc@;
                let ghost rce = rc@;
                rc.set(j, BLACK);
                proof {
                    assert(darkened(old(rc)@, rc@));
                    assert(darkened(old(pc)@, pc@));
                    assert(node_color(pc@, rc@, Node::Resource(j)) == BLACK);
                    assert(Self::blacks_safe(g, pc@, rc@)) by {
                        assert forall|n: Node|
                            valid_node(g, n) && #[trigger] node_color(pc@, rc@, n)
                                == BLACK implies !can_reach_cycle(g, n) by {
                            if n != Node::Resource(j) {
                                assert(node_color(pce, rce, n) == BLACK);
                            }
                        }
                    }
                }
                false
            },
        }
    }
    /// A colour vector with every entry white.
    fn make_colors(n: usize) -> (v: Vec<u8>)
        ensures
            v@.len() == n,
            forall|k: int| 0 <= k < n ==> v@[k] == WHITE,
    {
        let mut v: Vec<u8> = Vec::new();
        let mut k: usize = 0;
        while k < n
            invariant
                k <= n,
                v@.len() == k,
                forall|t: int| 0 <= t < k ==> v@[t] == WHITE,
            decreases n - k,
        {
            v.push(WHITE);
            k = k + 1;
        }
        v
    }

    /// Whether a circular wait is reachable from the given process, with
    /// fresh marks: nothing is cached between calls.
    fn cycle_from(&self, ip: usize) -> (r: bool)
        requires
            wf_basic(self@),
            ip < self@.procs.len(),
        ensures
            r == can_reach_cycle(self@, Node::Process(ip)),
    {
        let mut pc = Self::make_colors(self.procs.len());
        let mut rc = Self::make_colors(self.res_names.len());
        proof {
            lemma_reaches_refl(self@, Node::Process(ip));
            assert(colors_ok(pc@, self@.procs.len() as int));
            assert(colors_ok(rc@, self@.res.len() as int));
        }
        let found = self.dfs(Node::Process(ip), &mut pc, &mut rc, Ghost(Node::Process(ip)));
        proof {
            if !found {
                assert(node_color(pc@, rc@, Node::Process(ip)) == BLACK);
            }
        }
        found
    }

    /// Whether a circular wait is reachable from the named process.  On a
    /// committed state the answer is `false` — the detector never leaves a
    /// circular wait committed — so this is chiefly of use to callers as a
    /// sanity check, and to the protocol calls on their tentative states.
    /// An unregistered name reaches nothing, so the answer for it is
    /// `false`.
    pub fn can_deadlock(&self, start: &str) -> (r: bool)
        requires
            wf_basic(self@),
        ensures
            registered_proc(self@, start@) ==> r == can_reach_cycle(
                self@,
                Node::Process(proc_idx(self@, start@) as usize),
            ),
            !registered_proc(self@, start@) ==> r == false,
    {
        let found = find_name(&self.procs, start);
        match found {
            None => {
                proof {
                    if registered_proc(self@, start@) {
                        let k = choose|k: int|
                            0 <= k < self@.procs.len() && self@.procs[k] == start@;
                        assert(self@.procs[k] != start@);
                    }
                }
                false
            },
            Some(i) => {
                proof {
                    lemma_idx_unique(self@.procs, start@, i as int);
                }
                self.cycle_from(i)
            },
        }
    }

    /// The admission protocol.  `Ok(true)` means granted (resource was
    /// free) or safely queued; `Ok(false)` means refused, with the graph
    /// exactly as it was before the call; an unregistered name is a
    /// distinct error, the process checked first.
    pub fn request(&mut self, process: &str, resource: &str) -> (r: Result<bool, RagError>)
        requires
            wf(old(self)@),
        ensures
            wf(final(self)@),
            match r {
                Ok(b) => registered_proc(old(self)@, process@) && registered_res(
                    old(self)@,
                    resource@,
                ) && final(self)@ == crate::model::spec_request(
                    old(self)@,
                    process@,
                    resource@,
                ).0 && b == crate::model::spec_request(old(self)@, process@, resource@).1,
                Err(RagError::UnknownProcess) => !registered_proc(old(self)@, process@)
                    && final(self)@ == old(self)@,
                Err(RagError::UnknownResource) => registered_proc(old(self)@, process@)
                    && !registered_res(old(self)@, resource@) && final(self)@ == old(self)@,
            },
    {
        let ghost g0 = self@;
        let ip = match find_name(&self.procs, process) {
            None => {
                proof {
                    if registered_proc(g0, process@) {
                        let k = choose|k: int| 0 <= k < g0.procs.len() && g0.procs[k] == process@;
                        assert(g0.procs[k] != process@);
                    }
                }
                return Err(RagError::UnknownProcess);
            },
            Some(i) => i,
        };
        proof {
            lemma_idx_unique(g0.procs, process@, ip as int);
        }
        let jr = match find_name(&self.res_names, resource) {
            None => {
                proof {
                    if registered_res(g0, resource@) {
                        let k = choose|k: int| 0 <= k < g0.res.len() && g0.res[k] == resource@;
                        assert(g0.res[k] != resource@);
                    }
                }
                return Err(RagError::UnknownResource);
            },
            Some(j) => j,
        };
        proof {
            lemma_idx_unique(g0.res, resource@, jr as int);
            lemma_holder_deep_view(self.holder);
            lemma_queues_deep_view(self.queues);
        }
        let free = self.holder[jr].is_none();
        if free {
            // Tentative immediate grant: assignment edge resource -> process.
            self.holder.set(jr, Some(ip));
            let ghost g2 = Rag { holder: g0.holder.update(jr as int, Some(ip)), ..g0 };
            proof {
                lemma_holder_deep_view(self.holder);
                assert(self@ =~~= g2);
                assert(wf_basic(g2));
            }
            let cyc = self.cycle_from(ip);
            if cyc {
                self.holder.set(jr, None);
                proof {
                    lemma_holder_deep_view(self.holder);
                    assert(g2.holder.update(jr as int, None) =~= g0.holder);
                    assert(self@ =~~= g0);
                }
                Ok(false)
            } else {
                proof {
                    assert forall|a: Node, b: Node| edge(g2, a, b) implies edge(g0, a, b) || (a
                        == Node::Resource(jr as usize) && b == Node::Process(ip)) by {
                        if let Node::Resource(j2) = a {
                            if j2 != jr {
                                assert(g2.holder[j2 as int] == g0.holder[j2 as int]);
                            }
                        }
                    }
                    lemma_new_edge_acyclic(
                        g0,
                        g2,
                        Node::Resource(jr as usize),
                        Node::Process(ip),
                    );
                }
                Ok(true)
            }
        } else {
            let dup = find_idx(&self.queues[jr], ip).is_some();
            proof {
                assert(g0.queues[jr as int] == self.queues@[jr as int]@);
            }
            if dup {
                return Ok(false);
            }
            // Tentative request edge: enqueue the process on the wait queue.
            let mut q = copy_indices(&self.queues[jr]);
            q.push(ip);
            self.queues.set(jr, q);
            let ghost g2 = Rag {
                queues: g0.queues.update(jr as int, g0.queues[jr as int].push(ip)),
                ..g0
            };
            proof {
                lemma_queues_deep_view(self.queues);
                assert(self@.queues =~~= g2.queues);
                assert(self@ =~~= g2);
                assert(wf_basic(g2)) by {
                    assert(forall|t: int|
                        0 <= t < g0.queues[jr as int].len() ==> #[trigger] g0.queues[jr as int][t]
                            != ip);
                }
            }
            let cyc = self.cycle_from(ip);
            if cyc {
                let mut q2 = copy_indices(&self.queues[jr]);
                q2.pop();
                self.queues.set(jr, q2);
                proof {
                    lemma_queues_deep_view(self.queues);
                    assert(g0.queues[jr as int].push(ip).drop_last() =~= g0.queues[jr as int]);
                    assert(self@.queues =~~= g0.queues);
                    assert(self@ =~~= g0);
                }
                Ok(false)
            } else {
                proof {
                    assert forall|a: Node, b: Node| edge(g2, a, b) implies edge(g0, a, b) || (a
                        == Node::Process(ip) && b == Node::Resource(jr as usize)) by {
                        if let Node::Process(i2) = a {
                            if let Node::Resource(j2) = b {
                                if j2 != jr {
                                    assert(g2.queues[j2 as int] == g0.queues[j2 as int]);
                                } else if i2 != ip {
                                    assert(g2.queues[jr as int]
                                        == g0.queues[jr as int].push(ip));
                                    let t = choose|t: int|
                                        0 <= t < g2.queues[jr as int].len() && g2.queues[jr as int][t]
                                            == i2;
                                    assert(g0.queues[jr as int][t] == i2);
                                }
                            }
                        }
                    }
                    lemma_new_edge_acyclic(
                        g0,
                        g2,
                        Node::Process(ip),
                        Node::Resource(jr as usize),
                    );
                }
                Ok(true)
            }
        }
    }

    /// The release protocol.  The named process gives the resource up; a
    /// waiter may be granted it in turn, under FIFO order when `next_process`
    /// names the expected waiter.  An unregistered name is a distinct
    /// error, the process checked first; a caller that does not hold the
    /// resource changes nothing and is told `Ok(false)`.
    pub fn release(&mut self, process: &str, resource: &str, next_process: Option<&str>) -> (r:
        Result<bool, RagError>)
        requires
            wf(old(self)@),
        ensures
            wf(final(self)@),
            match r {
                Ok(b) => registered_proc(old(self)@, process@) && registered_res(
                    old(self)@,
                    resource@,
                ) && final(self)@ == crate::model::spec_release(
                    old(self)@,
                    process@,
                    resource@,
                    next_process.deep_view(),
                ).0 && b == crate::model::spec_release(
                    old(self)@,
                    process@,
                    resource@,
                    next_process.deep_view(),
                ).1,
                Err(RagError::UnknownProcess) => !registered_proc(old(self)@, process@)
                    && final(self)@ == old(self)@,
                Err(RagError::UnknownResource) => registered_proc(old(self)@, process@)
                    && !registered_res(old(self)@, resource@) && final(self)@ == old(self)@,
            },
    {
        let ghost g0 = self@;
        let ghost nv = next_process.deep_view();
        let ip = match find_name(&self.procs, process) {
            None => {
                proof {
                    if registered_proc(g0, process@) {
                        let k = choose|k: int| 0 <= k < g0.procs.len() && g0.procs[k] == process@;
                        assert(g0.procs[k] != process@);
                    }
                }
                return Err(RagError::UnknownProcess);
            },
            Some(i) => i,
        };
        proof {
            lemma_idx_unique(g0.procs, process@, ip as int);
        }
        let jr = match find_name(&self.res_names, resource) {
            None => {
                proof {
                    if registered_res(g0, resource@) {
                        let k = choose|k: int| 0 <= k < g0.res.len() && g0.res[k] == resource@;
                        assert(g0.res[k] != resource@);
                    }
                }
                return Err(RagError::UnknownResource);
            },
            Some(j) => j,
        };
        proof {
            lemma_idx_unique(g0.res, resource@, jr as int);
            lemma_holder_deep_view(self.holder);
            lemma_queues_deep_view(self.queues);
        }
        let holds = match self.holder[jr] {
            Some(hh) => hh == ip,
            None => false,
        };
        proof {
            assert(holds == (g0.holder[jr as int] == Some(ip)));
        }
        if !holds {
            return Ok(false);
        }
        // Step 1: drop the assignment edge, and any stale request edge the
        // releasing process still has on this resource.
        self.holder.set(jr, None);
        let stale = find_idx(&self.queues[jr], ip);
        proof {
            assert(g0.queues[jr as int] == self.queues@[jr as int]@);
        }
        match stale {
            Some(k) => {
                let mut q = copy_indices(&self.queues[jr]);
                q.remove(k);
                self.queues.set(jr, q);
                proof {
                    lemma_first_occurrence(g0.queues[jr as int], ip, k as int);
                    assert(g0.queues[jr as int].remove_value(ip) == g0.queues[jr as int].remove(
                        k as int,
                    ));
                }
            },
            None => {
                proof {
                    assert(g0.queues[jr as int].remove_value(ip) == g0.queues[jr as int]) by {
                        g0.queues[jr as int].index_of_first_ensures(ip);
                    }
                }
            },
        }
        let ghost g1 = crate::model::release_cleanup(g0, ip, jr as int);
        proof {
            lemma_holder_deep_view(self.holder);
            lemma_queues_deep_view(self.queues);
            if g0.queues[jr as int].contains(ip) {
                let k = choose|k: int|
                    0 <= k < g0.queues[jr as int].len() && g0.queues[jr as int][k] == ip
                        && forall|t: int| 0 <= t < k ==> g0.queues[jr as int][t] != ip;
                lemma_remove_facts(g0.queues[jr as int], k);
            }
            assert(self@.queues =~~= g1.queues);
            assert(self@ =~~= g1);
            assert(wf_basic(g1)) by {
                let q0 = g0.queues[jr as int];
                let q1 = g1.queues[jr as int];
                assert forall|t1: int, t2: int| 0 <= t1 < t2 < q1.len() implies q1[t1]
                    != q1[t2] by {
                    if q0.contains(ip) {
                        let k = q0.index_of_first(ip)->0;
                        q0.index_of_first_ensures(ip);
                        lemma_remove_facts(q0, k);
                    }
                }
                assert forall|t: int| 0 <= t < q1.len() implies q1[t] < g1.procs.len() by {
                    if q0.contains(ip) {
                        let k = q0.index_of_first(ip)->0;
                        q0.index_of_first_ensures(ip);
                        lemma_remove_facts(q0, k);
                    }
                }
            }
            assert forall|a: Node, b: Node| edge(g1, a, b) implies edge(g0, a, b) by {
                if let Node::Process(i2) = a {
                    if let Node::Resource(j2) = b {
                        if j2 == jr && g0.queues[jr as int].contains(ip) {
                            let k = g0.queues[jr as int].index_of_first(ip)->0;
                            g0.queues[jr as int].index_of_first_ensures(ip);
                            lemma_remove_facts(g0.queues[jr as int], k);
                        }
                    }
                }
            }
            lemma_acyclic_mono(g0, g1);
        }
        let granting = match next_process {
            None => self.queues[jr].len() > 0,
            Some(nref) => {
                if self.queues[jr].len() > 0 {
                    let h = self.queues[jr][0];
                    proof {
                        assert(g1.queues[jr as int][0] == h);
                        assert(h < g1.procs.len());
                    }
                    let next_s: String = nref.to_owned();
                    str_eq(&self.procs[h], &next_s)
                } else {
                    false
                }
            },
        };
        proof {
            match nv {
                Some(n) => {
                    assert(granting == (g1.queues[jr as int].len() > 0 && g1.procs[g1.queues[jr as int][0] as int]
                        == n));
                },
                None => {
                    assert(granting == (g1.queues[jr as int].len() > 0));
                },
            }
        }
        if !granting {
            let r = match next_process {
                None => true,
                Some(_) => false,
            };
            return Ok(r);
        }
        // Grant to the head of the wait queue: dequeue it (its request
        // edge goes with it) and add the assignment edge.
        let h = self.queues[jr][0];
        proof {
            assert(g1.queues[jr as int][0] == h);
            assert(h < g1.procs.len());
        }
        let mut q = copy_indices(&self.queues[jr]);
        q.remove(0);
        self.queues.set(jr, q);
        self.holder.set(jr, Some(h));
        let ghost g2 = crate::model::release_grant(g1, jr as int);
        proof {
            lemma_holder_deep_view(self.holder);
            lemma_queues_deep_view(self.queues);
            assert(g1.queues[jr as int].remove(0) =~= g1.queues[jr as int].drop_first());
            assert(self@.queues =~~= g2.queues);
            assert(self@ =~~= g2);
            assert(wf_basic(g2));
        }
        let cyc = self.cycle_from(h);
        if cyc {
            // The grant would put a circular wait within the new holder's
            // reach: roll it back, leaving the waiter at the queue head and
            // the resource free.
            self.holder.set(jr, None);
            let mut q2 = copy_indices(&self.queues[jr]);
            q2.insert(0, h);
            self.queues.set(jr, q2);
            proof {
                lemma_holder_deep_view(self.holder);
                lemma_queues_deep_view(self.queues);
                assert(g2.queues[jr as int].insert(0, h) =~= g1.queues[jr as int]);
                assert(self@.queues =~~= g1.queues);
                assert(g2.holder.update(jr as int, None) =~= g1.holder);
                assert(self@ =~~= g1);
            }
            let r = match next_process {
                None => true,
                Some(_) => false,
            };
            Ok(r)
        } else {
            proof {
                assert forall|a: Node, b: Node| edge(g2, a, b) implies edge(g1, a, b) || (a
                    == Node::Resource(jr as usize) && b == Node::Process(h)) by {
                    if let Node::Process(i2) = a {
                        if let Node::Resource(j2) = b {
                            if j2 == jr {
                                let t = choose|t: int|
                                    0 <= t < g2.queues[jr as int].len() && g2.queues[jr as int][t]
                                        == i2;
                                assert(g1.queues[jr as int][t + 1] == i2);
                            }
                        }
                    }
                }
                lemma_new_edge_acyclic(g1, g2, Node::Resource(jr as usize), Node::Process(h));
            }
            Ok(true)
        }
    }

    /// The process currently holding the resource, if the resource is
    /// registered and held.
    pub fn holder_of(&self, resource: &str) -> (r: Option<String>)
        requires
            wf_basic(self@),
        ensures
            match r {
                Some(p) => registered_res(self@, resource@) && self@.holder[res_idx(
                    self@,
                    resource@,
                )] is Some && p@ == self@.procs[self@.holder[res_idx(self@, resource@)]->0 as int],
                None => !registered_res(self@, resource@) || self@.holder[res_idx(
                    self@,
                    resource@,
                )] is None,
            },
    {
        let found = find_name(&self.res_names, resource);
        match found {
            None => {
                proof {
                    if registered_res(self@, resource@) {
                        let k = choose|k: int| 0 <= k < self@.res.len() && self@.res[k] == resource@;
                        assert(self@.res[k] != resource@);
                    }
                }
                None
            },
            Some(j) => {
                proof {
                    lemma_idx_unique(self@.res, resource@, j as int);
                    lemma_holder_deep_view(self.holder);
                }
                match self.holder[j] {
                    None => None,
                    Some(h) => {
                        proof {
                            assert(self@.holder[j as int] == Some(h));
                            assert(h < self@.procs.len());
                        }
                        let p = self.procs[h].clone();
                        Some(p)
                    },
                }
            },
        }
    }

    /// The names waiting for the resource, oldest request first; empty for
    /// an unregistered resource.
    pub fn waiters_of(&self, resource: &str) -> (r: Vec<String>)
        requires
            wf_basic(self@),
        ensures
            !registered_res(self@, resource@) ==> r@.len() == 0,
            registered_res(self@, resource@) ==> ({
                let q = self@.queues[res_idx(self@, resource@)];
                r.deep_view().len() == q.len() && forall|k: int|
                    0 <= k < q.len() ==> r.deep_view()[k] == self@.procs[q[k] as int]
            }),
    {
        let found = find_name(&self.res_names, resource);
        match found {
            None => {
                proof {
                    if registered_res(self@, resource@) {
                        let k = choose|k: int| 0 <= k < self@.res.len() && self@.res[k] == resource@;
                        assert(self@.res[k] != resource@);
                    }
                }
                Vec::new()
            },
            Some(j) => {
                proof {
                    lemma_idx_unique(self@.res, resource@, j as int);
                    lemma_queues_deep_view(self.queues);
                }
                let ghost q = self@.queues[j as int];
                let n = self.queues[j].len();
                let mut out: Vec<String> = Vec::new();
                let mut k: usize = 0;
                while k < n
                    invariant
                        wf_basic(self@),
                        j < self@.res.len(),
                        q == self@.queues[j as int],
                        q == self.queues@[j as int]@,
                        j < self.queues@.len(),
                        n == q.len(),
                        k <= n,
                        out.deep_view().len() == k,
                        forall|t: int|
                            0 <= t < k ==> #[trigger] out.deep_view()[t] == self@.procs[q[t] as int],
                    decreases n - k,
                {
                    let idx = self.queues[j][k];
                    proof {
                        assert(q[k as int] == idx);
                        assert(idx < self@.procs.len());
                    }
                    let ghost before = out.deep_view();
                    let p = self.procs[idx].clone();
                    out.push(p);
                    proof {
                        assert(out.deep_view() =~= before.push(self@.procs[q[k as int] as int]));
                    }
                    k = k + 1;
                }
                out
            },
        }
    }
}

} // verus!
