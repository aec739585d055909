//! A resource-allocation-graph deadlock detector.
//!
//! The detector owns a bipartite directed graph over processes and
//! resources.  A *request edge* (process to resource) means the process is
//! waiting for the resource; an *assignment edge* (resource to process)
//! means the resource is held by that process.  Every admission decision is
//! backed by a depth-first search for a circular wait, so the committed
//! graph is acyclic at all times.

pub mod detector;
pub mod laws;
pub mod model;
pub mod paths;

use vstd::prelude::*;

verus! {

/// The committed graph of a freshly built detector is empty.
pub open spec fn empty_rag() -> model::Rag {
    model::Rag {
        procs: Seq::empty(),
        res: Seq::empty(),
        holder: Seq::empty(),
        queues: Seq::empty(),
    }
}

} // verus!
