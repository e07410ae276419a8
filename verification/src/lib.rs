//! A breadth-first search over a link graph of encyclopedia pages, driven by a
//! pool of fetch workers.  The library holds the search orchestration: the
//! frontier of the breadth-first exploration, the visited map of discovery
//! back-pointers, the dispatcher state machine that assigns nodes to workers
//! and collects their results, and the reconstruction of a shortest discovery
//! path.  Network fetching and the user interface live outside the library and
//! interact with it through plain values.

use vstd::prelude::*;

pub mod app_state;
pub mod bench;
pub mod dispatcher;
pub mod frontier;
pub mod links;
pub mod visited;

verus! {

/// A path is trivial when the two endpoints are the same page: the search
/// returns the single-node path at once, without consulting any worker.
pub fn trivial_search(from: &String, to: &String) -> (r: Option<Vec<String>>)
    ensures
        r is Some <==> from@ == to@,
        r is Some ==> r->0@.len() == 1 && r->0@[0]@ == from@,
{
    if *from == *to {
        let mut path: Vec<String> = Vec::new();
        path.push(from.clone());
        Some(path)
    } else {
        None
    }
}

} // verus!
