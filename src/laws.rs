//! Properties that relate several operations of the library, stated over
//! their specifications and proved.
use vstd::prelude::*;
use crate::bitset::{NodeBitset, MAX_NODE_COUNT};
use crate::exact::{low_degree_upto, start_candidates};
use crate::graph::{adj_wf, has_edge};
use crate::path::{is_path, lemma_reverse_path, valid_path};

verus! {

/// In a bitset, setting an id and then clearing it leaves the id absent;
/// setting it alone makes it present; and the count, which is the number of
/// ids held, grows by one exactly when the id was absent.
pub proof fn law_bitset_set_clear(b: NodeBitset, n: int)
    requires
        b.wf(),
        0 <= n < MAX_NODE_COUNT,
    ensures
        !b@.insert(n).remove(n).contains(n),
        b@.insert(n).contains(n),
        b@.insert(n).len() == b@.len() + if b@.contains(n) {
            0int
        } else {
            1int
        },
        b@.remove(n).len() == b@.len() - if b@.contains(n) {
            1int
        } else {
            0int
        },
{
    b.lemma_bounded();
    if b@.contains(n) {
        assert(b@.insert(n) =~= b@);
    } else {
        assert(b@.remove(n) =~= b@);
    }
}

/// Validation depends on the graph and the path alone: two validations of
/// the same path on the same graph agree.
pub proof fn law_validation_repeatable(adj: Seq<Seq<u32>>, p: Seq<u32>, first: bool, second: bool)
    requires
        first == valid_path(adj, p),
        second == valid_path(adj, p),
    ensures
        first == second,
{
}

/// On one graph, a complete exact result (no simple path that begins at a
/// start candidate is longer) is at least as long as any simple path, such as
/// the heuristic result, that has an end among the start candidates; every
/// node is a candidate when fewer than two nodes have degree at most 2.
pub proof fn law_exact_not_shorter(adj: Seq<Seq<u32>>, exact: Seq<u32>, other: Seq<u32>)
    requires
        adj_wf(adj),
        forall|q: Seq<u32>|
            is_path(adj, q) && q.len() >= 1 && start_candidates(adj).contains(q[0]) ==> q.len()
                <= exact.len(),
        is_path(adj, other),
        other.len() >= 1,
        low_degree_upto(adj, adj.len() as int).len() < 2 || start_candidates(adj).contains(other[0])
            || start_candidates(adj).contains(other[other.len() - 1]),
    ensures
        other.len() <= exact.len(),
{
    if start_candidates(adj).contains(other[0]) {
    } else if start_candidates(adj).contains(other[other.len() - 1]) {
        lemma_reverse_path(adj, other);
        assert(other.reverse()[0] == other[other.len() - 1]);
        assert(is_path(adj, other.reverse()));
    } else {
        let c = start_candidates(adj);
        assert((other[0] as int) < adj.len());
        assert(c[other[0] as int] == other[0]);
    }
}

} // verus!
