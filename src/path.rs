//! Paths over a graph and their validation.
use vstd::prelude::*;
use vstd::set_lib::{lemma_int_range, lemma_len_subset, set_int_range};
use crate::bitset::{NodeBitset, MAX_NODE_COUNT};
use crate::graph::{adj_wf, contains_id, has_edge, Graph};

verus! {

/// Every consecutive pair of `p` is an edge of `adj`.
pub open spec fn consecutive_edges(adj: Seq<Seq<u32>>, p: Seq<u32>) -> bool {
    forall|i: int| 0 <= i < p.len() - 1 ==> #[trigger] has_edge(adj, p[i] as int, p[i + 1] as int)
}

/// What the validator accepts: no node repeats and every consecutive pair is
/// an edge.
pub open spec fn valid_path(adj: Seq<Seq<u32>>, p: Seq<u32>) -> bool {
    p.no_duplicates() && consecutive_edges(adj, p)
}

/// A simple path of `adj`: valid, and every node is a node of the graph.
pub open spec fn is_path(adj: Seq<Seq<u32>>, p: Seq<u32>) -> bool {
    &&& valid_path(adj, p)
    &&& forall|i: int| 0 <= i < p.len() ==> (#[trigger] p[i] as int) < adj.len()
}

/// Checks that `path` repeats no node and that each consecutive pair is an
/// edge of `graph`. Reads its arguments only.
pub fn validate_path(graph: &Graph, path: &Vec<u32>) -> (r: bool)
    requires
        graph.wf(),
    ensures
        r == valid_path(graph.adj(), path@),
{
    let ghost adj = graph.adj();
    if path.len() == 0 {
        return true;
    }
    let mut i: usize = 0;
    while i + 1 < path.len()
        invariant
            i < path.len(),
            adj == graph.adj(),
            graph.wf(),
            forall|k: int| 0 <= k < i ==> #[trigger] has_edge(adj, path@[k] as int, path@[k + 1] as int),
        decreases path.len() - i,
    {
        let nb = graph.get_neighbors(path[i]);
        if !contains_id(&nb, path[i + 1]) {
            assert(!has_edge(adj, path@[i as int] as int, path@[i + 1] as int));
            return false;
        }
        proof {
            let u = path@[i as int] as int;
            let k = choose|k: int| 0 <= k < nb@.len() && nb@[k] == path@[i + 1];
            assert(u < adj.len());
            assert(adj_wf(adj));
            assert(0 <= k < adj[u].len());
            assert((adj[u][k] as int) < adj.len());
        }
        assert(has_edge(adj, path@[i as int] as int, path@[i + 1] as int));
        i = i + 1;
    }
    assert(consecutive_edges(adj, path@));
    if path.len() == 1 {
        return true;
    }
    assert forall|k: int| 0 <= k < path.len() implies (#[trigger] path@[k] as int) < adj.len() by {
        if k < path.len() - 1 {
            assert(has_edge(adj, path@[k] as int, path@[k + 1] as int));
        } else {
            let k1 = k - 1;
            assert(has_edge(adj, path@[k1] as int, path@[k1 + 1] as int));
        }
    }
    let mut seen = NodeBitset::new();
    let mut j: usize = 0;
    while j < path.len()
        invariant
            j <= path.len(),
            seen.wf(),
            adj.len() <= MAX_NODE_COUNT,
            forall|k: int| 0 <= k < path.len() ==> (#[trigger] path@[k] as int) < adj.len(),
            forall|x: int| #[trigger] seen@.contains(x) <==> exists|k: int| 0 <= k < j && path@[k] as int == x,
            forall|a: int, b: int| 0 <= a < b < j ==> path@[a] != path@[b],
        decreases path.len() - j,
    {
        let x = path[j];
        if seen.contains(x) {
            proof {
                let k = choose|k: int| 0 <= k < j && path@[k] as int == x as int;
                assert(path@[k] == path@[j as int]);
            }
            return false;
        }
        seen.set(x);
        assert forall|y: int| #[trigger] seen@.contains(y) <==> exists|k: int| 0 <= k < j + 1 && path@[k] as int == y by {
            if y == x as int {
                assert(path@[j as int] as int == y);
            }
        }
        j = j + 1;
    }
    true
}

/// Checks that `path` is a simple path of `graph`: valid, with every node a
/// node of the graph.
pub fn is_simple_path(graph: &Graph, path: &Vec<u32>) -> (r: bool)
    requires
        graph.wf(),
    ensures
        r == is_path(graph.adj(), path@),
{
    if !validate_path(graph, path) {
        return false;
    }
    let n = graph.node_count();
    let mut i: usize = 0;
    while i < path.len()
        invariant
            i <= path@.len(),
            n == graph.adj().len(),
            forall|k: int| 0 <= k < i ==> (#[trigger] path@[k] as int) < n,
        decreases path.len() - i,
    {
        if path[i] as usize >= n {
            return false;
        }
        i = i + 1;
    }
    true
}

/// A simple path has at most as many nodes as the graph.
pub proof fn lemma_path_len(adj: Seq<Seq<u32>>, p: Seq<u32>)
    requires
        is_path(adj, p),
    ensures
        p.len() <= adj.len(),
{
    let t = p.map_values(|x: u32| x as int);
    assert forall|i: int, j: int| 0 <= i < j < t.len() implies t[i] != t[j] by {
        assert(p[i] != p[j]);
    }
    assert(t.no_duplicates());
    t.unique_seq_to_set();
    lemma_int_range(0, adj.len() as int);
    assert forall|x: int| t.to_set().contains(x) implies set_int_range(0, adj.len() as int).contains(x) by {
        let i = choose|i: int| 0 <= i < t.len() && t[i] == x;
        assert((p[i] as int) < adj.len());
    }
    lemma_len_subset(t.to_set(), set_int_range(0, adj.len() as int));
}

/// A contiguous piece of a simple path is a simple path.
pub proof fn lemma_subpath(adj: Seq<Seq<u32>>, p: Seq<u32>, a: int, b: int)
    requires
        is_path(adj, p),
        0 <= a <= b <= p.len(),
    ensures
        is_path(adj, p.subrange(a, b)),
{
    let s = p.subrange(a, b);
    assert forall|i: int| 0 <= i < s.len() - 1 implies #[trigger] has_edge(
        adj,
        s[i] as int,
        s[i + 1] as int,
    ) by {
        assert(has_edge(adj, p[a + i] as int, p[a + i + 1] as int));
    }
    assert forall|i: int| 0 <= i < s.len() implies (#[trigger] s[i] as int) < adj.len() by {
        assert(s[i] == p[a + i]);
    }
}

/// A simple path read backwards is a simple path.
pub proof fn lemma_reverse_path(adj: Seq<Seq<u32>>, p: Seq<u32>)
    requires
        adj_wf(adj),
        is_path(adj, p),
    ensures
        is_path(adj, p.reverse()),
{
    let r = p.reverse();
    let m = p.len();
    assert forall|i: int, j: int| 0 <= i < j < r.len() implies r[i] != r[j] by {
        assert(r[i] == p[m - 1 - i] && r[j] == p[m - 1 - j]);
    }
    assert forall|i: int| 0 <= i < r.len() - 1 implies #[trigger] has_edge(adj, r[i] as int, r[i + 1] as int) by {
        let k = m - 2 - i;
        assert(has_edge(adj, p[k] as int, p[k + 1] as int));
        assert(r[i] == p[k + 1] && r[i + 1] == p[k]);
    }
    assert forall|i: int| 0 <= i < r.len() implies (#[trigger] r[i] as int) < adj.len() by {
        assert(r[i] == p[m - 1 - i]);
    }
}

/// Two disjoint simple paths joined by an edge form a simple path.
pub proof fn lemma_join_paths(adj: Seq<Seq<u32>>, a: Seq<u32>, b: Seq<u32>)
    requires
        is_path(adj, a),
        is_path(adj, b),
        a.len() >= 1,
        b.len() >= 1,
        has_edge(adj, a[a.len() - 1] as int, b[0] as int),
        forall|i: int, j: int| 0 <= i < a.len() && 0 <= j < b.len() ==> a[i] != b[j],
    ensures
        is_path(adj, a + b),
{
    let s = a + b;
    let m = a.len() as int;
    assert forall|i: int, j: int| 0 <= i < j < s.len() implies s[i] != s[j] by {
        if j < m {
            assert(a.no_duplicates());
        } else if i >= m {
            assert(s[i] == b[i - m] && s[j] == b[j - m]);
            assert(b.no_duplicates());
        } else {
            assert(s[i] == a[i] && s[j] == b[j - m]);
        }
    }
    assert forall|i: int| 0 <= i < s.len() - 1 implies #[trigger] has_edge(adj, s[i] as int, s[i + 1] as int) by {
        if i < m - 1 {
            assert(has_edge(adj, a[i] as int, a[i + 1] as int));
        } else if i >= m {
            let k = i - m;
            assert(has_edge(adj, b[k] as int, b[k + 1] as int));
        }
    }
    assert forall|i: int| 0 <= i < s.len() implies (#[trigger] s[i] as int) < adj.len() by {
        if i < m {
            assert(s[i] == a[i]);
        } else {
            assert(s[i] == b[i - m]);
        }
    }
}

/// `a` followed by `b`.
pub fn concat(a: &Vec<u32>, b: &Vec<u32>) -> (r: Vec<u32>)
    ensures
        r@ == a@ + b@,
{
    let mut r = a.clone();
    let mut i: usize = 0;
    while i < b.len()
        invariant
            i <= b@.len(),
            r@ == a@ + b@.subrange(0, i as int),
        decreases b.len() - i,
    {
        r.push(b[i]);
        assert(r@ =~= a@ + b@.subrange(0, i + 1));
        i = i + 1;
    }
    assert(b@.subrange(0, b@.len() as int) =~= b@);
    r
}

/// `p` in reverse order.
pub fn reversed(p: &Vec<u32>) -> (r: Vec<u32>)
    ensures
        r@.len() == p@.len(),
        forall|i: int| 0 <= i < p@.len() ==> r@[i] == p@[p@.len() - 1 - i],
{
    let mut r: Vec<u32> = Vec::new();
    let mut i: usize = p.len();
    while i > 0
        invariant
            i <= p@.len(),
            r@.len() == p@.len() - i,
            forall|k: int| 0 <= k < r@.len() ==> r@[k] == p@[p@.len() - 1 - k],
        decreases i,
    {
        i = i - 1;
        r.push(p[i]);
    }
    r
}

/// `p[a..b]` as a new vector.
pub fn slice_of(p: &Vec<u32>, a: usize, b: usize) -> (r: Vec<u32>)
    requires
        a <= b <= p@.len(),
    ensures
        r@ == p@.subrange(a as int, b as int),
{
    let mut r: Vec<u32> = Vec::new();
    let mut i: usize = a;
    while i < b
        invariant
            a <= i <= b,
            b <= p@.len(),
            r@ == p@.subrange(a as int, i as int),
        decreases b - i,
    {
        r.push(p[i]);
        assert(r@ =~= p@.subrange(a as int, i + 1));
        i = i + 1;
    }
    r
}

} // verus!
