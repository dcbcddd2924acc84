//! Exact longest-path search by backtracking, with a wall-clock budget.
use vstd::prelude::*;
use crate::bitset::{NodeBitset, MAX_NODE_COUNT};
use crate::clock::Deadline;
use crate::graph::{adj_wf, has_edge, Graph};
use crate::path::{consecutive_edges, is_path, valid_path};

verus! {

/// Path pushes between two looks at the clock.
pub const DEADLINE_CHECK_INTERVAL: u64 = 10;

/// The ids that occur in `p`.
pub open spec fn node_set(p: Seq<u32>) -> Set<int> {
    Set::new(|x: int| exists|i: int| 0 <= i < p.len() && p[i] as int == x)
}

/// `q` is a simple path of `adj` that begins with `p`.
pub open spec fn extends(adj: Seq<Seq<u32>>, p: Seq<u32>, q: Seq<u32>) -> bool {
    &&& is_path(adj, q)
    &&& p.len() <= q.len()
    &&& q.subrange(0, p.len() as int) == p
}

/// No simple path of `adj` that begins with `p` and avoids `blocked` has more
/// than `n` nodes.
pub open spec fn covers(adj: Seq<Seq<u32>>, blocked: Set<int>, p: Seq<u32>, n: int) -> bool {
    forall|q: Seq<u32>| #[trigger] extends(adj, p, q) && avoids(q, blocked) ==> q.len() <= n
}

/// No node of `q` is in `blocked`.
pub open spec fn avoids(q: Seq<u32>, blocked: Set<int>) -> bool {
    forall|i: int| 0 <= i < q.len() ==> !blocked.contains(#[trigger] q[i] as int)
}

proof fn lemma_covers_mono(adj: Seq<Seq<u32>>, blocked: Set<int>, p: Seq<u32>, a: int, b: int)
    requires
        covers(adj, blocked, p, a),
        a <= b,
    ensures
        covers(adj, blocked, p, b),
{
}

/// Appending `v` adds exactly `v` to the node set.
pub proof fn lemma_node_set_push(p: Seq<u32>, v: u32)
    ensures
        node_set(p.push(v)) == node_set(p).insert(v as int),
{
    let s = p.push(v);
    assert forall|x: int| #[trigger] node_set(s).contains(x) == node_set(p).insert(v as int).contains(x) by {
        if node_set(p).contains(x) {
            let i = choose|i: int| 0 <= i < p.len() && p[i] as int == x;
            assert(s[i] == p[i]);
        }
        if x == v as int {
            assert(s[p.len() as int] == v);
        }
        if node_set(s).contains(x) {
            let i = choose|i: int| 0 <= i < s.len() && s[i] as int == x;
            if i < p.len() {
                assert(s[i] == p[i]);
            }
        }
    }
    assert(node_set(s) =~= node_set(p).insert(v as int));
}

/// Appending an unvisited neighbor of the last node keeps a simple path.
pub proof fn lemma_push_path(adj: Seq<Seq<u32>>, p: Seq<u32>, v: u32)
    requires
        adj_wf(adj),
        is_path(adj, p),
        p.len() >= 1,
        has_edge(adj, p[p.len() - 1] as int, v as int),
        !node_set(p).contains(v as int),
    ensures
        is_path(adj, p.push(v)),
{
    let s = p.push(v);
    assert forall|i: int, j: int| 0 <= i < j < s.len() implies s[i] != s[j] by {
        if j == p.len() {
            if s[i] == v {
                assert(node_set(p).contains(v as int));
            }
        } else {
            assert(p.no_duplicates());
        }
    }
    assert forall|i: int| 0 <= i < s.len() - 1 implies #[trigger] has_edge(
        adj,
        s[i] as int,
        s[i + 1] as int,
    ) by {
        if i < p.len() - 1 {
            assert(has_edge(adj, p[i] as int, p[i + 1] as int));
        }
    }
    assert(consecutive_edges(adj, s));
}

/// After exploring every extension of `p` through each unvisited neighbor of
/// its last node, all simple paths beginning with `p` are covered.
proof fn lemma_covers_from_children(adj: Seq<Seq<u32>>, blocked: Set<int>, p: Seq<u32>, nb: Seq<u32>, n: int)
    requires
        adj_wf(adj),
        is_path(adj, p),
        p.len() >= 1,
        nb == adj[p[p.len() - 1] as int],
        p.len() <= n,
        forall|k: int|
            0 <= k < nb.len() ==> node_set(p).contains(nb[k] as int) || blocked.contains(nb[k] as int)
                || covers(adj, blocked, #[trigger] p.push(nb[k]), n),
    ensures
        covers(adj, blocked, p, n),
{
    assert forall|q: Seq<u32>| #[trigger] extends(adj, p, q) && avoids(q, blocked) implies q.len() <= n by {
        if q.len() > p.len() {
            let m = p.len() as int;
            assert(q[m - 1] == p[m - 1]);
            assert(has_edge(adj, q[m - 1] as int, q[(m - 1) + 1] as int));
            let w = q[m];
            let k = choose|k: int| 0 <= k < nb.len() && nb[k] == w;
            if node_set(p).contains(w as int) {
                let j = choose|j: int| 0 <= j < p.len() && p[j] as int == w as int;
                assert(q[j] == p[j]);
                assert(q.no_duplicates());
            }
            assert(!blocked.contains(q[m] as int));
            assert(q.subrange(0, m + 1) =~= p.push(w));
            assert(extends(adj, p.push(nb[k]), q));
        } else {
            assert(q =~= p);
        }
    }
}

/// Depth-first extension of `path`, never entering `blocked`, that records in
/// `best` the longest path seen. Unless the search stopped at the deadline,
/// `best` afterwards is at least as long as every simple path that begins with
/// `path` and avoids `blocked`; a changed `best` is a longer path that begins
/// with `path`.
fn backtrack(
    graph: &Graph,
    path: &mut Vec<u32>,
    visited: &mut NodeBitset,
    best: &mut Vec<u32>,
    ticks: &mut u64,
    deadline: &Deadline,
    stopped: &mut bool,
    blocked: Ghost<Set<int>>,
)
    requires
        graph.wf(),
        is_path(graph.adj(), old(path)@),
        old(path)@.len() >= 1,
        old(visited).wf(),
        old(visited)@ == node_set(old(path)@).union(blocked@),
        avoids(old(path)@, blocked@),
        avoids(old(best)@, blocked@),
        is_path(graph.adj(), old(best)@),
        old(best)@.len() >= 1,
        old(best)@[0] == old(path)@[0],
        *old(ticks) < DEADLINE_CHECK_INTERVAL,
    ensures
        final(path)@ == old(path)@,
        final(visited).wf(),
        final(visited)@ == old(visited)@,
        is_path(graph.adj(), final(best)@),
        final(best)@.len() >= old(best)@.len(),
        final(best)@[0] == old(path)@[0],
        avoids(final(best)@, blocked@),
        final(best)@ == old(best)@ || (final(best)@.len() > old(best)@.len() && extends(
            graph.adj(),
            old(path)@,
            final(best)@,
        )),
        *final(ticks) < DEADLINE_CHECK_INTERVAL,
        *old(stopped) ==> *final(stopped) && final(best)@ == old(best)@,
        !*final(stopped) ==> covers(graph.adj(), blocked@, old(path)@, final(best)@.len() as int),
        deadline.is_unlimited() && !*old(stopped) ==> !*final(stopped),
    decreases MAX_NODE_COUNT - old(visited)@.len(),
{
    if *stopped {
        return;
    }
    let ghost adj = graph.adj();
    let ghost p0 = path@;
    let ghost b0 = best@;
    let ghost bl = blocked@;
    proof {
        visited.lemma_bounded();
    }
    if path.len() > best.len() {
        *best = path.clone();
        assert(best@ =~= p0);
        assert(p0.subrange(0, p0.len() as int) =~= p0);
    }
    let current = path[path.len() - 1];
    let nb = graph.get_neighbors(current);
    assert((current as int) < adj.len());
    let mut i: usize = 0;
    while i < nb.len()
        invariant
            graph.wf(),
            adj == graph.adj(),
            bl == blocked@,
            nb@ == adj[current as int],
            current == p0[p0.len() - 1],
            i <= nb.len(),
            path@ == p0,
            old(path)@ == p0,
            old(visited)@ == node_set(p0).union(bl),
            old(best)@ == b0,
            !*old(stopped),
            is_path(adj, p0),
            avoids(p0, bl),
            p0.len() >= 1,
            visited.wf(),
            visited@ == node_set(p0).union(bl),
            visited@.len() <= MAX_NODE_COUNT,
            is_path(adj, best@),
            avoids(best@, bl),
            best@ == b0 || (best@.len() > b0.len() && extends(adj, p0, best@)),
            best@.len() >= b0.len(),
            best@.len() >= p0.len(),
            best@.len() >= 1,
            best@[0] == p0[0],
            *ticks < DEADLINE_CHECK_INTERVAL,
            !*stopped,
            forall|k: int|
                0 <= k < i ==> node_set(p0).contains(nb@[k] as int) || bl.contains(nb@[k] as int) || covers(
                    adj,
                    bl,
                    #[trigger] p0.push(nb@[k]),
                    best@.len() as int,
                ),
        decreases nb.len() - i,
    {
        let v = nb[i];
        proof {
            assert((adj[current as int][i as int] as int) < adj.len());
        }
        if !visited.contains(v) {
            *ticks = *ticks + 1;
            if *ticks >= DEADLINE_CHECK_INTERVAL {
                *ticks = 0;
                if deadline.expired() {
                    *stopped = true;
                    return;
                }
            }
            let ghost before_len = best@.len();
            let ghost best_before = best@;
            assert(has_edge(adj, current as int, v as int));
            proof {
                lemma_push_path(adj, p0, v);
                lemma_node_set_push(p0, v);
            }
            let ghost vis_len = visited@.len();
            let ghost vis0 = visited@;
            proof {
                visited.lemma_bounded();
            }
            visited.set(v);
            proof {
                assert(vis0.finite());
                assert(!vis0.contains(v as int));
                assert(visited@ == vis0.insert(v as int));
                visited.lemma_bounded();
                assert(visited@.len() == vis_len + 1);
                assert(visited@ =~= node_set(p0.push(v)).union(bl));
                assert forall|k: int| 0 <= k < p0.len() + 1 implies !bl.contains(#[trigger] p0.push(v)[k] as int) by {
                    if k < p0.len() {
                        assert(p0.push(v)[k] == p0[k]);
                    }
                }
            }
            path.push(v);
            assert(path@[0] == p0[0]);
            backtrack(graph, path, visited, best, ticks, deadline, stopped, Ghost(bl));
            path.pop();
            visited.clear(v);
            assert(path@ =~= p0);
            assert(visited@ =~= node_set(p0).union(bl));
            if *stopped {
                return;
            }
            proof {
                if best@ != best_before {
                    let p1 = p0.push(v);
                    assert(best@.subrange(0, p1.len() as int) == p1);
                    assert(best@.subrange(0, p0.len() as int) =~= p1.subrange(0, p0.len() as int));
                    assert(p1.subrange(0, p0.len() as int) =~= p0);
                }
                assert forall|k: int|
                    0 <= k < i + 1 implies node_set(p0).contains(nb@[k] as int) || bl.contains(nb@[k] as int) || covers(
                    adj,
                    bl,
                    #[trigger] p0.push(nb@[k]),
                    best@.len() as int,
                ) by {
                    if k < i && !node_set(p0).contains(nb@[k] as int) && !bl.contains(nb@[k] as int) {
                        lemma_covers_mono(adj, bl, p0.push(nb@[k]), before_len as int, best@.len() as int);
                    }
                }
            }
        }
        i = i + 1;
    }
    proof {
        lemma_covers_from_children(adj, bl, p0, nb@, best@.len() as int);
    }
}

/// The nodes among the first `k` ids whose degree is at most 2, in id order.
pub open spec fn low_degree_upto(adj: Seq<Seq<u32>>, k: int) -> Seq<u32>
    decreases k,
{
    if k <= 0 {
        Seq::empty()
    } else if adj[k - 1].len() <= 2 {
        low_degree_upto(adj, k - 1).push((k - 1) as u32)
    } else {
        low_degree_upto(adj, k - 1)
    }
}

/// Where the exact search starts: the nodes of degree at most 2 when there are
/// at least two of them, and otherwise every node, in id order.
pub open spec fn start_candidates(adj: Seq<Seq<u32>>) -> Seq<u32> {
    let low = low_degree_upto(adj, adj.len() as int);
    if low.len() < 2 {
        Seq::new(adj.len(), |i: int| i as u32)
    } else {
        low
    }
}

/// Outcome of an exact search: the longest path found, and whether the search
/// ran to the end rather than stopping at its deadline.
pub struct ExactResult {
    pub path: Vec<u32>,
    pub complete: bool,
}

/// Lists the start candidates of the exact search.
pub fn exact_start_nodes(graph: &Graph) -> (r: Vec<u32>)
    requires
        graph.wf(),
    ensures
        r@ == start_candidates(graph.adj()),
{
    let ghost adj = graph.adj();
    let n = graph.node_count();
    let mut low: Vec<u32> = Vec::new();
    let mut i: usize = 0;
    while i < n
        invariant
            graph.wf(),
            n == adj.len(),
            adj == graph.adj(),
            n <= MAX_NODE_COUNT,
            i <= n,
            low@ == low_degree_upto(adj, i as int),
        decreases n - i,
    {
        let nb = graph.get_neighbors(i as u32);
        if nb.len() <= 2 {
            low.push(i as u32);
        }
        i = i + 1;
    }
    if low.len() < 2 {
        let mut all: Vec<u32> = Vec::new();
        let mut j: usize = 0;
        while j < n
            invariant
                n == adj.len(),
                n <= MAX_NODE_COUNT,
                j <= n,
                all@ == Seq::new(j as nat, |k: int| k as u32),
            decreases n - j,
        {
            all.push(j as u32);
            assert(all@ =~= Seq::new((j + 1) as nat, |k: int| k as u32));
            j = j + 1;
        }
        all
    } else {
        low
    }
}

/// The longest simple path that begins at `start` and avoids the ids in
/// `blocked`, found by backtracking. The flag says whether the search ran to
/// the end; it always does under an unlimited deadline, and then no such path
/// is longer.
pub fn longest_path_avoiding(graph: &Graph, start: u32, blocked: &NodeBitset, deadline: &Deadline) -> (r: (Vec<u32>, bool))
    requires
        graph.wf(),
        (start as int) < graph.adj().len(),
        blocked.wf(),
        !blocked@.contains(start as int),
    ensures
        is_path(graph.adj(), r.0@),
        r.0@.len() >= 1,
        r.0@[0] == start,
        avoids(r.0@, blocked@),
        r.1 ==> forall|q: Seq<u32>|
            is_path(graph.adj(), q) && q.len() >= 1 && q[0] == start && avoids(q, blocked@) ==> q.len()
                <= r.0@.len(),
        deadline.is_unlimited() ==> r.1,
{
    let ghost adj = graph.adj();
    let ghost bl = blocked@;
    let mut visited = *blocked;
    visited.set(start);
    let mut path: Vec<u32> = Vec::new();
    path.push(start);
    proof {
        lemma_node_set_push(Seq::<u32>::empty(), start);
        assert(node_set(Seq::<u32>::empty()) =~= Set::<int>::empty());
        assert(path@ =~= Seq::<u32>::empty().push(start));
        assert(consecutive_edges(adj, path@));
        assert(visited@ =~= node_set(path@).union(bl));
    }
    let mut best = path.clone();
    assert(best@ == path@);
    let mut ticks: u64 = 0;
    let mut stopped = false;
    backtrack(graph, &mut path, &mut visited, &mut best, &mut ticks, deadline, &mut stopped, Ghost(bl));
    proof {
        assert forall|q: Seq<u32>|
            is_path(adj, q) && q.len() >= 1 && q[0] == start && avoids(q, bl) && !stopped implies q.len()
            <= best@.len() by {
            assert(q.subrange(0, 1) =~= seq![start]);
            assert(extends(adj, seq![start], q));
        }
    }
    (best, !stopped)
}

/// The longest simple path that begins at `start`, found by backtracking.
/// The flag says whether the search ran to the end; it always does under an
/// unlimited deadline, and then no simple path from `start` is longer.
pub fn longest_path_from(graph: &Graph, start: u32, deadline: &Deadline) -> (r: (Vec<u32>, bool))
    requires
        graph.wf(),
        (start as int) < graph.adj().len(),
    ensures
        is_path(graph.adj(), r.0@),
        r.0@.len() >= 1,
        r.0@[0] == start,
        r.1 ==> forall|q: Seq<u32>|
            is_path(graph.adj(), q) && q.len() >= 1 && q[0] == start ==> q.len() <= r.0@.len(),
        deadline.is_unlimited() ==> r.1,
{
    let none = NodeBitset::new();
    let r = longest_path_avoiding(graph, start, &none, deadline);
    proof {
        assert forall|q: Seq<u32>|
            is_path(graph.adj(), q) && q.len() >= 1 && q[0] == start implies avoids(q, none@) by {}
    }
    r
}

/// Exact longest-path search over every start candidate, keeping the first
/// strictly longest path found. An empty graph gives an empty path. When the
/// search is complete, no simple path that begins at a start candidate is
/// longer than the result.
pub fn exact_longest_path(graph: &Graph, deadline: &Deadline) -> (r: ExactResult)
    requires
        graph.wf(),
    ensures
        is_path(graph.adj(), r.path@),
        graph.adj().len() > 0 ==> r.path@.len() >= 1,
        graph.adj().len() > 0 ==> start_candidates(graph.adj()).contains(r.path@[0]),
        graph.adj().len() == 0 ==> r.path@.len() == 0,
        r.complete ==> forall|q: Seq<u32>|
            is_path(graph.adj(), q) && q.len() >= 1 && start_candidates(graph.adj()).contains(q[0])
                ==> q.len() <= r.path@.len(),
        deadline.is_unlimited() ==> r.complete,
{
    let ghost adj = graph.adj();
    let starts = exact_start_nodes(graph);
    let mut best: Vec<u32> = Vec::new();
    let mut complete = true;
    let mut i: usize = 0;
    proof {
        low_degree_facts(adj, adj.len() as int);
    }
    assert(valid_path(adj, best@));
    while i < starts.len()
        invariant
            graph.wf(),
            adj == graph.adj(),
            starts@ == start_candidates(adj),
            forall|k: int| 0 <= k < starts@.len() ==> (#[trigger] starts@[k] as int) < adj.len(),
            i <= starts.len(),
            is_path(adj, best@),
            i > 0 ==> best@.len() >= 1,
            i > 0 ==> starts@.contains(best@[0]),
            i == 0 ==> best@.len() == 0,
            complete ==> forall|q: Seq<u32>|
                is_path(adj, q) && q.len() >= 1 && (exists|k: int| 0 <= k < i && starts@[k] == q[0])
                    ==> q.len() <= best@.len(),
            deadline.is_unlimited() ==> complete,
        decreases starts.len() - i,
    {
        let (p, done) = longest_path_from(graph, starts[i], deadline);
        if !done {
            complete = false;
        }
        if p.len() > best.len() {
            best = p;
            assert(starts@[i as int] == best@[0]);
        }
        i = i + 1;
    }
    proof {
        if adj.len() > 0 {
            low_degree_facts(adj, adj.len() as int);
            assert(starts@.len() >= 1);
        }
        if complete {
            assert forall|q: Seq<u32>|
                is_path(adj, q) && q.len() >= 1 && start_candidates(adj).contains(q[0]) implies q.len()
                <= best@.len() by {
                let k = choose|k: int| 0 <= k < starts@.len() && starts@[k] == q[0];
            }
        }
    }
    ExactResult { path: best, complete }
}

/// The low-degree prefix lists, in increasing order, exactly the ids below
/// `k` of degree at most 2.
pub proof fn low_degree_facts(adj: Seq<Seq<u32>>, k: int)
    requires
        0 <= k <= adj.len(),
        adj.len() <= MAX_NODE_COUNT,
    ensures
        low_degree_upto(adj, k).len() <= k,
        forall|j: int|
            0 <= j < low_degree_upto(adj, k).len() ==> (#[trigger] low_degree_upto(adj, k)[j] as int)
                < k && adj[low_degree_upto(adj, k)[j] as int].len() <= 2,
        forall|i: int, j: int|
            0 <= i < j < low_degree_upto(adj, k).len() ==> low_degree_upto(adj, k)[i]
                < low_degree_upto(adj, k)[j],
        forall|x: u32| (x as int) < k && adj[x as int].len() <= 2 ==> #[trigger] low_degree_upto(adj, k).contains(x),
    decreases k,
{
    if k > 0 {
        low_degree_facts(adj, k - 1);
        let prev = low_degree_upto(adj, k - 1);
        let cur = low_degree_upto(adj, k);
        assert forall|x: u32| (x as int) < k && adj[x as int].len() <= 2 implies #[trigger] cur.contains(x) by {
            if (x as int) < k - 1 {
                assert(prev.contains(x));
                let i = choose|i: int| 0 <= i < prev.len() && prev[i] == x;
                assert(cur[i] == x);
            } else {
                assert(cur[cur.len() - 1] == x);
            }
        }
    }
}

} // verus!
