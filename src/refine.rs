//! Endpoint refinement: exact re-solving of the free region hanging off a
//! point near each end of a path.
use vstd::prelude::*;
use crate::bitset::{NodeBitset, MAX_NODE_COUNT};
use crate::clock::Deadline;
use crate::exact::{avoids, lemma_node_set_push, longest_path_avoiding, node_set};
use crate::graph::{has_edge, Graph};
use crate::path::{consecutive_edges, concat, is_path, lemma_join_paths, lemma_path_len, lemma_reverse_path, lemma_subpath, reversed, slice_of, valid_path, validate_path};

verus! {

/// How far from its terminal node a path end is cut: the trim node is the
/// `TRIM_OFFSET`-th node counted from that end.
pub const TRIM_OFFSET: usize = 5;

/// The first `i` items of `v` with every repeated node after its first
/// occurrence removed, and ids at or above `MAX_NODE_COUNT` dropped.
pub open spec fn dedup_upto(v: Seq<u32>, i: int) -> Seq<u32>
    decreases i,
{
    if i <= 0 {
        Seq::empty()
    } else {
        let prev = dedup_upto(v, i - 1);
        let x = v[i - 1];
        if (x as int) < MAX_NODE_COUNT && !prev.contains(x) {
            prev.push(x)
        } else {
            prev
        }
    }
}

/// A sequence without repeats and with ids in range is its own
/// deduplication.
pub proof fn lemma_dedup_identity(v: Seq<u32>, i: int)
    requires
        0 <= i <= v.len(),
        v.no_duplicates(),
        forall|k: int| 0 <= k < v.len() ==> (#[trigger] v[k] as int) < MAX_NODE_COUNT,
    ensures
        dedup_upto(v, i) == v.take(i),
    decreases i,
{
    if i > 0 {
        lemma_dedup_identity(v, i - 1);
        assert(v.take(i) =~= v.take(i - 1).push(v[i - 1]));
        if v.take(i - 1).contains(v[i - 1]) {
            let k = choose|k: int| 0 <= k < i - 1 && #[trigger] v.take(i - 1)[k] == v[i - 1];
            assert(v[k] == v[i - 1]);
        }
    }
}

/// `v` with every repeated node after its first occurrence removed; ids at or
/// above `MAX_NODE_COUNT` are dropped. The result holds each kept id once, in
/// order of first occurrence.
pub fn dedup_nodes(v: &Vec<u32>) -> (r: Vec<u32>)
    ensures
        r@ == dedup_upto(v@, v@.len() as int),
        r@.no_duplicates(),
        forall|x: u32| #[trigger] r@.contains(x) <==> (v@.contains(x) && (x as int) < MAX_NODE_COUNT),
{
    let mut seen = NodeBitset::new();
    let mut r: Vec<u32> = Vec::new();
    let mut i: usize = 0;
    while i < v.len()
        invariant
            i <= v.len(),
            seen.wf(),
            r@ == dedup_upto(v@, i as int),
            r@.no_duplicates(),
            forall|y: u32| #[trigger] r@.contains(y) ==> seen@.contains(y as int),
            forall|y: u32| seen@.contains(y as int) ==> #[trigger] r@.contains(y),
            forall|x: u32| #[trigger] r@.contains(x) <==> (v@.take(i as int).contains(x) && (x as int) < MAX_NODE_COUNT),
        decreases v.len() - i,
    {
        let x = v[i];
        let ghost r0 = r@;
        assert(v@.take(i + 1) =~= v@.take(i as int).push(x));
        let ghost s0 = seen@;
        if (x as usize) < MAX_NODE_COUNT && !seen.contains(x) {
            seen.set(x);
            r.push(x);
            assert forall|a: int, b: int| 0 <= a < b < r@.len() implies r@[a] != r@[b] by {
                if b == r0.len() {
                    if r@[a] == x {
                        assert(r0.contains(x));
                    }
                }
            }
            assert forall|y: u32| #[trigger] r@.contains(y) == seen@.contains(y as int) by {
                assert(s0.contains(y as int) == r0.contains(y));
                if r@.contains(y) && y != x {
                    let k = choose|k: int| 0 <= k < r@.len() && #[trigger] r@[k] == y;
                    assert(r0[k] == y);
                }
                if r0.contains(y) {
                    let k = choose|k: int| 0 <= k < r0.len() && #[trigger] r0[k] == y;
                    assert(r@[k] == y);
                }
                if y == x {
                    assert(r@[r0.len() as int] == x);
                }
            }
            assert forall|y: u32| #[trigger] r@.contains(y) == (v@.take(i + 1).contains(y) && (y as int) < MAX_NODE_COUNT) by {
                if r@.contains(y) && y != x {
                    let k = choose|k: int| 0 <= k < r@.len() && #[trigger] r@[k] == y;
                    assert(r0[k] == y);
                }
                if r0.contains(y) {
                    let k = choose|k: int| 0 <= k < r0.len() && #[trigger] r0[k] == y;
                    assert(r@[k] == y);
                }
                if v@.take(i + 1).contains(y) && y != x {
                    let k = choose|k: int| 0 <= k < i + 1 && #[trigger] v@.take(i + 1)[k] == y;
                    assert(v@.take(i as int)[k] == y);
                }
                if v@.take(i as int).contains(y) {
                    let k = choose|k: int| 0 <= k < i && #[trigger] v@.take(i as int)[k] == y;
                    assert(v@.take(i + 1)[k] == y);
                }
                if y == x {
                    assert(r@[r0.len() as int] == x);
                    assert(v@.take(i + 1)[i as int] == x);
                }
            }
        } else {
            assert forall|y: u32| #[trigger] r@.contains(y) == (v@.take(i + 1).contains(y) && (y as int) < MAX_NODE_COUNT) by {
                if v@.take(i + 1).contains(y) && y != x {
                    let k = choose|k: int| 0 <= k < i + 1 && #[trigger] v@.take(i + 1)[k] == y;
                    assert(v@.take(i as int)[k] == y);
                }
                if v@.take(i as int).contains(y) {
                    let k = choose|k: int| 0 <= k < i && #[trigger] v@.take(i as int)[k] == y;
                    assert(v@.take(i + 1)[k] == y);
                }
                if y == x && (x as int) < MAX_NODE_COUNT {
                    assert(seen@.contains(x as int));
                }
            }
        }
        i = i + 1;
    }
    assert(v@.take(v@.len() as int) =~= v@);
    r
}

/// The nodes reachable from `root` without entering `excluded`, `root` first,
/// in breadth-first order: each once, none excluded, and every neighbor of a
/// listed node that is not excluded is listed too.
pub fn free_region(graph: &Graph, root: u32, excluded: &NodeBitset) -> (r: Vec<u32>)
    requires
        graph.wf(),
        (root as int) < graph.adj().len(),
        excluded.wf(),
        !excluded@.contains(root as int),
    ensures
        r@.len() >= 1,
        r@[0] == root,
        r@.len() <= MAX_NODE_COUNT,
        r@.no_duplicates(),
        forall|i: int| 0 <= i < r@.len() ==> (#[trigger] r@[i] as int) < graph.adj().len(),
        avoids(r@, excluded@),
        forall|i: int, w: int|
            0 <= i < r@.len() && #[trigger] has_edge(graph.adj(), r@[i] as int, w) && !excluded@.contains(w)
                ==> node_set(r@).contains(w),
{
    let ghost adj = graph.adj();
    let mut seen = NodeBitset::new();
    seen.set(root);
    let mut queue: Vec<u32> = Vec::new();
    queue.push(root);
    let mut head: usize = 0;
    proof {
        assert(Set::<int>::empty().insert(root as int).len() == 1);
        assert(seen@ =~= node_set(queue@)) by {
            assert(queue@[0] == root);
        }
    }
    while head < queue.len()
        invariant
            graph.wf(),
            adj == graph.adj(),
            excluded.wf(),
            seen.wf(),
            seen@.len() == queue@.len(),
            seen@ == node_set(queue@),
            queue@.no_duplicates(),
            avoids(queue@, excluded@),
            queue@.len() >= 1,
            queue@[0] == root,
            head <= queue@.len(),
            forall|i: int| 0 <= i < queue@.len() ==> (#[trigger] queue@[i] as int) < adj.len(),
            forall|i: int, w: int|
                0 <= i < head && #[trigger] has_edge(adj, queue@[i] as int, w) && !excluded@.contains(w)
                    ==> seen@.contains(w),
        decreases MAX_NODE_COUNT - head,
    {
        proof {
            seen.lemma_bounded();
        }
        let cur = queue[head];
        let nb = graph.get_neighbors(cur);
        let mut k: usize = 0;
        while k < nb.len()
            invariant
                graph.wf(),
                adj == graph.adj(),
                (cur as int) < adj.len(),
                cur == queue@[head as int],
                nb@ == adj[cur as int],
                excluded.wf(),
                seen.wf(),
                seen@.len() == queue@.len(),
                seen@ == node_set(queue@),
                queue@.no_duplicates(),
                avoids(queue@, excluded@),
                queue@.len() >= 1,
                queue@[0] == root,
                head < queue@.len(),
                k <= nb.len(),
                forall|i: int| 0 <= i < queue@.len() ==> (#[trigger] queue@[i] as int) < adj.len(),
                forall|i: int, w: int|
                    0 <= i < head && #[trigger] has_edge(adj, queue@[i] as int, w) && !excluded@.contains(w)
                        ==> seen@.contains(w),
                forall|k2: int| 0 <= k2 < k ==> excluded@.contains(#[trigger] nb@[k2] as int) || seen@.contains(nb@[k2] as int),
            decreases nb.len() - k,
        {
            let w = nb[k];
            proof {
                assert((adj[cur as int][k as int] as int) < adj.len());
            }
            if !excluded.contains(w) && !seen.contains(w) {
                proof {
                    seen.lemma_bounded();
                }
                let ghost q0 = queue@;
                seen.set(w);
                queue.push(w);
                proof {
                    lemma_node_set_push(q0, w);
                    assert forall|a: int, b: int| 0 <= a < b < queue@.len() implies queue@[a] != queue@[b] by {
                        if b == q0.len() && queue@[a] == w {
                            assert(node_set(q0).contains(w as int));
                        }
                    }
                    assert forall|a: int| 0 <= a < queue@.len() implies (#[trigger] queue@[a] as int) < adj.len() && !excluded@.contains(queue@[a] as int) by {
                        if a < q0.len() {
                            assert(queue@[a] == q0[a]);
                        }
                    }
                }
            }
            k = k + 1;
        }
        proof {
            assert forall|i: int, w: int|
                0 <= i < head + 1 && #[trigger] has_edge(adj, queue@[i] as int, w) && !excluded@.contains(w)
                    implies seen@.contains(w) by {
                if i == head {
                    let k2 = choose|k2: int| 0 <= k2 < nb@.len() && nb@[k2] == w as u32;
                    assert(excluded@.contains(nb@[k2] as int) || seen@.contains(nb@[k2] as int));
                }
            }
        }
        head = head + 1;
        proof {
            seen.lemma_bounded();
        }
    }
    proof {
        seen.lemma_bounded();
    }
    queue
}

/// The part of `p` that refining one end keeps: all but the last
/// `TRIM_OFFSET` nodes for the back end, all but the first `TRIM_OFFSET` for
/// the front end.
pub open spec fn kept_part(p: Seq<u32>, at_front: bool) -> Seq<u32> {
    if at_front {
        p.subrange(TRIM_OFFSET as int, p.len() as int)
    } else {
        p.subrange(0, p.len() - TRIM_OFFSET)
    }
}

/// The node where refining one end cuts `p`: the `TRIM_OFFSET`-th node from
/// that end.
pub open spec fn trim_node(p: Seq<u32>, at_front: bool) -> u32 {
    if at_front {
        p[TRIM_OFFSET - 1]
    } else {
        p[p.len() - TRIM_OFFSET]
    }
}

/// `q` can take the place of the cut end of `p`: a simple path from the trim
/// node that avoids the kept part.
pub open spec fn regrowth(adj: Seq<Seq<u32>>, p: Seq<u32>, at_front: bool, q: Seq<u32>) -> bool {
    &&& is_path(adj, q)
    &&& q.len() >= 1
    &&& q[0] == trim_node(p, at_front)
    &&& avoids(q, node_set(kept_part(p, at_front)))
}

/// Refines one end of `path`: cuts it at the trim node, collects the free
/// region reachable from the trim node without entering the kept part, solves
/// it exactly from the trim node, and splices the result in place of the cut
/// part. The result is `path` itself unless the spliced path is strictly
/// longer and passes validation. Under an unlimited deadline the result is at
/// least as long as the kept part followed by any regrowth of the cut end.
pub fn refine_end(graph: &Graph, path: &Vec<u32>, at_front: bool, deadline: &Deadline) -> (r: Vec<u32>)
    requires
        graph.wf(),
        is_path(graph.adj(), path@),
    ensures
        is_path(graph.adj(), r@),
        r@.len() >= path@.len(),
        r@.len() == path@.len() ==> r@ == path@,
        deadline.is_unlimited() && path@.len() > TRIM_OFFSET ==> forall|q: Seq<u32>|
            #[trigger] regrowth(graph.adj(), path@, at_front, q) ==> kept_part(path@, at_front).len() + q.len()
                <= r@.len(),
{
    let ghost adj = graph.adj();
    let len = path.len();
    if len <= TRIM_OFFSET {
        return path.clone();
    }
    let trim_idx = if at_front { TRIM_OFFSET - 1 } else { len - TRIM_OFFSET };
    let t = path[trim_idx];
    let ghost kept = kept_part(path@, at_front);
    let ghost keep_from: int = if at_front { TRIM_OFFSET as int } else { 0 };
    assert(kept =~= path@.subrange(keep_from, keep_from + kept.len()));
    proof {
        lemma_path_len(adj, path@);
    }
    let mut excluded = NodeBitset::new();
    let mut i: usize = 0;
    while i < len
        invariant
            len == path@.len(),
            len <= adj.len(),
            is_path(adj, path@),
            adj.len() <= MAX_NODE_COUNT,
            excluded.wf(),
            i <= len,
            trim_idx < len,
            at_front ==> trim_idx == TRIM_OFFSET - 1,
            !at_front ==> trim_idx == len - TRIM_OFFSET,
            forall|x: int| #[trigger] excluded@.contains(x) <==> exists|j: int|
                0 <= j < i && (if at_front { j > trim_idx } else { j < trim_idx }) && path@[j] as int == x,
        decreases len - i,
    {
        let keep = if at_front { i > trim_idx } else { i < trim_idx };
        let ghost e0 = excluded@;
        if keep {
            assert((path@[i as int] as int) < adj.len());
            excluded.set(path[i]);
        }
        assert forall|x: int| #[trigger] excluded@.contains(x) <==> exists|j: int|
            0 <= j < i + 1 && (if at_front { j > trim_idx } else { j < trim_idx }) && path@[j] as int == x by {
            if excluded@.contains(x) && !e0.contains(x) {
                assert(path@[i as int] as int == x);
            }
            if exists|j: int| 0 <= j < i + 1 && (if at_front { j > trim_idx } else { j < trim_idx }) && path@[j] as int == x {
                let j = choose|j: int| 0 <= j < i + 1 && (if at_front { j > trim_idx } else { j < trim_idx }) && path@[j] as int == x;
                if j < i {
                    assert(e0.contains(x));
                }
            }
        }
        i = i + 1;
    }
    proof {
        assert forall|x: int| #[trigger] excluded@.contains(x) == node_set(kept).contains(x) by {
            if excluded@.contains(x) {
                let j = choose|j: int| 0 <= j < len && (if at_front { j > trim_idx } else { j < trim_idx }) && path@[j] as int == x;
                assert(kept[j - keep_from] == path@[j]);
            }
            if node_set(kept).contains(x) {
                let k = choose|k: int| 0 <= k < kept.len() && kept[k] as int == x;
                assert(kept[k] == path@[k + keep_from]);
            }
        }
        assert(excluded@ =~= node_set(kept));
        if excluded@.contains(t as int) {
            let j = choose|j: int| 0 <= j < len && (if at_front { j > trim_idx } else { j < trim_idx }) && path@[j] as int == t as int;
            assert(path@[j] == path@[trim_idx as int]);
        }
        assert((t as int) < adj.len());
    }
    let region = free_region(graph, t, &excluded);
    if region.len() <= 1 {
        proof {
            assert forall|q: Seq<u32>| #[trigger] regrowth(adj, path@, at_front, q) implies kept.len() + q.len() <= len by {
                if q.len() >= 2 {
                    assert(is_path(adj, q));
                    assert(consecutive_edges(adj, q));
                    let z = 0int;
                    assert(has_edge(adj, q[z] as int, q[z + 1] as int));
                    assert(!excluded@.contains(q[1] as int));
                    assert(region@[0] == t);
                    assert(node_set(region@).contains(q[1] as int));
                    let k = choose|k: int| 0 <= k < region@.len() && region@[k] as int == q[1] as int;
                    assert(q[0] != q[1]);
                }
            }
        }
        return path.clone();
    }
    let (local, done) = longest_path_avoiding(graph, t, &excluded, deadline);
    if local.len() <= 1 {
        return path.clone();
    }
    let spliced = if at_front {
        let head = reversed(&local);
        let tail = slice_of(path, trim_idx + 1, len);
        proof {
            assert(head@ =~= local@.reverse());
            lemma_reverse_path(adj, local@);
            assert(tail@ =~= kept);
            lemma_subpath(adj, path@, trim_idx + 1, len as int);
            assert(head@[head@.len() - 1] == t);
            assert(has_edge(adj, path@[trim_idx as int] as int, path@[trim_idx + 1] as int));
            assert forall|a: int, b: int| 0 <= a < head@.len() && 0 <= b < tail@.len() implies head@[a] != tail@[b] by {
                assert(head@[a] == local@[local@.len() - 1 - a]);
                assert(!excluded@.contains(local@[local@.len() - 1 - a] as int));
                assert(node_set(kept).contains(kept[b] as int));
            }
            lemma_join_paths(adj, head@, tail@);
        }
        concat(&head, &tail)
    } else {
        let head = slice_of(path, 0, trim_idx);
        proof {
            assert(head@ =~= kept);
            lemma_subpath(adj, path@, 0, trim_idx as int);
            let m = trim_idx - 1;
            assert(has_edge(adj, path@[m] as int, path@[m + 1] as int));
            assert forall|a: int, b: int| 0 <= a < head@.len() && 0 <= b < local@.len() implies head@[a] != local@[b] by {
                assert(!excluded@.contains(local@[b] as int));
                assert(node_set(kept).contains(kept[a] as int));
            }
            lemma_join_paths(adj, head@, local@);
        }
        concat(&head, &local)
    };
    assert(spliced@.len() == kept.len() + local@.len());
    proof {
        lemma_path_len(adj, spliced@);
        lemma_dedup_identity(spliced@, spliced@.len() as int);
        assert(spliced@.take(spliced@.len() as int) =~= spliced@);
    }
    let candidate = dedup_nodes(&spliced);
    assert(candidate@ == spliced@);
    if candidate.len() > len && validate_path(graph, &candidate) {
        candidate
    } else {
        proof {
            if candidate.len() > len {
                assert(valid_path(adj, candidate@));
            }
        }
        path.clone()
    }
}

/// Refines the back end and then the front end of `path`. Never shortens it:
/// the result is a simple path at least as long, and `path` itself when
/// nothing improved. Under an unlimited deadline it is at least as long as the
/// kept part of the back end followed by any regrowth of that end.
pub fn refine_endpoints(graph: &Graph, path: &Vec<u32>, deadline: &Deadline) -> (r: Vec<u32>)
    requires
        graph.wf(),
        is_path(graph.adj(), path@),
    ensures
        is_path(graph.adj(), r@),
        r@.len() >= path@.len(),
        r@.len() == path@.len() ==> r@ == path@,
        deadline.is_unlimited() && path@.len() > TRIM_OFFSET ==> forall|q: Seq<u32>|
            #[trigger] regrowth(graph.adj(), path@, false, q) ==> kept_part(path@, false).len() + q.len()
                <= r@.len(),
{
    let back = refine_end(graph, path, false, deadline);
    refine_end(graph, &back, true, deadline)
}

} // verus!
