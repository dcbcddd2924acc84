//! Faces: bounded closed walks found by clockwise boundary traversal.
use vstd::prelude::*;
use crate::bitset::MAX_NODE_COUNT;
use crate::graph::{adj_wf, has_edge, Graph, MAX_DEGREE};
use crate::path::consecutive_edges;

verus! {

/// Longest closed walk kept as a face.
pub const MAX_FACE_SIZE: usize = 16;

/// Shortest closed walk kept as a face.
pub const MIN_FACE_SIZE: usize = 3;

/// The slot of the directed half-edge from `u` to its `k`-th neighbor.
pub open spec fn half_edge_slot(u: int, k: int) -> int {
    u * MAX_DEGREE + k
}

/// `u` has a `k`-th neighbor in `adj`.
pub open spec fn is_half_edge(adj: Seq<Seq<u32>>, u: int, k: int) -> bool {
    0 <= u < adj.len() && 0 <= k < adj[u].len()
}

/// `f` is a closed walk of `adj`: consecutive nodes are adjacent and the last
/// node is adjacent to the first.
pub open spec fn is_closed_walk(adj: Seq<Seq<u32>>, f: Seq<u32>) -> bool {
    &&& f.len() >= 1
    &&& consecutive_edges(adj, f)
    &&& has_edge(adj, f[f.len() - 1] as int, f[0] as int)
}

/// The result of face detection. `consumed_by` has one slot per possible
/// half-edge (`half_edge_slot`); each half-edge of the graph holds the number
/// of the one traversal attempt that consumed it, and other slots hold `None`.
/// `face_attempts[i]` is the attempt that traced `faces[i]`.
pub struct FaceSet {
    pub faces: Vec<Vec<u32>>,
    pub face_attempts: Vec<usize>,
    pub consumed_by: Vec<Option<usize>>,
    pub attempts: usize,
}

/// Slot bookkeeping shared by the traversal: the slot vector covers the graph,
/// slots of non-existent half-edges are empty, and every recorded attempt
/// number is below `bound`.
pub open spec fn slots_ok(adj: Seq<Seq<u32>>, slots: Seq<Option<usize>>, bound: int) -> bool {
    &&& slots.len() == adj.len() * MAX_DEGREE
    &&& forall|u: int, k: int|
        0 <= u < adj.len() && 0 <= k < MAX_DEGREE && !is_half_edge(adj, u, k) ==> #[trigger] slots[half_edge_slot(u, k)] is None
    &&& forall|s: int| 0 <= s < slots.len() ==> (#[trigger] slots[s] matches Some(a) ==> a < bound)
}

proof fn lemma_slot_range(adj: Seq<Seq<u32>>, u: int, k: int)
    requires
        0 <= u < adj.len(),
        0 <= k < MAX_DEGREE,
    ensures
        0 <= half_edge_slot(u, k) < adj.len() * MAX_DEGREE,
        forall|u2: int, k2: int|
            0 <= u2 < adj.len() && 0 <= k2 < MAX_DEGREE && half_edge_slot(u2, k2) == half_edge_slot(u, k)
                ==> u2 == u && k2 == k,
{
    assert(0 <= half_edge_slot(u, k) < adj.len() * MAX_DEGREE) by (nonlinear_arith)
        requires
            0 <= u < adj.len(),
            0 <= k < MAX_DEGREE,
    ;
    assert forall|u2: int, k2: int|
        0 <= u2 < adj.len() && 0 <= k2 < MAX_DEGREE && half_edge_slot(u2, k2) == half_edge_slot(u, k) implies u2
        == u && k2 == k by {
        assert(u2 == u && k2 == k) by (nonlinear_arith)
            requires
                0 <= u2,
                0 <= k2 < 8,
                0 <= u,
                0 <= k < 8,
                u2 * 8 + k2 == u * 8 + k,
        ;
    }
}

/// The step from node `a` to node `b` is a half-edge of `adj` whose slot
/// records attempt `t`.
pub open spec fn step_consumed(adj: Seq<Seq<u32>>, slots: Seq<Option<usize>>, a: u32, b: u32, t: usize) -> bool {
    exists|k: int|
        0 <= k < adj[a as int].len() && adj[a as int][k] == b && #[trigger] slots[half_edge_slot(a as int, k)]
            == Some(t)
}

/// Every step of the closed walk `f`, the closing one included, is a
/// half-edge that attempt `t` consumed.
#[verifier::opaque]
pub open spec fn walk_consumed(adj: Seq<Seq<u32>>, slots: Seq<Option<usize>>, f: Seq<u32>, t: usize) -> bool {
    forall|i: int| 0 <= i < f.len() ==> #[trigger] step_consumed(adj, slots, f[i], f[(i + 1) % (f.len() as int)], t)
}

proof fn lemma_step_kept(adj: Seq<Seq<u32>>, s0: Seq<Option<usize>>, s1: Seq<Option<usize>>, a: u32, b: u32, t: usize)
    requires
        step_consumed(adj, s0, a, b, t),
        adj_wf(adj),
        (a as int) < adj.len(),
        s0.len() == adj.len() * MAX_DEGREE,
        s1.len() == s0.len(),
        forall|s: int| 0 <= s < s0.len() && s0[s] is Some ==> #[trigger] s1[s] == s0[s],
    ensures
        step_consumed(adj, s1, a, b, t),
{
    let k = choose|k: int|
        0 <= k < adj[a as int].len() && adj[a as int][k] == b && #[trigger] s0[half_edge_slot(a as int, k)] == Some(t);
    lemma_slot_range(adj, a as int, k);
    assert(s1[half_edge_slot(a as int, k)] == Some(t));
}

proof fn lemma_walk_kept(adj: Seq<Seq<u32>>, s0: Seq<Option<usize>>, s1: Seq<Option<usize>>, f: Seq<u32>, t: usize)
    requires
        adj_wf(adj),
        is_closed_walk(adj, f),
        walk_consumed(adj, s0, f, t),
        s0.len() == adj.len() * MAX_DEGREE,
        s1.len() == s0.len(),
        forall|s: int| 0 <= s < s0.len() && s0[s] is Some ==> #[trigger] s1[s] == s0[s],
    ensures
        walk_consumed(adj, s1, f, t),
{
    reveal(walk_consumed);
    assert forall|i: int| 0 <= i < f.len() implies #[trigger] step_consumed(adj, s1, f[i], f[(i + 1) % (f.len() as int)], t) by {
        assert(step_consumed(adj, s0, f[i], f[(i + 1) % (f.len() as int)], t));
        if i < f.len() - 1 {
            assert(has_edge(adj, f[i] as int, f[i + 1] as int));
        } else {
            assert(has_edge(adj, f[f.len() - 1] as int, f[0] as int));
        }
        lemma_step_kept(adj, s0, s1, f[i], f[(i + 1) % (f.len() as int)], t);
    }
}

/// Walks the face that begins with half-edge `(u, k)` as attempt `attempt`,
/// marking each traversed half-edge in `consumed`. Returns the walk when it
/// closes on its first half-edge with at least `MIN_FACE_SIZE` nodes; a dead
/// end, a half-edge consumed before, or a walk that grows past
/// `MAX_FACE_SIZE` discards it.
fn trace_face(
    graph: &Graph,
    u: u32,
    k: usize,
    attempt: usize,
    consumed: &mut Vec<Option<usize>>,
) -> (r: Option<Vec<u32>>)
    requires
        graph.wf(),
        is_half_edge(graph.adj(), u as int, k as int),
        slots_ok(graph.adj(), old(consumed)@, attempt as int),
        old(consumed)@[half_edge_slot(u as int, k as int)] is None,
    ensures
        slots_ok(graph.adj(), final(consumed)@, attempt + 1),
        final(consumed)@[half_edge_slot(u as int, k as int)] == Some(attempt),
        forall|s: int|
            0 <= s < old(consumed)@.len() && old(consumed)@[s] is Some ==> #[trigger] final(consumed)@[s]
                == old(consumed)@[s],
        r matches Some(f) ==> is_closed_walk(graph.adj(), f@) && MIN_FACE_SIZE <= f@.len()
            <= MAX_FACE_SIZE && f@[0] == u,
        r matches Some(f) ==> walk_consumed(graph.adj(), final(consumed)@, f@, attempt),
{
    let ghost adj = graph.adj();
    let ghost c0 = consumed@;
    let nb_u = graph.get_neighbors(u);
    let first = nb_u[k];
    proof {
        lemma_slot_range(adj, u as int, k as int);
        assert((adj[u as int][k as int] as int) < adj.len());
    }
    consumed[u as usize * MAX_DEGREE + k] = Some(attempt);
    let mut face: Vec<u32> = Vec::new();
    face.push(u);
    let mut x: u32 = u;
    let mut y: u32 = first;
    assert(has_edge(adj, u as int, first as int));
    assert(consecutive_edges(adj, face@));
    assert(step_consumed(adj, consumed@, u, first, attempt)) by {
        assert(consumed@[half_edge_slot(u as int, k as int)] == Some(attempt));
    }
    loop
        invariant
            graph.wf(),
            adj == graph.adj(),
            is_half_edge(adj, u as int, k as int),
            first == adj[u as int][k as int],
            slots_ok(adj, consumed@, attempt + 1),
            consumed@[half_edge_slot(u as int, k as int)] == Some(attempt),
            forall|s: int|
                0 <= s < c0.len() && c0[s] is Some ==> #[trigger] consumed@[s] == c0[s],
            c0.len() == consumed@.len(),
            c0 == old(consumed)@,
            1 <= face@.len() <= MAX_FACE_SIZE,
            face@[0] == u,
            face@[face@.len() - 1] == x,
            consecutive_edges(adj, face@),
            has_edge(adj, x as int, y as int),
            forall|i: int| 0 <= i < face@.len() - 1 ==> #[trigger] step_consumed(adj, consumed@, face@[i], face@[i + 1], attempt),
            step_consumed(adj, consumed@, x, y, attempt),
        decreases MAX_FACE_SIZE - face@.len(),
    {
        let deg_y = graph.get_neighbors(y).len();
        if deg_y <= 1 {
            return None;
        }
        let j = match graph.next_clockwise_index(y, x) {
            None => {
                return None;
            },
            Some(j) => j,
        };
        assert((y as int) < adj.len());
        if y == u && j == k {
            if face.len() >= MIN_FACE_SIZE {
                proof {
                    reveal(walk_consumed);
                    let f = face@;
                    assert forall|i: int| 0 <= i < f.len() implies #[trigger] step_consumed(
                        adj,
                        consumed@,
                        f[i],
                        f[(i + 1) % (f.len() as int)],
                        attempt,
                    ) by {
                        let m = f.len() as int;
                        if i < m - 1 {
                            assert((i + 1) % m == i + 1) by (nonlinear_arith)
                                requires
                                    0 <= i + 1 < m,
                            ;
                        } else {
                            assert((i + 1) % m == 0) by (nonlinear_arith)
                                requires
                                    i + 1 == m,
                                    m > 0,
                            ;
                        }
                    }
                }
                return Some(face);
            }
            return None;
        }
        proof {
            lemma_slot_range(adj, y as int, j as int);
        }
        let slot = y as usize * MAX_DEGREE + j;
        if consumed[slot].is_some() {
            return None;
        }
        if face.len() >= MAX_FACE_SIZE {
            return None;
        }
        let nb_y = graph.get_neighbors(y);
        let next = nb_y[j];
        proof {
            assert((adj[y as int][j as int] as int) < adj.len());
            assert(has_edge(adj, y as int, next as int));
        }
        let ghost s0 = consumed@;
        consumed[slot] = Some(attempt);
        let ghost f0 = face@;
        face.push(y);
        proof {
            assert forall|i: int| 0 <= i < face@.len() - 1 implies #[trigger] step_consumed(
                adj,
                consumed@,
                face@[i],
                face@[i + 1],
                attempt,
            ) by {
                if i < f0.len() - 1 {
                    assert(has_edge(adj, f0[i] as int, f0[i + 1] as int));
                    lemma_step_kept(adj, s0, consumed@, f0[i], f0[i + 1], attempt);
                } else {
                    lemma_step_kept(adj, s0, consumed@, x, y, attempt);
                }
            }
            assert(step_consumed(adj, consumed@, y, next, attempt)) by {
                assert(consumed@[half_edge_slot(y as int, j as int)] == Some(attempt));
            }
            assert forall|i: int| 0 <= i < face@.len() - 1 implies #[trigger] has_edge(
                adj,
                face@[i] as int,
                face@[i + 1] as int,
            ) by {
                if i < f0.len() - 1 {
                    assert(has_edge(adj, f0[i] as int, f0[i + 1] as int));
                }
            }
        }
        x = y;
        y = next;
    }
}

/// Traces every half-edge of the graph that no earlier traversal consumed, in
/// order of node id and neighbor position. Every half-edge is consumed by
/// exactly one traversal attempt; the kept faces are closed walks of
/// `MIN_FACE_SIZE` to `MAX_FACE_SIZE` nodes.
pub fn find_faces(graph: &Graph) -> (r: FaceSet)
    requires
        graph.wf(),
    ensures
        slots_ok(graph.adj(), r.consumed_by@, r.attempts as int),
        forall|u: int, k: int|
            #[trigger] is_half_edge(graph.adj(), u, k) ==> r.consumed_by@[half_edge_slot(u, k)] is Some,
        r.faces@.len() <= r.attempts,
        forall|i: int|
            0 <= i < r.faces@.len() ==> is_closed_walk(graph.adj(), #[trigger] r.faces@[i]@)
                && MIN_FACE_SIZE <= r.faces@[i]@.len() <= MAX_FACE_SIZE,
        r.face_attempts@.len() == r.faces@.len(),
        forall|i: int|
            0 <= i < r.faces@.len() ==> r.face_attempts@[i] < r.attempts && walk_consumed(
                graph.adj(),
                r.consumed_by@,
                #[trigger] r.faces@[i]@,
                r.face_attempts@[i],
            ),
        forall|i: int, j: int| 0 <= i < j < r.face_attempts@.len() ==> r.face_attempts@[i] < r.face_attempts@[j],
{
    let ghost adj = graph.adj();
    let n = graph.node_count();
    let mut consumed: Vec<Option<usize>> = Vec::new();
    let total = n * MAX_DEGREE;
    let mut s: usize = 0;
    while s < total
        invariant
            total == n * MAX_DEGREE,
            n == adj.len(),
            n <= MAX_NODE_COUNT,
            s <= total,
            consumed@.len() == s,
            forall|t: int| 0 <= t < s ==> #[trigger] consumed@[t] is None,
        decreases total - s,
    {
        consumed.push(None);
        s = s + 1;
    }
    let mut faces: Vec<Vec<u32>> = Vec::new();
    let mut face_attempts: Vec<usize> = Vec::new();
    let mut attempts: usize = 0;
    let mut u: usize = 0;
    while u < n
        invariant
            graph.wf(),
            adj == graph.adj(),
            n == adj.len(),
            n <= MAX_NODE_COUNT,
            u <= n,
            slots_ok(adj, consumed@, attempts as int),
            attempts <= u * MAX_DEGREE,
            faces@.len() <= attempts,
            forall|v: int, k: int|
                0 <= v < u && #[trigger] is_half_edge(adj, v, k) ==> consumed@[half_edge_slot(v, k)] is Some,
            forall|i: int|
                0 <= i < faces@.len() ==> is_closed_walk(adj, #[trigger] faces@[i]@) && MIN_FACE_SIZE
                    <= faces@[i]@.len() <= MAX_FACE_SIZE,
            face_attempts@.len() == faces@.len(),
            forall|i: int| 0 <= i < face_attempts@.len() ==> #[trigger] face_attempts@[i] < attempts,
            forall|i: int|
                0 <= i < faces@.len() ==> walk_consumed(adj, consumed@, #[trigger] faces@[i]@, face_attempts@[i]),
            forall|i: int, j: int| 0 <= i < j < face_attempts@.len() ==> face_attempts@[i] < face_attempts@[j],
        decreases n - u,
    {
        let deg = graph.get_neighbors(u as u32).len();
        let mut k: usize = 0;
        while k < deg
            invariant
                graph.wf(),
                adj == graph.adj(),
                n == adj.len(),
                n <= MAX_NODE_COUNT,
                u < n,
                deg == adj[u as int].len(),
                k <= deg,
                slots_ok(adj, consumed@, attempts as int),
                attempts <= u * MAX_DEGREE + k,
                faces@.len() <= attempts,
                forall|v: int, k2: int|
                    (0 <= v < u || (v == u && 0 <= k2 < k)) && #[trigger] is_half_edge(adj, v, k2)
                        ==> consumed@[half_edge_slot(v, k2)] is Some,
                forall|i: int|
                    0 <= i < faces@.len() ==> is_closed_walk(adj, #[trigger] faces@[i]@)
                        && MIN_FACE_SIZE <= faces@[i]@.len() <= MAX_FACE_SIZE,
                face_attempts@.len() == faces@.len(),
                forall|i: int| 0 <= i < face_attempts@.len() ==> #[trigger] face_attempts@[i] < attempts,
                forall|i: int|
                    0 <= i < faces@.len() ==> walk_consumed(adj, consumed@, #[trigger] faces@[i]@, face_attempts@[i]),
                forall|i: int, j: int| 0 <= i < j < face_attempts@.len() ==> face_attempts@[i] < face_attempts@[j],
            decreases deg - k,
        {
            proof {
                lemma_slot_range(adj, u as int, k as int);
            }
            if consumed[u * MAX_DEGREE + k].is_none() {
                let ghost c0 = consumed@;
                let found = trace_face(graph, u as u32, k, attempts, &mut consumed);
                proof {
                    assert forall|i: int|
                        0 <= i < faces@.len() implies face_attempts@[i] < attempts + 1 && walk_consumed(
                        adj,
                        consumed@,
                        #[trigger] faces@[i]@,
                        face_attempts@[i],
                    ) by {
                        lemma_walk_kept(adj, c0, consumed@, faces@[i]@, face_attempts@[i]);
                    }
                    assert forall|v: int, k2: int|
                        (0 <= v < u || (v == u && 0 <= k2 < k + 1)) && #[trigger] is_half_edge(adj, v, k2)
                            implies consumed@[half_edge_slot(v, k2)] is Some by {
                        if !(v == u && k2 == k) {
                            lemma_slot_range(adj, v, k2);
                            assert(c0[half_edge_slot(v, k2)] is Some);
                        }
                    }
                }
                match found {
                    Some(f) => {
                        faces.push(f);
                        face_attempts.push(attempts);
                    },
                    None => {},
                }
                attempts = attempts + 1;
            }
            k = k + 1;
        }
        u = u + 1;
    }
    FaceSet { faces, face_attempts, consumed_by: consumed, attempts }
}

} // verus!
