//! Branch-and-bound longest-path search with a face-based bound, for graphs
//! too large for the exact search.
use vstd::prelude::*;
use crate::bitset::{NodeBitset, MAX_NODE_COUNT};
use crate::clock::Deadline;
use crate::exact::{extends, lemma_node_set_push, lemma_push_path, node_set, DEADLINE_CHECK_INTERVAL};
use crate::faces::FaceSet;
use crate::graph::{adj_wf, has_edge, Graph};
use crate::path::{consecutive_edges, is_path, lemma_path_len, lemma_subpath};
use crate::refine::refine_endpoints;

verus! {

/// Most start candidates on a large graph.
pub const START_CANDIDATE_TARGET: usize = 254;

/// Above this node count children are ordered by degree.
pub const DEGREE_ORDER_THRESHOLD: usize = 180;

/// Depths below this always take children in ascending degree order.
pub const SHALLOW_DEPTH: usize = 10;

/// Above this node count the search runs under growing depth limits.
pub const ITERATIVE_DEEPENING_THRESHOLD: usize = 500;

/// Number of steps of the depth-limit schedule.
pub const DEPTH_SCHEDULE_STEPS: usize = 6;

/// A gain of at most this many nodes ends the depth escalation.
pub const PLATEAU_GAIN: usize = 1;

/// The face bound is inflated to this percentage of its value.
pub const FACE_BONUS_PERCENT: usize = 110;

/// A branch is pruned when its length plus this percentage of its bound
/// cannot beat the best length so far.
pub const PRUNE_SLACK_PERCENT: usize = 80;

/// Below this coverage, in percent of the node count, endpoints are refined.
pub const COVERAGE_TARGET_PERCENT: usize = 85;

/// The depth limit at step `step` of the schedule.
pub open spec fn depth_limit_spec(step: int) -> int {
    if step == 0 {
        80
    } else if step == 1 {
        175
    } else if step == 2 {
        360
    } else if step == 3 {
        2400
    } else if step == 4 {
        5000
    } else {
        7500
    }
}

/// The depth limit at step `step` of the schedule.
pub fn depth_limit_at(step: usize) -> (r: usize)
    ensures
        r == depth_limit_spec(step as int),
{
    if step == 0 {
        80
    } else if step == 1 {
        175
    } else if step == 2 {
        360
    } else if step == 3 {
        2400
    } else if step == 4 {
        5000
    } else {
        7500
    }
}

/// The bound that the face rule gives: the inflated face count, capped at the
/// remaining count; the remaining count when no face contains the node.
pub open spec fn face_bound_spec(face_sum: int, in_some_face: bool, remaining: int) -> int {
    if !in_some_face {
        remaining
    } else {
        let inflated = face_sum * FACE_BONUS_PERCENT / 100;
        if inflated < remaining {
            inflated
        } else {
            remaining
        }
    }
}

/// Whether a branch of length `len` with bound `bound` is pruned against the
/// best length `best`.
pub open spec fn pruned(len: int, bound: int, best: int) -> bool {
    len + bound * PRUNE_SLACK_PERCENT / 100 <= best
}

/// The inflated and capped face bound.
pub fn capped_face_bound(face_sum: usize, in_some_face: bool, remaining: usize) -> (r: usize)
    requires
        face_sum <= MAX_NODE_COUNT * 64,
    ensures
        r == face_bound_spec(face_sum as int, in_some_face, remaining as int),
{
    if !in_some_face {
        remaining
    } else {
        let inflated = face_sum * FACE_BONUS_PERCENT / 100;
        if inflated < remaining {
            inflated
        } else {
            remaining
        }
    }
}

/// The prune test.
pub fn should_prune(len: usize, bound: usize, best: usize) -> (r: bool)
    requires
        len <= MAX_NODE_COUNT,
        bound <= MAX_NODE_COUNT,
    ensures
        r == pruned(len as int, bound as int, best as int),
{
    len + bound * PRUNE_SLACK_PERCENT / 100 <= best
}

/// The faces as sequences of node ids.
pub open spec fn faces_view(faces: Seq<Vec<u32>>) -> Seq<Seq<u32>> {
    faces.map_values(|f: Vec<u32>| f@)
}

/// The face index lists as sequences.
pub open spec fn lists_view(lists: Seq<Vec<usize>>) -> Seq<Seq<usize>> {
    lists.map_values(|l: Vec<usize>| l@)
}

/// The indices below `k` of the faces that contain `v`, in increasing order.
pub open spec fn face_ids(faces: Seq<Seq<u32>>, v: u32, k: int) -> Seq<usize>
    decreases k,
{
    if k <= 0 {
        Seq::empty()
    } else if faces[k - 1].contains(v) {
        face_ids(faces, v, k - 1).push((k - 1) as usize)
    } else {
        face_ids(faces, v, k - 1)
    }
}

/// For each of the `n` nodes, the indices of the faces that contain it.
pub open spec fn face_index(faces: Seq<Seq<u32>>, n: int) -> Seq<Seq<usize>> {
    Seq::new(n as nat, |v: int| face_ids(faces, v as u32, faces.len() as int))
}

proof fn lemma_face_ids_below(faces: Seq<Seq<u32>>, v: u32, k: int)
    requires
        0 <= k,
    ensures
        forall|i: int| 0 <= i < face_ids(faces, v, k).len() ==> (#[trigger] face_ids(faces, v, k)[i] as int) < k,
    decreases k,
{
    if k > 0 {
        lemma_face_ids_below(faces, v, k - 1);
        let prev = face_ids(faces, v, k - 1);
        assert forall|i: int| 0 <= i < face_ids(faces, v, k).len() implies (#[trigger] face_ids(faces, v, k)[i] as int) < k by {
            if i < prev.len() {
                assert(face_ids(faces, v, k)[i] == prev[i]);
            }
        }
    }
}

/// For each node, the indices of the faces that contain it, in increasing
/// order.
pub fn index_faces(n: usize, faces: &Vec<Vec<u32>>) -> (r: Vec<Vec<usize>>)
    requires
        n <= u32::MAX,
    ensures
        lists_view(r@) == face_index(faces_view(faces@), n as int),
{
    let ghost fv = faces_view(faces@);
    let mut r: Vec<Vec<usize>> = Vec::new();
    let mut i: usize = 0;
    while i < n
        invariant
            i <= n,
            r@.len() == i,
            forall|v: int| 0 <= v < i ==> (#[trigger] r@[v])@ == Seq::<usize>::empty(),
        decreases n - i,
    {
        r.push(Vec::new());
        i = i + 1;
    }
    let mut f: usize = 0;
    while f < faces.len()
        invariant
            fv == faces_view(faces@),
            n <= u32::MAX,
            f <= faces@.len(),
            r@.len() == n,
            forall|v: int| 0 <= v < n ==> (#[trigger] r@[v])@ == face_ids(fv, v as u32, f as int),
        decreases faces.len() - f,
    {
        let face = &faces[f];
        assert(face@ == fv[f as int]);
        let mut k: usize = 0;
        while k < face.len()
            invariant
                fv == faces_view(faces@),
                n <= u32::MAX,
                f < faces@.len(),
                face@ == fv[f as int],
                k <= face@.len(),
                r@.len() == n,
                forall|v: int| 0 <= v < n ==> (#[trigger] r@[v])@ == if face@.take(k as int).contains(v as u32) {
                    face_ids(fv, v as u32, f as int).push(f)
                } else {
                    face_ids(fv, v as u32, f as int)
                },
            decreases face.len() - k,
        {
            let v = face[k] as usize;
            let ghost r0 = r@;
            assert(face@.take(k + 1) =~= face@.take(k as int).push(face@[k as int]));
            if v < n {
                let l = r[v].len();
                proof {
                    lemma_face_ids_below(fv, v as u32, f as int);
                }
                if l == 0 || r[v][l - 1] != f {
                    r[v].push(f);
                }
                proof {
                    assert forall|w: int| 0 <= w < n implies (#[trigger] r@[w])@ == if face@.take(k + 1).contains(w as u32) {
                        face_ids(fv, w as u32, f as int).push(f)
                    } else {
                        face_ids(fv, w as u32, f as int)
                    } by {
                        if w != v {
                            assert(r@[w] == r0[w]);
                            if face@.take(k + 1).contains(w as u32) {
                                let z = choose|z: int| 0 <= z < k + 1 && #[trigger] face@.take(k + 1)[z] == w as u32;
                                assert(face@.take(k as int)[z] == w as u32);
                            }
                            if face@.take(k as int).contains(w as u32) {
                                let z = choose|z: int| 0 <= z < k && #[trigger] face@.take(k as int)[z] == w as u32;
                                assert(face@.take(k + 1)[z] == w as u32);
                            }
                        } else {
                            assert(face@.take(k + 1)[k as int] == w as u32);
                            if face@.take(k as int).contains(w as u32) {
                                assert(r0[w]@ == face_ids(fv, w as u32, f as int).push(f));
                            } else {
                                let ids = face_ids(fv, w as u32, f as int);
                                if ids.len() > 0 {
                                    assert((ids[ids.len() - 1] as int) < f);
                                }
                            }
                        }
                    }
                }
            } else {
                proof {
                    assert forall|w: int| 0 <= w < n implies (#[trigger] r@[w])@ == if face@.take(k + 1).contains(w as u32) {
                        face_ids(fv, w as u32, f as int).push(f)
                    } else {
                        face_ids(fv, w as u32, f as int)
                    } by {
                        if face@.take(k + 1).contains(w as u32) {
                            let z = choose|z: int| 0 <= z < k + 1 && #[trigger] face@.take(k + 1)[z] == w as u32;
                            if z == k {
                                assert(face@[k as int] as int >= n);
                            }
                            assert(face@.take(k as int)[z] == w as u32);
                        }
                        if face@.take(k as int).contains(w as u32) {
                            let z = choose|z: int| 0 <= z < k && #[trigger] face@.take(k as int)[z] == w as u32;
                            assert(face@.take(k + 1)[z] == w as u32);
                        }
                    }
                }
            }
            k = k + 1;
        }
        assert(face@.take(face@.len() as int) =~= face@);
        f = f + 1;
    }
    assert(lists_view(r@) =~= face_index(fv, n as int));
    r
}

/// Nodes of `face` below `MAX_NODE_COUNT` that are not in `visited`, counted
/// with repeats.
pub open spec fn unvisited_in(face: Seq<u32>, visited: Set<int>) -> int
    decreases face.len(),
{
    if face.len() == 0 {
        0
    } else {
        unvisited_in(face.drop_last(), visited) + if (face.last() as int) < MAX_NODE_COUNT && !visited.contains(
            face.last() as int,
        ) {
            1int
        } else {
            0int
        }
    }
}

/// The unvisited counts of the listed faces, added up.
pub open spec fn faces_sum(faces: Seq<Seq<u32>>, ids: Seq<usize>, visited: Set<int>) -> int
    decreases ids.len(),
{
    if ids.len() == 0 {
        0
    } else {
        faces_sum(faces, ids.drop_last(), visited) + if (ids.last() as int) < faces.len() {
            unvisited_in(faces[ids.last() as int], visited)
        } else {
            0int
        }
    }
}

/// Some listed index names a face.
pub open spec fn any_face(faces: Seq<Seq<u32>>, ids: Seq<usize>) -> bool {
    exists|i: int| 0 <= i < ids.len() && (#[trigger] ids[i] as int) < faces.len()
}

/// The face bound of a branch that ends at `last` with `visited` visited and
/// `remaining` nodes left: the face rule over the faces that contain `last`,
/// their sum capped at `MAX_NODE_COUNT`; `remaining` for a node without a list.
pub open spec fn bound_spec(
    faces: Seq<Seq<u32>>,
    node_faces: Seq<Seq<usize>>,
    last: u32,
    visited: Set<int>,
    remaining: int,
) -> int {
    if last as int >= node_faces.len() {
        remaining
    } else {
        let total = faces_sum(faces, node_faces[last as int], visited);
        face_bound_spec(
            if total < MAX_NODE_COUNT { total } else { MAX_NODE_COUNT as int },
            any_face(faces, node_faces[last as int]),
            remaining,
        )
    }
}

proof fn lemma_unvisited_nonneg(face: Seq<u32>, visited: Set<int>)
    ensures
        unvisited_in(face, visited) >= 0,
    decreases face.len(),
{
    if face.len() > 0 {
        lemma_unvisited_nonneg(face.drop_last(), visited);
    }
}

/// The sum, over the faces that contain `last`, of their nodes that are not
/// visited, with the face rule applied (see `bound_spec`).
fn face_bound(
    faces: &Vec<Vec<u32>>,
    node_faces: &Vec<Vec<usize>>,
    last: u32,
    visited: &NodeBitset,
    remaining: usize,
) -> (r: usize)
    requires
        visited.wf(),
    ensures
        r <= remaining,
        r == bound_spec(faces_view(faces@), lists_view(node_faces@), last, visited@, remaining as int),
{
    let ghost fv = faces_view(faces@);
    let ghost nv = lists_view(node_faces@);
    if last as usize >= node_faces.len() {
        return remaining;
    }
    let list = &node_faces[last as usize];
    assert(list@ == nv[last as int]);
    let mut sum: usize = 0;
    let mut any = false;
    let mut i: usize = 0;
    while i < list.len()
        invariant
            visited.wf(),
            fv == faces_view(faces@),
            i <= list@.len(),
            sum <= MAX_NODE_COUNT,
            sum as int == if faces_sum(fv, list@.take(i as int), visited@) < MAX_NODE_COUNT {
                faces_sum(fv, list@.take(i as int), visited@)
            } else {
                MAX_NODE_COUNT as int
            },
            faces_sum(fv, list@.take(i as int), visited@) >= 0,
            any == any_face(fv, list@.take(i as int)),
        decreases list.len() - i,
    {
        let fi = list[i];
        let ghost before = faces_sum(fv, list@.take(i as int), visited@);
        assert(list@.take(i + 1).drop_last() =~= list@.take(i as int));
        assert(list@.take(i + 1).last() == fi);
        if fi < faces.len() {
            any = true;
            let face = &faces[fi];
            assert(face@ == fv[fi as int]);
            assert(face@.take(0) =~= Seq::<u32>::empty());
            let mut k: usize = 0;
            while k < face.len()
                invariant
                    visited.wf(),
                    k <= face@.len(),
                    sum <= MAX_NODE_COUNT,
                    before >= 0,
                    unvisited_in(face@.take(k as int), visited@) >= 0,
                    sum as int == if before + unvisited_in(face@.take(k as int), visited@) < MAX_NODE_COUNT {
                        before + unvisited_in(face@.take(k as int), visited@)
                    } else {
                        MAX_NODE_COUNT as int
                    },
                decreases face.len() - k,
            {
                let v = face[k];
                assert(face@.take(k + 1).drop_last() =~= face@.take(k as int));
                if (v as usize) < MAX_NODE_COUNT && !visited.contains(v) && sum < MAX_NODE_COUNT {
                    sum = sum + 1;
                }
                k = k + 1;
            }
            assert(face@.take(face@.len() as int) =~= face@);
            proof {
                lemma_unvisited_nonneg(face@, visited@);
            }
        }
        proof {
            assert forall|j: int| 0 <= j < i implies list@.take(i + 1)[j] == list@.take(i as int)[j] by {}
            if fi < faces.len() {
                assert(list@.take(i + 1)[i as int] == fi);
            } else if any_face(fv, list@.take(i + 1)) {
                let j = choose|j: int| 0 <= j < i + 1 && (#[trigger] list@.take(i + 1)[j] as int) < fv.len();
                assert(list@.take(i as int)[j] == list@.take(i + 1)[j]);
            }
            if any_face(fv, list@.take(i as int)) {
                let j = choose|j: int| 0 <= j < i && (#[trigger] list@.take(i as int)[j] as int) < fv.len();
                assert(list@.take(i + 1)[j] == list@.take(i as int)[j]);
            }
        }
        i = i + 1;
    }
    assert(list@.take(list@.len() as int) =~= list@);
    capped_face_bound(sum, any, remaining)
}

/// `cands` reordered by node degree, ascending or descending; equal degrees
/// keep their order. Every output node comes from `cands`.
fn order_by_degree(graph: &Graph, cands: &Vec<u32>, ascending: bool) -> (r: Vec<u32>)
    requires
        graph.wf(),
    ensures
        r@.len() == cands@.len(),
        r@.to_multiset() == cands@.to_multiset(),
        forall|i: int| 0 <= i < r@.len() ==> cands@.contains(#[trigger] r@[i]),
        forall|x: u32| cands@.contains(x) ==> #[trigger] r@.contains(x),
{
    broadcast use vstd::seq_lib::to_multiset_insert, vstd::seq_lib::to_multiset_contains;
    let m = cands.len();
    let mut r: Vec<u32> = Vec::new();
    let mut keys: Vec<usize> = Vec::new();
    let mut i: usize = 0;
    while i < m
        invariant
            graph.wf(),
            m == cands@.len(),
            i <= m,
            r@.len() == i,
            keys@.len() == i,
            r@.to_multiset() == cands@.take(i as int).to_multiset(),
            forall|j: int| 0 <= j < r@.len() ==> cands@.contains(#[trigger] r@[j]),
        decreases m - i,
    {
        let c = cands[i];
        let d = graph.get_neighbors(c).len();
        let mut pos: usize = 0;
        while pos < r.len()
            invariant
                pos <= r@.len(),
                keys@.len() == r@.len(),
            decreases r.len() - pos,
        {
            let later = if ascending { keys[pos] > d } else { keys[pos] < d };
            if later {
                break;
            }
            pos = pos + 1;
        }
        let ghost r0 = r@;
        r.insert(pos, c);
        keys.insert(pos, d);
        assert(cands@[i as int] == c);
        assert(cands@.take(i + 1) =~= cands@.take(i as int).insert(i as int, c));
        proof {
            vstd::seq_lib::to_multiset_insert(r0, pos as int, c);
            vstd::seq_lib::to_multiset_insert(cands@.take(i as int), i as int, c);
        }
        assert forall|j: int| 0 <= j < r@.len() implies cands@.contains(#[trigger] r@[j]) by {
            if j < pos {
                assert(r@[j] == r0[j]);
            } else if j > pos {
                assert(r@[j] == r0[j - 1]);
            }
        }
        i = i + 1;
    }
    assert(cands@.take(m as int) =~= cands@);
    assert forall|x: u32| cands@.contains(x) implies #[trigger] r@.contains(x) by {
        vstd::seq_lib::to_multiset_contains(cands@, x);
        vstd::seq_lib::to_multiset_contains(r@, x);
    }
    r
}

/// What the branch-and-bound search reads but never changes.
pub struct SearchContext {
    pub faces: Vec<Vec<u32>>,
    pub node_faces: Vec<Vec<usize>>,
    pub order_children: bool,
    pub depth_limit: usize,
}

/// The face bound of the branch `p`: its last node, its nodes as visited, and
/// the graph's other nodes as remaining.
pub open spec fn branch_bound(adj: Seq<Seq<u32>>, faces: Seq<Seq<u32>>, node_faces: Seq<Seq<usize>>, p: Seq<u32>) -> int {
    bound_spec(
        faces,
        node_faces,
        p[p.len() - 1],
        node_set(p),
        if adj.len() > node_set(p).len() { adj.len() - node_set(p).len() } else { 0 },
    )
}

/// The search does not extend the branch `p` against a best length `best`:
/// `p` has reached the depth limit, or its face bound prunes it.
pub open spec fn stops_at(
    adj: Seq<Seq<u32>>,
    faces: Seq<Seq<u32>>,
    node_faces: Seq<Seq<usize>>,
    depth_limit: int,
    p: Seq<u32>,
    best: int,
) -> bool {
    p.len() >= depth_limit || pruned(node_set(p).len() as int, branch_bound(adj, faces, node_faces, p), best)
}

/// Some prefix of `q` with at least `from` nodes is a branch where the search
/// stops against `best`.
pub open spec fn cut_off(
    adj: Seq<Seq<u32>>,
    faces: Seq<Seq<u32>>,
    node_faces: Seq<Seq<usize>>,
    depth_limit: int,
    q: Seq<u32>,
    from: int,
    best: int,
) -> bool {
    exists|j: int| from <= j < q.len() && #[trigger] stops_at(adj, faces, node_faces, depth_limit, q.take(j), best)
}

/// Every simple path that begins with `p` has at most `best` nodes, or was
/// cut off by the depth limit or the face bound.
pub open spec fn found_or_cut(
    adj: Seq<Seq<u32>>,
    faces: Seq<Seq<u32>>,
    node_faces: Seq<Seq<usize>>,
    depth_limit: int,
    p: Seq<u32>,
    best: int,
) -> bool {
    forall|q: Seq<u32>|
        #[trigger] extends(adj, p, q) ==> q.len() <= best || cut_off(adj, faces, node_faces, depth_limit, q, p.len() as int, best)
}

proof fn lemma_cut_mono(
    adj: Seq<Seq<u32>>,
    faces: Seq<Seq<u32>>,
    node_faces: Seq<Seq<usize>>,
    dl: int,
    q: Seq<u32>,
    from: int,
    from2: int,
    a: int,
    b: int,
)
    requires
        cut_off(adj, faces, node_faces, dl, q, from, a),
        from2 <= from,
        a <= b,
    ensures
        cut_off(adj, faces, node_faces, dl, q, from2, b),
{
    let j = choose|j: int| from <= j < q.len() && #[trigger] stops_at(adj, faces, node_faces, dl, q.take(j), a);
    assert(stops_at(adj, faces, node_faces, dl, q.take(j), b));
}

proof fn lemma_found_or_cut_mono(
    adj: Seq<Seq<u32>>,
    faces: Seq<Seq<u32>>,
    node_faces: Seq<Seq<usize>>,
    dl: int,
    p: Seq<u32>,
    a: int,
    b: int,
)
    requires
        found_or_cut(adj, faces, node_faces, dl, p, a),
        a <= b,
    ensures
        found_or_cut(adj, faces, node_faces, dl, p, b),
{
    assert forall|q: Seq<u32>| #[trigger] extends(adj, p, q) implies q.len() <= b || cut_off(
        adj,
        faces,
        node_faces,
        dl,
        q,
        p.len() as int,
        b,
    ) by {
        if q.len() > a {
            lemma_cut_mono(adj, faces, node_faces, dl, q, p.len() as int, p.len() as int, a, b);
        }
    }
}

/// A branch where the search stops is found or cut off, once `best` is at
/// least its length.
proof fn lemma_stop_here(
    adj: Seq<Seq<u32>>,
    faces: Seq<Seq<u32>>,
    node_faces: Seq<Seq<usize>>,
    dl: int,
    p: Seq<u32>,
    best: int,
)
    requires
        stops_at(adj, faces, node_faces, dl, p, best),
        p.len() <= best,
    ensures
        found_or_cut(adj, faces, node_faces, dl, p, best),
{
    assert forall|q: Seq<u32>| #[trigger] extends(adj, p, q) implies q.len() <= best || cut_off(
        adj,
        faces,
        node_faces,
        dl,
        q,
        p.len() as int,
        best,
    ) by {
        if q.len() > p.len() {
            assert(q.take(p.len() as int) =~= p);
            assert(stops_at(adj, faces, node_faces, dl, q.take(p.len() as int), best));
        } else {
            assert(q =~= p);
        }
    }
}

proof fn lemma_found_or_cut_from_children(
    adj: Seq<Seq<u32>>,
    faces: Seq<Seq<u32>>,
    node_faces: Seq<Seq<usize>>,
    dl: int,
    p: Seq<u32>,
    children: Seq<u32>,
    best: int,
)
    requires
        adj_wf(adj),
        is_path(adj, p),
        p.len() >= 1,
        p.len() <= best,
        forall|w: u32| adj[p[p.len() - 1] as int].contains(w) ==> #[trigger] children.contains(w),
        forall|k: int|
            0 <= k < children.len() ==> node_set(p).contains(children[k] as int) || found_or_cut(
                adj,
                faces,
                node_faces,
                dl,
                #[trigger] p.push(children[k]),
                best,
            ),
    ensures
        found_or_cut(adj, faces, node_faces, dl, p, best),
{
    assert forall|q: Seq<u32>| #[trigger] extends(adj, p, q) implies q.len() <= best || cut_off(
        adj,
        faces,
        node_faces,
        dl,
        q,
        p.len() as int,
        best,
    ) by {
        if q.len() > p.len() {
            let m = p.len() as int;
            assert(q[m - 1] == p[m - 1]);
            assert(has_edge(adj, q[m - 1] as int, q[(m - 1) + 1] as int));
            let w = q[m];
            assert(adj[p[m - 1] as int].contains(w));
            assert(children.contains(w));
            let k = choose|k: int| 0 <= k < children.len() && children[k] == w;
            if node_set(p).contains(w as int) {
                let j = choose|j: int| 0 <= j < p.len() && p[j] as int == w as int;
                assert(q[j] == p[j]);
                assert(q.no_duplicates());
            }
            assert(q.subrange(0, m + 1) =~= p.push(w));
            assert(extends(adj, p.push(children[k]), q));
            if q.len() > best {
                lemma_cut_mono(adj, faces, node_faces, dl, q, m + 1, m, best, best);
            }
        } else {
            assert(q =~= p);
        }
    }
}

/// Depth-first branch-and-bound extension of `path`, recording in `best` the
/// longest path seen. A branch stops at the depth limit or when the face
/// bound shows that it cannot beat `best`. Unless the search stopped at the
/// deadline, every simple path that begins with `path` is no longer than
/// `best` or was cut off by the depth limit or the face bound.
fn branch_and_bound(
    graph: &Graph,
    ctx: &SearchContext,
    path: &mut Vec<u32>,
    visited: &mut NodeBitset,
    best: &mut Vec<u32>,
    ticks: &mut u64,
    deadline: &Deadline,
    stopped: &mut bool,
)
    requires
        graph.wf(),
        is_path(graph.adj(), old(path)@),
        old(path)@.len() >= 1,
        old(visited).wf(),
        old(visited)@ == node_set(old(path)@),
        is_path(graph.adj(), old(best)@),
        *old(ticks) < DEADLINE_CHECK_INTERVAL,
    ensures
        final(path)@ == old(path)@,
        final(visited).wf(),
        final(visited)@ == old(visited)@,
        is_path(graph.adj(), final(best)@),
        final(best)@.len() >= old(best)@.len(),
        *final(ticks) < DEADLINE_CHECK_INTERVAL,
        *old(stopped) ==> *final(stopped),
        deadline.is_unlimited() && !*old(stopped) ==> !*final(stopped),
        !*final(stopped) ==> found_or_cut(
            graph.adj(),
            faces_view(ctx.faces@),
            lists_view(ctx.node_faces@),
            ctx.depth_limit as int,
            old(path)@,
            final(best)@.len() as int,
        ),
    decreases MAX_NODE_COUNT - old(visited)@.len(),
{
    if *stopped {
        return;
    }
    let ghost adj = graph.adj();
    let ghost fv = faces_view(ctx.faces@);
    let ghost nfv = lists_view(ctx.node_faces@);
    let ghost dl = ctx.depth_limit as int;
    let ghost p0 = path@;
    let ghost b0 = best@;
    proof {
        visited.lemma_bounded();
    }
    if path.len() > best.len() {
        *best = path.clone();
        assert(best@ =~= p0);
    }
    if path.len() >= ctx.depth_limit {
        proof {
            lemma_stop_here(adj, fv, nfv, dl, p0, best@.len() as int);
        }
        return;
    }
    let n = graph.node_count();
    let len = visited.count();
    let remaining = if n > len { n - len } else { 0 };
    let current = path[path.len() - 1];
    let bound = face_bound(&ctx.faces, &ctx.node_faces, current, visited, remaining);
    assert(bound == branch_bound(adj, fv, nfv, p0));
    proof {
        crate::path::lemma_path_len(adj, p0);
    }
    if best.len() > 0 && should_prune(len, bound, best.len()) {
        proof {
            lemma_stop_here(adj, fv, nfv, dl, p0, best@.len() as int);
        }
        return;
    }
    let nb = graph.get_neighbors(current);
    assert((current as int) < adj.len());
    let mut open: Vec<u32> = Vec::new();
    let mut j: usize = 0;
    while j < nb.len()
        invariant
            j <= nb@.len(),
            open@ == nb@.take(j as int),
        decreases nb.len() - j,
    {
        open.push(nb[j]);
        assert(open@ =~= nb@.take(j + 1));
        j = j + 1;
    }
    assert(open@ =~= nb@);
    let children = if ctx.order_children {
        let depth = path.len();
        let ascending = depth < SHALLOW_DEPTH || depth % 2 == 0;
        order_by_degree(graph, &open, ascending)
    } else {
        open
    };
    assert(forall|w: u32| nb@.contains(w) ==> #[trigger] children@.contains(w));
    let mut i: usize = 0;
    while i < children.len()
        invariant
            graph.wf(),
            adj == graph.adj(),
            fv == faces_view(ctx.faces@),
            nfv == lists_view(ctx.node_faces@),
            dl == ctx.depth_limit as int,
            nb@ == adj[current as int],
            current == p0[p0.len() - 1],
            forall|k: int| 0 <= k < children@.len() ==> nb@.contains(#[trigger] children@[k]),
            forall|w: u32| nb@.contains(w) ==> #[trigger] children@.contains(w),
            i <= children@.len(),
            path@ == p0,
            old(path)@ == p0,
            old(visited)@ == node_set(p0),
            old(best)@ == b0,
            !*old(stopped),
            is_path(adj, p0),
            p0.len() >= 1,
            visited.wf(),
            visited@ == node_set(p0),
            visited@.len() <= MAX_NODE_COUNT,
            is_path(adj, best@),
            best@.len() >= b0.len(),
            best@.len() >= p0.len(),
            *ticks < DEADLINE_CHECK_INTERVAL,
            !*stopped,
            forall|k: int|
                0 <= k < i ==> node_set(p0).contains(children@[k] as int) || found_or_cut(
                    adj,
                    fv,
                    nfv,
                    dl,
                    #[trigger] p0.push(children@[k]),
                    best@.len() as int,
                ),
        decreases children.len() - i,
    {
        let v = children[i];
        proof {
            assert(nb@.contains(v));
            let k = choose|k: int| 0 <= k < nb@.len() && nb@[k] == v;
            assert((adj[current as int][k] as int) < adj.len());
            assert(has_edge(adj, current as int, v as int));
        }
        if !visited.contains(v) {
            *ticks = *ticks + 1;
            if *ticks >= DEADLINE_CHECK_INTERVAL {
                *ticks = 0;
                if deadline.expired() {
                    *stopped = true;
                    return;
                }
            }
            let ghost before_len = best@.len();
            proof {
                lemma_push_path(adj, p0, v);
                lemma_node_set_push(p0, v);
                visited.lemma_bounded();
            }
            let ghost vis0 = visited@;
            visited.set(v);
            proof {
                assert(visited@ == vis0.insert(v as int));
                visited.lemma_bounded();
            }
            path.push(v);
            branch_and_bound(graph, ctx, path, visited, best, ticks, deadline, stopped);
            path.pop();
            visited.clear(v);
            assert(path@ =~= p0);
            assert(node_set(p0).insert(v as int).remove(v as int) =~= node_set(p0));
            if *stopped {
                return;
            }
            proof {
                assert forall|k: int|
                    0 <= k < i + 1 implies node_set(p0).contains(children@[k] as int) || found_or_cut(
                    adj,
                    fv,
                    nfv,
                    dl,
                    #[trigger] p0.push(children@[k]),
                    best@.len() as int,
                ) by {
                    if k < i && !node_set(p0).contains(children@[k] as int) {
                        lemma_found_or_cut_mono(adj, fv, nfv, dl, p0.push(children@[k]), before_len as int, best@.len() as int);
                    }
                }
            }
        }
        i = i + 1;
    }
    proof {
        lemma_found_or_cut_from_children(adj, fv, nfv, dl, p0, children@, best@.len() as int);
    }
}

/// Where the heuristic search starts. A graph of at most
/// `START_CANDIDATE_TARGET` nodes starts everywhere, in id order. A larger one
/// takes its degree-1 nodes first, then an evenly spread sample of its
/// degree-2 nodes, then of the others, up to `START_CANDIDATE_TARGET` in all.
pub fn heuristic_start_nodes(graph: &Graph) -> (r: Vec<u32>)
    requires
        graph.wf(),
    ensures
        forall|i: int| 0 <= i < r@.len() ==> (#[trigger] r@[i] as int) < graph.adj().len(),
        graph.adj().len() > 0 ==> r@.len() >= 1,
        graph.adj().len() <= START_CANDIDATE_TARGET ==> r@ == Seq::new(
            graph.adj().len(),
            |i: int| i as u32,
        ),
        graph.adj().len() > START_CANDIDATE_TARGET ==> r@.len() <= START_CANDIDATE_TARGET,
        graph.adj().len() > START_CANDIDATE_TARGET ==> forall|i: int, j: int|
            0 <= i < j < r@.len() ==> start_rank(graph.adj(), r@[i]) <= start_rank(graph.adj(), r@[j]),
        graph.adj().len() > START_CANDIDATE_TARGET ==> forall|v: u32|
            (v as int) < graph.adj().len() && graph.adj()[v as int].len() == 1 ==> #[trigger] r@.contains(v)
                || r@.len() == START_CANDIDATE_TARGET,
{
    let ghost adj = graph.adj();
    let n = graph.node_count();
    let mut r: Vec<u32> = Vec::new();
    if n <= START_CANDIDATE_TARGET {
        let mut j: usize = 0;
        while j < n
            invariant
                n == adj.len(),
                n <= MAX_NODE_COUNT,
                j <= n,
                r@ == Seq::new(j as nat, |k: int| k as u32),
            decreases n - j,
        {
            r.push(j as u32);
            assert(r@ =~= Seq::new((j + 1) as nat, |k: int| k as u32));
            j = j + 1;
        }
        return r;
    }
    let mut deg2: Vec<u32> = Vec::new();
    let mut rest: Vec<u32> = Vec::new();
    let mut v: usize = 0;
    while v < n
        invariant
            n == adj.len(),
            graph.wf(),
            adj == graph.adj(),
            n <= MAX_NODE_COUNT,
            v <= n,
            r@.len() <= START_CANDIDATE_TARGET,
            forall|i: int| 0 <= i < r@.len() ==> (#[trigger] r@[i] as int) < n,
            forall|i: int| 0 <= i < deg2@.len() ==> (#[trigger] deg2@[i] as int) < n,
            forall|i: int| 0 <= i < rest@.len() ==> (#[trigger] rest@[i] as int) < n,
            deg2@.len() <= v,
            rest@.len() <= v,
            forall|i: int| 0 <= i < r@.len() ==> adj[#[trigger] r@[i] as int].len() == 1,
            forall|i: int| 0 <= i < deg2@.len() ==> adj[#[trigger] deg2@[i] as int].len() == 2,
            forall|i: int| 0 <= i < rest@.len() ==> adj[#[trigger] rest@[i] as int].len() != 1 && adj[rest@[i] as int].len() != 2,
            forall|w: u32| (w as int) < v && adj[w as int].len() == 1 ==> #[trigger] r@.contains(w) || r@.len() == START_CANDIDATE_TARGET,
        decreases n - v,
    {
        let ghost r_before = r@;
        let d = graph.get_neighbors(v as u32).len();
        assert(d == adj[v as int].len());
        if d == 1 {
            if r.len() < START_CANDIDATE_TARGET {
                r.push(v as u32);
            }
        } else if d == 2 {
            deg2.push(v as u32);
        } else {
            rest.push(v as u32);
        }
        proof {
            assert forall|w: u32| (w as int) < v + 1 && adj[w as int].len() == 1 implies #[trigger] r@.contains(w)
                || r@.len() == START_CANDIDATE_TARGET by {
                if (w as int) < v {
                    assert(r_before.contains(w) || r_before.len() == START_CANDIDATE_TARGET);
                    if r_before.contains(w) {
                        let i = choose|i: int| 0 <= i < r_before.len() && r_before[i] == w;
                        assert(r@[i] == w);
                    }
                } else {
                    assert(w == v as u32);
                    assert(d == adj[v as int].len());
                    if r_before.len() < START_CANDIDATE_TARGET {
                        assert(r@ == r_before.push(v as u32));
                        assert(r@[r_before.len() as int] == w);
                    }
                }
            }
        }
        v = v + 1;
    }
    let ghost r1 = r@;
    spread_sample(&mut r, &deg2, n);
    let ghost r2 = r@;
    spread_sample(&mut r, &rest, n);
    proof {
        assert forall|i: int| 0 <= i < r@.len() implies #[trigger] start_rank(adj, r@[i]) == if i < r1.len() {
            0int
        } else if i < r2.len() {
            1int
        } else {
            2int
        } by {
            if i < r2.len() {
                assert(r@[i] == r2[i]) by {
                    assert(r@.subrange(0, r2.len() as int)[i] == r2[i]);
                }
                if i < r1.len() {
                    assert(r2.subrange(0, r1.len() as int)[i] == r1[i]);
                    assert(adj[r1[i] as int].len() == 1);
                } else {
                    assert(deg2@.contains(r2[i]));
                    let k = choose|k: int| 0 <= k < deg2@.len() && deg2@[k] == r2[i];
                    assert(adj[deg2@[k] as int].len() == 2);
                }
            } else {
                assert(rest@.contains(r@[i]));
                let k = choose|k: int| 0 <= k < rest@.len() && rest@[k] == r@[i];
                assert(adj[rest@[k] as int].len() != 1 && adj[rest@[k] as int].len() != 2);
            }
        }
        assert forall|w: u32| (w as int) < n && adj[w as int].len() == 1 implies #[trigger] r@.contains(w)
            || r@.len() == START_CANDIDATE_TARGET by {
            if r1.contains(w) {
                let i = choose|i: int| 0 <= i < r1.len() && r1[i] == w;
                assert(r2.subrange(0, r1.len() as int)[i] == r1[i]);
                assert(r@.subrange(0, r2.len() as int)[i] == r2[i]);
                assert(r@[i] == w);
            } else {
                assert(r1.len() == START_CANDIDATE_TARGET);
            }
        }
    }
    if r.len() == 0 {
        proof {
            assert forall|w: u32| (w as int) < n implies adj[w as int].len() != 1 by {
                if adj[w as int].len() == 1 {
                    assert(r@.contains(w) || r@.len() == START_CANDIDATE_TARGET);
                }
            }
        }
        r.push(0);
    }
    r
}

/// Where a node stands in the order of start candidates: degree 1 first,
/// then degree 2, then the others.
pub open spec fn start_rank(adj: Seq<Seq<u32>>, v: u32) -> int {
    if adj[v as int].len() == 1 {
        0
    } else if adj[v as int].len() == 2 {
        1
    } else {
        2
    }
}

/// Appends to `r` an evenly spaced sample of `pool` that fills the slots
/// left below `START_CANDIDATE_TARGET`; all of `pool` when it fits.
fn spread_sample(r: &mut Vec<u32>, pool: &Vec<u32>, n: usize)
    requires
        old(r)@.len() <= START_CANDIDATE_TARGET,
        forall|i: int| 0 <= i < old(r)@.len() ==> (#[trigger] old(r)@[i] as int) < n,
        forall|i: int| 0 <= i < pool@.len() ==> (#[trigger] pool@[i] as int) < n,
        pool@.len() <= MAX_NODE_COUNT,
    ensures
        final(r)@.len() <= START_CANDIDATE_TARGET,
        final(r)@.len() >= old(r)@.len(),
        forall|i: int| 0 <= i < final(r)@.len() ==> (#[trigger] final(r)@[i] as int) < n,
        final(r)@.subrange(0, old(r)@.len() as int) == old(r)@,
        forall|i: int| old(r)@.len() <= i < final(r)@.len() ==> pool@.contains(#[trigger] final(r)@[i]),
        pool@.len() > 0 && old(r)@.len() < START_CANDIDATE_TARGET ==> final(r)@.len() > old(r)@.len(),
{
    let ghost r0 = r@;
    assert(r@.subrange(0, r0.len() as int) =~= r0);
    let slots = START_CANDIDATE_TARGET - r.len();
    let m = pool.len();
    if m == 0 || slots == 0 {
        return;
    }
    let take = if m < slots { m } else { slots };
    let mut j: usize = 0;
    while j < take
        invariant
            take <= m,
            take <= slots,
            m == pool@.len(),
            m <= MAX_NODE_COUNT,
            slots + old(r)@.len() == START_CANDIDATE_TARGET,
            j <= take,
            r@.len() == old(r)@.len() + j,
            forall|i: int| 0 <= i < r@.len() ==> (#[trigger] r@[i] as int) < n,
            forall|i: int| 0 <= i < pool@.len() ==> (#[trigger] pool@[i] as int) < n,
            r0 == old(r)@,
            r@.subrange(0, r0.len() as int) == r0,
            forall|i: int| r0.len() <= i < r@.len() ==> pool@.contains(#[trigger] r@[i]),
        decreases take - j,
    {
        assert(j * m <= START_CANDIDATE_TARGET * MAX_NODE_COUNT) by (nonlinear_arith)
            requires
                j < take,
                take <= START_CANDIDATE_TARGET,
                m <= MAX_NODE_COUNT,
        ;
        let idx = j * m / take;
        assert(idx < m) by (nonlinear_arith)
            requires
                idx as int == (j as int * m as int) / (take as int),
                j < take,
                take <= m,
        ;
        let ghost before = r@;
        r.push(pool[idx]);
        assert(r@.subrange(0, r0.len() as int) =~= before.subrange(0, r0.len() as int));
        assert(pool@.contains(pool@[idx as int]));
        assert forall|i: int| r0.len() <= i < r@.len() implies pool@.contains(#[trigger] r@[i]) by {
            if i < before.len() {
                assert(r@[i] == before[i]);
            }
        }
        j = j + 1;
    }
}

/// `q` is no longer than `best`, or was cut off after its first node.
pub open spec fn reached_or_cut(
    adj: Seq<Seq<u32>>,
    faces: Seq<Seq<u32>>,
    node_faces: Seq<Seq<usize>>,
    depth_limit: int,
    q: Seq<u32>,
    best: int,
) -> bool {
    q.len() <= best || cut_off(adj, faces, node_faces, depth_limit, q, 1, best)
}

/// A copy of the faces.
fn copy_faces(faces: &Vec<Vec<u32>>) -> (r: Vec<Vec<u32>>)
    ensures
        faces_view(r@) == faces_view(faces@),
{
    let mut r: Vec<Vec<u32>> = Vec::new();
    let mut i: usize = 0;
    while i < faces.len()
        invariant
            i <= faces@.len(),
            r@.len() == i,
            faces_view(r@) == faces_view(faces@).take(i as int),
        decreases faces.len() - i,
    {
        let f = faces[i].clone();
        assert(f@ =~= faces@[i as int]@);
        let ghost r0 = r@;
        r.push(f);
        assert forall|j: int| 0 <= j < i + 1 implies #[trigger] faces_view(r@)[j] == faces_view(faces@)[j] by {
            if j < i {
                assert(r@[j] == r0[j]);
                assert(faces_view(r0)[j] == faces_view(faces@).take(i as int)[j]);
            } else {
                assert(r@[j] == f);
            }
        }
        assert(faces_view(r@) =~= faces_view(faces@).take(i + 1));
        i = i + 1;
    }
    assert(faces_view(faces@).take(faces@.len() as int) =~= faces_view(faces@));
    r
}

/// Runs the branch-and-bound search from every start node, sharing one best
/// path across starts; a later start replaces it only when strictly longer.
fn search_all(
    graph: &Graph,
    ctx: &SearchContext,
    starts: &Vec<u32>,
    best: &mut Vec<u32>,
    deadline: &Deadline,
)
    requires
        graph.wf(),
        is_path(graph.adj(), old(best)@),
        forall|i: int| 0 <= i < starts@.len() ==> (#[trigger] starts@[i] as int) < graph.adj().len(),
    ensures
        is_path(graph.adj(), final(best)@),
        final(best)@.len() >= old(best)@.len(),
        starts@.len() > 0 ==> final(best)@.len() >= 1,
        deadline.is_unlimited() ==> forall|q: Seq<u32>|
            is_path(graph.adj(), q) && q.len() >= 1 && starts@.contains(q[0]) ==> #[trigger] reached_or_cut(
                graph.adj(),
                faces_view(ctx.faces@),
                lists_view(ctx.node_faces@),
                ctx.depth_limit as int,
                q,
                final(best)@.len() as int,
            ),
{
    let ghost adj = graph.adj();
    let ghost fv = faces_view(ctx.faces@);
    let ghost nfv = lists_view(ctx.node_faces@);
    let ghost dl = ctx.depth_limit as int;
    let mut i: usize = 0;
    let mut ticks: u64 = 0;
    let mut stopped = false;
    while i < starts.len()
        invariant
            graph.wf(),
            adj == graph.adj(),
            fv == faces_view(ctx.faces@),
            nfv == lists_view(ctx.node_faces@),
            dl == ctx.depth_limit as int,
            forall|i: int| 0 <= i < starts@.len() ==> (#[trigger] starts@[i] as int) < adj.len(),
            i <= starts@.len(),
            is_path(adj, best@),
            best@.len() >= old(best)@.len(),
            i > 0 ==> best@.len() >= 1,
            ticks < DEADLINE_CHECK_INTERVAL,
            deadline.is_unlimited() ==> !stopped,
            deadline.is_unlimited() ==> forall|q: Seq<u32>|
                is_path(adj, q) && q.len() >= 1 && starts@.take(i as int).contains(q[0]) ==> #[trigger] reached_or_cut(
                    adj,
                    fv,
                    nfv,
                    dl,
                    q,
                    best@.len() as int,
                ),
        decreases starts.len() - i,
    {
        let ghost best_before = best@.len();
        let s = starts[i];
        assert((s as int) < adj.len());
        let mut visited = NodeBitset::new();
        visited.set(s);
        let mut path: Vec<u32> = Vec::new();
        path.push(s);
        proof {
            lemma_node_set_push(Seq::<u32>::empty(), s);
            assert(node_set(Seq::<u32>::empty()) =~= Set::<int>::empty());
            assert(path@ =~= Seq::<u32>::empty().push(s));
            assert(consecutive_edges(adj, path@));
        }
        if best.len() == 0 {
            *best = path.clone();
            assert(best@ == path@);
        }
        branch_and_bound(graph, ctx, &mut path, &mut visited, best, &mut ticks, deadline, &mut stopped);
        proof {
            if deadline.is_unlimited() {
                assert forall|q: Seq<u32>|
                    is_path(adj, q) && q.len() >= 1 && starts@.take(i + 1).contains(q[0]) implies #[trigger] reached_or_cut(
                    adj,
                    fv,
                    nfv,
                    dl,
                    q,
                    best@.len() as int,
                ) by {
                    let k = choose|k: int| 0 <= k < i + 1 && #[trigger] starts@.take(i + 1)[k] == q[0];
                    if k < i {
                        assert(starts@.take(i as int)[k] == q[0]);
                        assert(reached_or_cut(adj, fv, nfv, dl, q, best_before as int));
                        if q.len() > best_before {
                            lemma_cut_mono(adj, fv, nfv, dl, q, 1, 1, best_before as int, best@.len() as int);
                        }
                    } else {
                        assert(q.subrange(0, 1) =~= path@);
                        assert(extends(adj, path@, q));
                    }
                }
            }
        }
        i = i + 1;
    }
    assert(starts@.take(starts@.len() as int) =~= starts@);
}

/// Trims one node from each end of `p` (when it has more than two).
fn trim_ends(p: &Vec<u32>) -> (r: Vec<u32>)
    ensures
        p@.len() > 2 ==> r@ == p@.subrange(1, p@.len() - 1),
        p@.len() <= 2 ==> r@ == p@,
{
    if p.len() <= 2 {
        return p.clone();
    }
    let mut r: Vec<u32> = Vec::new();
    let mut i: usize = 1;
    while i + 1 < p.len()
        invariant
            1 <= i <= p@.len() - 1,
            r@ == p@.subrange(1, i as int),
        decreases p.len() - i,
    {
        r.push(p[i]);
        assert(r@ =~= p@.subrange(1, i + 1));
        i = i + 1;
    }
    r
}

/// Heuristic longest-path search: branch and bound from the start
/// candidates, with children ordered by degree on graphs above
/// `DEGREE_ORDER_THRESHOLD` nodes and growing depth limits above
/// `ITERATIVE_DEEPENING_THRESHOLD`; below `COVERAGE_TARGET_PERCENT` coverage
/// the endpoints are refined, and once more after trimming a node off each end
/// when the first refinement gained at least one percentage point.
pub fn heuristic_longest_path(graph: &Graph, faces: &FaceSet, deadline: &Deadline) -> (r: Vec<u32>)
    requires
        graph.wf(),
    ensures
        is_path(graph.adj(), r@),
        graph.adj().len() > 0 ==> r@.len() >= 1,
        graph.adj().len() == 0 ==> r@.len() == 0,
        deadline.is_unlimited() && graph.adj().len() <= START_CANDIDATE_TARGET ==> forall|q: Seq<u32>|
            is_path(graph.adj(), q) && q.len() >= 1 ==> #[trigger] reached_or_cut(
                graph.adj(),
                faces_view(faces.faces@),
                face_index(faces_view(faces.faces@), graph.adj().len() as int),
                graph.adj().len() as int,
                q,
                r@.len() as int,
            ),
{
    let ghost adj = graph.adj();
    let n = graph.node_count();
    let mut best: Vec<u32> = Vec::new();
    if n == 0 {
        proof {
            assert forall|q: Seq<u32>| is_path(adj, q) && q.len() >= 1 implies #[trigger] reached_or_cut(
                adj,
                faces_view(faces.faces@),
                face_index(faces_view(faces.faces@), 0),
                0,
                q,
                0,
            ) by {
                assert((q[0] as int) < adj.len());
            }
        }
        return best;
    }
    let starts = heuristic_start_nodes(graph);
    let node_faces = index_faces(n, &faces.faces);
    let ghost fv = faces_view(faces.faces@);
    let ghost nfv = face_index(fv, n as int);
    let mut ctx = SearchContext {
        faces: copy_faces(&faces.faces),
        node_faces,
        order_children: n > DEGREE_ORDER_THRESHOLD,
        depth_limit: n,
    };
    if n > ITERATIVE_DEEPENING_THRESHOLD {
        let mut step: usize = 0;
        while step < DEPTH_SCHEDULE_STEPS
            invariant
                graph.wf(),
                adj == graph.adj(),
                n == adj.len(),
                n > 0,
                forall|i: int| 0 <= i < starts@.len() ==> (#[trigger] starts@[i] as int) < adj.len(),
                starts@.len() >= 1,
                is_path(adj, best@),
                step > 0 ==> best@.len() >= 1,
            decreases DEPTH_SCHEDULE_STEPS - step,
        {
            let before = best.len();
            ctx.depth_limit = depth_limit_at(step);
            search_all(graph, &ctx, &starts, &mut best, deadline);
            let gain = best.len() - before;
            if step > 0 && gain <= PLATEAU_GAIN {
                break;
            }
            step = step + 1;
        }
        if best.len() == 0 {
            search_all(graph, &ctx, &starts, &mut best, deadline);
        }
    } else {
        search_all(graph, &ctx, &starts, &mut best, deadline);
    }
    let ghost searched = best@.len() as int;
    proof {
        if deadline.is_unlimited() && n <= START_CANDIDATE_TARGET {
            assert(faces_view(ctx.faces@) == fv);
            assert(lists_view(ctx.node_faces@) == nfv);
            assert(ctx.depth_limit == n);
            assert forall|q: Seq<u32>| is_path(adj, q) && q.len() >= 1 implies #[trigger] reached_or_cut(
                adj,
                fv,
                nfv,
                n as int,
                q,
                searched,
            ) by {
                assert((q[0] as int) < n);
                assert(starts@[q[0] as int] == q[0]);
                assert(starts@.contains(q[0]));
            }
        }
    }
    assert(best@.len() >= 1);
    proof {
        lemma_path_len(adj, best@);
    }
    let coverage = best.len() * 100 / n;
    if coverage < COVERAGE_TARGET_PERCENT {
        let refined = refine_endpoints(graph, &best, deadline);
        proof {
            lemma_path_len(adj, refined@);
        }
        let refined_coverage = refined.len() * 100 / n;
        best = refined;
        if refined_coverage >= coverage + 1 {
            let trimmed = trim_ends(&best);
            proof {
                if best@.len() > 2 {
                    lemma_subpath(adj, best@, 1, best@.len() - 1);
                }
            }
            let again = refine_endpoints(graph, &trimmed, deadline);
            if again.len() > best.len() {
                best = again;
            }
        }
    }
    proof {
        if deadline.is_unlimited() && n <= START_CANDIDATE_TARGET {
            assert forall|q: Seq<u32>| is_path(adj, q) && q.len() >= 1 implies #[trigger] reached_or_cut(
                adj,
                fv,
                nfv,
                n as int,
                q,
                best@.len() as int,
            ) by {
                assert(reached_or_cut(adj, fv, nfv, n as int, q, searched));
                if q.len() > searched {
                    lemma_cut_mono(adj, fv, nfv, n as int, q, 1, 1, searched, best@.len() as int);
                }
            }
        }
    }
    best
}

} // verus!
