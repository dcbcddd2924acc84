//! Bounded undirected graph over dense node ids with ordered neighbor lists.
use vstd::prelude::*;
use crate::bitset::MAX_NODE_COUNT;

verus! {

/// Most neighbors a node can hold.
pub const MAX_DEGREE: usize = 8;

/// Node id to neighbor row, in insertion order; the hasher takes a node id
/// as its own hash.
pub type AdjacencyMap = heapless::IndexMap<
    u32,
    heapless::Vec<u32, 8>,
    hash32::BuildHasherDefault<nohash_hasher::NoHashHasher<u32>>,
    2048,
>;

#[verifier::external_type_specification]
#[verifier::external_body]
#[verifier::reject_recursive_types(K)]
#[verifier::reject_recursive_types(V)]
#[verifier::reject_recursive_types(S)]
pub struct ExIndexMap<K, V, S, const N: usize>(heapless::IndexMap<K, V, S, N>);

#[verifier::external_type_specification]
#[verifier::external_body]
#[verifier::reject_recursive_types(T)]
pub struct ExHeaplessVec<T, const N: usize>(heapless::Vec<T, N>);

#[verifier::external_type_specification]
#[verifier::external_body]
#[verifier::reject_recursive_types(H)]
pub struct ExBuildHasherDefault<H>(hash32::BuildHasherDefault<H>);

#[verifier::external_type_specification]
#[verifier::external_body]
#[verifier::reject_recursive_types(T)]
pub struct ExNoHashHasher<T>(nohash_hasher::NoHashHasher<T>);

/// The keys of an adjacency map, in insertion order.
pub uninterp spec fn map_keys(m: AdjacencyMap) -> Seq<u32>;

/// The neighbor row of each key of an adjacency map, as its items in order.
pub uninterp spec fn map_rows(m: AdjacencyMap) -> Map<u32, Seq<u32>>;

/// Relies on heapless::IndexMap::new: a new map holds no entry.
#[verifier::external_body]
fn map_new() -> (r: AdjacencyMap)
    ensures
        map_keys(r) == Seq::<u32>::empty(),
        map_rows(r).dom() == Set::<u32>::empty(),
{
    heapless::IndexMap::new()
}

/// Relies on heapless::IndexMap::len: the number of entries.
#[verifier::external_body]
fn map_len(m: &AdjacencyMap) -> (r: usize)
    ensures
        r == map_keys(*m).len(),
{
    m.len()
}

/// Relies on heapless::IndexMap::insert, given an empty heapless::Vec: a key
/// not yet present is appended with an empty row while fewer than 2048
/// entries are held; with 2048 the insert fails and the map is unchanged.
#[verifier::external_body]
fn map_insert_empty(m: &mut AdjacencyMap, k: u32) -> (ok: bool)
    requires
        !map_rows(*old(m)).dom().contains(k),
    ensures
        ok == (map_keys(*old(m)).len() < 2048),
        ok ==> map_keys(*final(m)) == map_keys(*old(m)).push(k) && map_rows(*final(m)) == map_rows(
            *old(m),
        ).insert(k, Seq::<u32>::empty()),
        !ok ==> map_keys(*final(m)) == map_keys(*old(m)) && map_rows(*final(m)) == map_rows(*old(m)),
{
    m.insert(k, heapless::Vec::new()).is_ok()
}

/// Relies on heapless::IndexMap::get (with heapless::Vec::as_slice to copy the
/// row out): the row of `k`, when `k` is a key.
#[verifier::external_body]
fn map_row(m: &AdjacencyMap, k: u32) -> (r: Option<Vec<u32>>)
    ensures
        r is Some <==> map_rows(*m).dom().contains(k),
        r matches Some(v) ==> v@ == map_rows(*m)[k],
{
    match m.get(&k) {
        Some(row) => Some(row.as_slice().to_vec()),
        None => None,
    }
}

/// Relies on heapless::IndexMap::get_mut and heapless::Vec::push: the row of
/// `k` gains `n` at its end when it holds fewer than 8 items; with 8 the push
/// fails and the row is unchanged.
#[verifier::external_body]
fn map_push(m: &mut AdjacencyMap, k: u32, n: u32) -> (ok: bool)
    requires
        map_rows(*old(m)).dom().contains(k),
    ensures
        map_keys(*final(m)) == map_keys(*old(m)),
        ok == (map_rows(*old(m))[k].len() < 8),
        ok ==> map_rows(*final(m)) == map_rows(*old(m)).insert(k, map_rows(*old(m))[k].push(n)),
        !ok ==> map_rows(*final(m)) == map_rows(*old(m)),
{
    match m.get_mut(&k) {
        Some(row) => row.push(n).is_ok(),
        None => false,
    }
}

/// Whether `x` occurs in `s`.
pub fn contains_id(s: &Vec<u32>, x: u32) -> (r: bool)
    ensures
        r == s@.contains(x),
{
    let mut i: usize = 0;
    while i < s.len()
        invariant
            i <= s.len(),
            forall|j: int| 0 <= j < i ==> s@[j] != x,
        decreases s.len() - i,
    {
        if s[i] == x {
            return true;
        }
        i = i + 1;
    }
    false
}

/// Why a graph operation was refused.
#[derive(Clone, Copy, Debug, PartialEq, Eq, Structural)]
pub enum GraphError {
    /// The node count or a node's degree would exceed its fixed capacity.
    CapacityExceeded,
    /// An edge names a node id that the graph does not hold.
    UnknownNode,
    /// Neighbor lists that are not those of a simple undirected graph.
    MalformedAdjacency,
}

/// Whether `u`–`v` is an edge of the adjacency `adj`.
pub open spec fn has_edge(adj: Seq<Seq<u32>>, u: int, v: int) -> bool {
    0 <= u < adj.len() && 0 <= v < adj.len() && adj[u].contains(v as u32)
}

/// Structural invariant of an adjacency: bounded size and degree, neighbor ids
/// in range, no duplicates, no self-loops, and symmetry.
pub open spec fn adj_wf(adj: Seq<Seq<u32>>) -> bool {
    &&& adj.len() <= MAX_NODE_COUNT
    &&& forall|u: int| 0 <= u < adj.len() ==> #[trigger] adj[u].len() <= MAX_DEGREE
    &&& forall|u: int| 0 <= u < adj.len() ==> #[trigger] adj[u].no_duplicates()
    &&& forall|u: int, i: int|
        0 <= u < adj.len() && 0 <= i < adj[u].len() ==> (#[trigger] adj[u][i] as int) < adj.len()
            && adj[u][i] as int != u
    &&& forall|u: int, v: int| #[trigger] has_edge(adj, u, v) ==> has_edge(adj, v, u)
}

/// What `add_edge(from, to)` returns on the adjacency `adj`.
pub open spec fn edge_outcome(adj: Seq<Seq<u32>>, from: u32, to: u32) -> Result<(), GraphError> {
    if from as int >= adj.len() || to as int >= adj.len() {
        Err(GraphError::UnknownNode)
    } else if from == to || has_edge(adj, from as int, to as int) {
        Ok(())
    } else if adj[from as int].len() >= MAX_DEGREE || adj[to as int].len() >= MAX_DEGREE {
        Err(GraphError::CapacityExceeded)
    } else {
        Ok(())
    }
}

/// The adjacency after a successful `add_edge(from, to)`: each endpoint gains
/// the other at the end of its list unless the edge is already there; a
/// self-loop request changes nothing.
pub open spec fn with_edge(adj: Seq<Seq<u32>>, from: u32, to: u32) -> Seq<Seq<u32>> {
    if from == to || has_edge(adj, from as int, to as int) {
        adj
    } else {
        adj.update(from as int, adj[from as int].push(to)).update(
            to as int,
            adj[to as int].push(from),
        )
    }
}

/// The neighbor lists held in `rows`, as sequences.
pub open spec fn rows_view(rows: Seq<Vec<u32>>) -> Seq<Seq<u32>> {
    rows.map_values(|r: Vec<u32>| r@)
}

/// An undirected graph on the node ids `0..node_count()`. Each node keeps an
/// ordered neighbor list; the order encodes the clockwise convention used by
/// face tracing.
pub struct Graph {
    adjacency: AdjacencyMap,
}

/// The keys of a map over `n` dense node ids: `0, 1, ..., n - 1` in order,
/// and nothing else.
pub open spec fn dense_keys(keys: Seq<u32>, rows: Map<u32, Seq<u32>>) -> bool {
    &&& keys.len() <= MAX_NODE_COUNT
    &&& keys == Seq::new(keys.len(), |i: int| i as u32)
    &&& forall|k: u32| #[trigger] rows.dom().contains(k) <==> (k as int) < keys.len()
}

impl Graph {
    /// The neighbor list of each node, indexed by node id.
    pub closed spec fn adj(&self) -> Seq<Seq<u32>> {
        Seq::new(map_keys(self.adjacency).len(), |i: int| map_rows(self.adjacency)[i as u32])
    }

    /// The map holds exactly the node ids `0..node_count()`.
    pub closed spec fn dense(&self) -> bool {
        dense_keys(map_keys(self.adjacency), map_rows(self.adjacency))
    }

    pub open spec fn wf(&self) -> bool {
        self.dense() && adj_wf(self.adj())
    }

    /// A graph with no nodes.
    pub fn new() -> (g: Self)
        ensures
            g.wf(),
            g.adj() == Seq::<Seq<u32>>::empty(),
    {
        let g = Graph { adjacency: map_new() };
        assert(g.adj() =~= Seq::<Seq<u32>>::empty());
        assert(map_keys(g.adjacency) =~= Seq::new(0, |i: int| i as u32));
        g
    }

    /// Appends a node without neighbors to a dense graph with room left.
    fn push_empty(&mut self)
        requires
            old(self).dense(),
            old(self).adj().len() < MAX_NODE_COUNT,
        ensures
            final(self).dense(),
            final(self).adj() == old(self).adj().push(Seq::<u32>::empty()),
    {
        let ghost before = self.adj();
        let ghost keys0 = map_keys(self.adjacency);
        let n = map_len(&self.adjacency);
        let ok = map_insert_empty(&mut self.adjacency, n as u32);
        assert(ok);
        assert(map_keys(self.adjacency) =~= Seq::new((n + 1) as nat, |i: int| i as u32));
        assert forall|k: u32| #[trigger] map_rows(self.adjacency).dom().contains(k) <==> (k as int) < n + 1 by {
            if k as int == n {
            } else {
                assert(keys0.len() == n);
            }
        }
        assert(self.adj() =~= before.push(Seq::<u32>::empty())) by {
            assert forall|i: int| 0 <= i < n implies #[trigger] self.adj()[i] == before[i] by {
                assert(i as u32 != n as u32);
            }
        }
    }

    /// Appends `x` to the row of node `u` of a dense graph, when that row has
    /// room.
    fn push_neighbor(&mut self, u: u32, x: u32)
        requires
            old(self).dense(),
            (u as int) < old(self).adj().len(),
            old(self).adj()[u as int].len() < MAX_DEGREE,
        ensures
            final(self).dense(),
            final(self).adj() == old(self).adj().update(u as int, old(self).adj()[u as int].push(x)),
    {
        let ghost before = self.adj();
        let ok = map_push(&mut self.adjacency, u, x);
        assert(ok);
        assert(self.adj() =~= before.update(u as int, before[u as int].push(x))) by {
            assert forall|i: int| 0 <= i < before.len() && i != u implies #[trigger] self.adj()[i] == before[i] by {
                assert(i as u32 != u);
            }
        }
    }

    /// A graph whose neighbor lists are `rows`, in the given order. Fails
    /// with `CapacityExceeded` when there are more than `MAX_NODE_COUNT` rows
    /// or a row is longer than `MAX_DEGREE`, and with `MalformedAdjacency`
    /// when the rows are not those of a simple undirected graph.
    pub fn from_rows(rows: &Vec<Vec<u32>>) -> (r: Result<Graph, GraphError>)
        ensures
            r is Ok <==> adj_wf(rows_view(rows@)),
            r matches Ok(g) ==> g.wf() && g.adj() == rows_view(rows@),
            r == Err::<Graph, GraphError>(GraphError::CapacityExceeded) <==> (rows@.len() > MAX_NODE_COUNT
                || exists|u: int| 0 <= u < rows@.len() && #[trigger] rows@[u]@.len() > MAX_DEGREE),
    {
        let ghost adj = rows_view(rows@);
        let n = rows.len();
        if n > MAX_NODE_COUNT {
            return Err(GraphError::CapacityExceeded);
        }
        let mut u: usize = 0;
        while u < n
            invariant
                n == rows@.len(),
                adj == rows_view(rows@),
                u <= n,
                forall|w: int| 0 <= w < u ==> #[trigger] rows@[w]@.len() <= MAX_DEGREE,
            decreases n - u,
        {
            if rows[u].len() > MAX_DEGREE {
                assert(adj[u as int] == rows@[u as int]@);
                return Err(GraphError::CapacityExceeded);
            }
            u = u + 1;
        }
        assert(forall|w: int| 0 <= w < n ==> #[trigger] adj[w] == rows@[w]@);
        let mut u: usize = 0;
        while u < n
            invariant
                n == rows@.len(),
                n <= MAX_NODE_COUNT,
                adj == rows_view(rows@),
                u <= n,
                forall|w: int| 0 <= w < n ==> #[trigger] adj[w] == rows@[w]@,
                forall|w: int| 0 <= w < n ==> #[trigger] adj[w].len() <= MAX_DEGREE,
                forall|w: int| 0 <= w < n ==> #[trigger] rows@[w]@.len() <= MAX_DEGREE,
                forall|w: int| 0 <= w < u ==> #[trigger] adj[w].no_duplicates(),
                forall|w: int, i: int|
                    0 <= w < u && 0 <= i < adj[w].len() ==> (#[trigger] adj[w][i] as int) < n && adj[w][i]
                        as int != w,
                forall|w: int, v: int| 0 <= w < u && #[trigger] has_edge(adj, w, v) ==> has_edge(adj, v, w),
            decreases n - u,
        {
            let row = &rows[u];
            let mut k: usize = 0;
            while k < row.len()
                invariant
                    n == rows@.len(),
                    n <= MAX_NODE_COUNT,
                    adj == rows_view(rows@),
                    u < n,
                    row@ == adj[u as int],
                    k <= row@.len(),
                    forall|w: int| 0 <= w < n ==> #[trigger] adj[w] == rows@[w]@,
                    forall|w: int| 0 <= w < n ==> #[trigger] rows@[w]@.len() <= MAX_DEGREE,
                    forall|i: int, j: int| 0 <= i < j < k ==> row@[i] != row@[j],
                    forall|i: int| 0 <= i < k ==> (#[trigger] row@[i] as int) < n && row@[i] as int != u,
                    forall|i: int| 0 <= i < k ==> adj[#[trigger] row@[i] as int].contains(u as u32),
                decreases row.len() - k,
            {
                let v = row[k];
                if v as usize >= n || v as usize == u {
                    proof {
                        assert(!adj_wf(adj)) by {
                            assert((adj[u as int][k as int] as int) >= n || adj[u as int][k as int] as int == u);
                        }
                    }
                    return Err(GraphError::MalformedAdjacency);
                }
                let mut j: usize = 0;
                while j < k
                    invariant
                        j <= k,
                        k < row@.len(),
                        u < n,
                        n == rows@.len(),
                        n <= MAX_NODE_COUNT,
                        adj == rows_view(rows@),
                        row@ == adj[u as int],
                        forall|w: int| 0 <= w < n ==> #[trigger] rows@[w]@.len() <= MAX_DEGREE,
                        v == row@[k as int],
                        forall|i: int| 0 <= i < j ==> row@[i] != v,
                    decreases k - j,
                {
                    if row[j] == v {
                        proof {
                            assert(adj[u as int][j as int] == adj[u as int][k as int]);
                            assert(!adj[u as int].no_duplicates());
                        }
                        return Err(GraphError::MalformedAdjacency);
                    }
                    j = j + 1;
                }
                if !contains_id(&rows[v as usize], u as u32) {
                    proof {
                        assert(has_edge(adj, u as int, v as int)) by {
                            assert(adj[u as int][k as int] == v);
                        }
                        assert(!has_edge(adj, v as int, u as int));
                    }
                    return Err(GraphError::MalformedAdjacency);
                }
                k = k + 1;
            }
            proof {
                assert forall|v: int| #[trigger] has_edge(adj, u as int, v) implies has_edge(adj, v, u as int) by {
                    let i = choose|i: int| 0 <= i < row@.len() && row@[i] == v as u32;
                    assert(adj[row@[i] as int].contains(u as u32));
                }
            }
            u = u + 1;
        }
        let mut g = Graph::new();
        let mut u: usize = 0;
        while u < n
            invariant
                n == rows@.len(),
                n <= MAX_NODE_COUNT,
                adj == rows_view(rows@),
                u <= n,
                g.dense(),
                g.adj().len() == u,
                forall|w: int| 0 <= w < n ==> #[trigger] adj[w] == rows@[w]@,
                forall|w: int| 0 <= w < n ==> #[trigger] adj[w].len() <= MAX_DEGREE,
                forall|w: int| 0 <= w < u ==> #[trigger] g.adj()[w] == adj[w],
            decreases n - u,
        {
            g.push_empty();
            let row = &rows[u];
            let mut k: usize = 0;
            while k < row.len()
                invariant
                    n == rows@.len(),
                    u < n,
                    row@ == adj[u as int],
                    row@.len() <= MAX_DEGREE,
                    k <= row@.len(),
                    g.dense(),
                    g.adj().len() == u + 1,
                    g.adj()[u as int] == row@.take(k as int),
                    forall|w: int| 0 <= w < u ==> #[trigger] g.adj()[w] == adj[w],
                decreases row.len() - k,
            {
                g.push_neighbor(u as u32, row[k]);
                assert(row@.take(k as int).push(row@[k as int]) =~= row@.take(k + 1));
                k = k + 1;
            }
            assert(row@.take(row@.len() as int) =~= row@);
            u = u + 1;
        }
        assert(g.adj() =~= adj);
        Ok(g)
    }

    /// Number of nodes.
    pub fn node_count(&self) -> (r: usize)
        ensures
            r == self.adj().len(),
    {
        map_len(&self.adjacency)
    }

    /// Adds a node without neighbors and returns its id, which is the old node
    /// count; fails when the graph already holds `MAX_NODE_COUNT` nodes.
    pub fn add_node(&mut self) -> (r: Result<u32, GraphError>)
        requires
            old(self).wf(),
        ensures
            final(self).wf(),
            old(self).adj().len() < MAX_NODE_COUNT ==> r == Ok::<u32, GraphError>(
                old(self).adj().len() as u32,
            ) && final(self).adj() == old(self).adj().push(Seq::<u32>::empty()),
            old(self).adj().len() >= MAX_NODE_COUNT ==> r == Err::<u32, GraphError>(
                GraphError::CapacityExceeded,
            ) && final(self).adj() == old(self).adj(),
    {
        let n = self.node_count();
        if n >= MAX_NODE_COUNT {
            return Err(GraphError::CapacityExceeded);
        }
        let ghost before = self.adj();
        self.push_empty();
        proof {
            let a = self.adj();
            assert forall|u: int, v: int| #[trigger] has_edge(a, u, v) implies has_edge(a, v, u) by {
                assert(u < n);
                assert(has_edge(before, u, v));
            }
        }
        Ok(n as u32)
    }

    /// Adds the undirected edge `from`–`to` to both neighbor lists. Adding an
    /// edge that is present, or a self-loop, changes nothing; a full neighbor
    /// list fails with `CapacityExceeded` and an unknown id with `UnknownNode`,
    /// leaving the graph unchanged.
    pub fn add_edge(&mut self, from: u32, to: u32) -> (r: Result<(), GraphError>)
        requires
            old(self).wf(),
        ensures
            final(self).wf(),
            r == edge_outcome(old(self).adj(), from, to),
            r is Ok ==> final(self).adj() == with_edge(old(self).adj(), from, to),
            r is Err ==> final(self).adj() == old(self).adj(),
    {
        let n = self.node_count();
        if from as usize >= n || to as usize >= n {
            return Err(GraphError::UnknownNode);
        }
        if from == to {
            return Ok(());
        }
        let ghost before = self.adj();
        let fr = self.get_neighbors(from);
        let tr = self.get_neighbors(to);
        if contains_id(&fr, to) {
            assert(has_edge(before, from as int, to as int));
            return Ok(());
        }
        if fr.len() >= MAX_DEGREE || tr.len() >= MAX_DEGREE {
            return Err(GraphError::CapacityExceeded);
        }
        proof {
            if tr@.contains(from) {
                assert(has_edge(before, to as int, from as int));
                assert(has_edge(before, from as int, to as int));
            }
        }
        self.push_neighbor(from, to);
        self.push_neighbor(to, from);
        let ghost after = before.update(from as int, before[from as int].push(to)).update(
            to as int,
            before[to as int].push(from),
        );
        assert(self.adj() =~= after);
        proof {
            assert forall|u: int| 0 <= u < after.len() implies #[trigger] after[u].no_duplicates() by {
                if u == from as int {
                    assert(after[u] == before[u].push(to));
                    assert forall|i: int, j: int| 0 <= i < j < after[u].len() implies after[u][i]
                        != after[u][j] by {
                        assert(before[u].no_duplicates());
                        if j == before[u].len() {
                            if before[u][i] == to {
                                assert(before[u].contains(to));
                            }
                        } else {
                            assert(after[u][i] == before[u][i] && after[u][j] == before[u][j]);
                        }
                    }
                } else if u == to as int {
                    assert forall|i: int, j: int| 0 <= i < j < after[u].len() implies after[u][i]
                        != after[u][j] by {
                        assert(before[u].no_duplicates());
                        if j == before[u].len() {
                            if before[u][i] == from {
                                assert(before[u].contains(from));
                            }
                        } else {
                            assert(after[u][i] == before[u][i] && after[u][j] == before[u][j]);
                        }
                    }
                }
            }
            assert forall|u: int, i: int|
                0 <= u < after.len() && 0 <= i < after[u].len() implies (
                #[trigger] after[u][i] as int) < after.len() && after[u][i] as int != u by {
                if u != from as int && u != to as int {
                    assert(after[u][i] == before[u][i]);
                } else if i < before[u].len() {
                    assert(after[u][i] == before[u][i]);
                }
            }
            assert forall|u: int, v: int| #[trigger] has_edge(after, u, v) implies has_edge(
                after,
                v,
                u,
            ) by {
                if (u == from as int && v == to as int) || (u == to as int && v == from as int) {
                    assert(after[v][after[v].len() - 1] == u as u32);
                } else {
                    let i = choose|i: int| 0 <= i < after[u].len() && after[u][i] == v as u32;
                    if u == from as int || u == to as int {
                        assert(i < before[u].len());
                        assert(before[u][i] == v as u32);
                    } else {
                        assert(before[u][i] == v as u32);
                    }
                    assert(has_edge(before, u, v));
                    assert(has_edge(before, v, u));
                    let k = choose|k: int| 0 <= k < before[v].len() && before[v][k] == u as u32;
                    assert(after[v][k] == u as u32);
                }
            }
        }
        Ok(())
    }

    /// The position of `arrived_from` in the neighbor list of `node`, plus
    /// one, modulo the degree: the index of the next neighbor clockwise.
    /// `None` when `arrived_from` is not a neighbor of `node`.
    pub fn next_clockwise_index(&self, node: u32, arrived_from: u32) -> (r: Option<usize>)
        requires
            self.wf(),
        ensures
            r is None <==> !has_edge(self.adj(), node as int, arrived_from as int),
            r matches Some(j) ==> exists|i: int|
                0 <= i < self.adj()[node as int].len() && #[trigger] self.adj()[node as int][i]
                    == arrived_from && j == (i + 1) % (self.adj()[node as int].len() as int),
            r matches Some(j) ==> j < self.adj()[node as int].len(),
    {
        let nb = self.get_neighbors(node);
        let ghost adj = self.adj();
        let mut i: usize = 0;
        while i < nb.len()
            invariant
                i <= nb.len(),
                self.wf(),
                adj == self.adj(),
                (node as int) < adj.len() ==> nb@ == adj[node as int],
                (node as int) >= adj.len() ==> nb@.len() == 0,
                forall|k: int| 0 <= k < i ==> nb@[k] != arrived_from,
            decreases nb.len() - i,
        {
            if nb[i] == arrived_from {
                proof {
                    assert((node as int) < adj.len());
                    assert((adj[node as int][i as int] as int) < adj.len());
                }
                assert(has_edge(adj, node as int, arrived_from as int));
                return Some((i + 1) % nb.len());
            }
            i = i + 1;
        }
        proof {
            if has_edge(adj, node as int, arrived_from as int) {
                let k = choose|k: int| 0 <= k < nb@.len() && nb@[k] == arrived_from;
            }
        }
        None
    }

    /// The neighbor of `node` that follows `arrived_from` in cyclic neighbor
    /// order; `None` when `arrived_from` is not a neighbor of `node`.
    pub fn next_clockwise_neighbor(&self, node: u32, arrived_from: u32) -> (r: Option<u32>)
        requires
            self.wf(),
        ensures
            r is None <==> !has_edge(self.adj(), node as int, arrived_from as int),
            r matches Some(w) ==> exists|i: int|
                0 <= i < self.adj()[node as int].len() && #[trigger] self.adj()[node as int][i]
                    == arrived_from && w == self.adj()[node as int][(i + 1) % (self.adj()[node as int].len() as int)],
    {
        match self.next_clockwise_index(node, arrived_from) {
            None => None,
            Some(j) => {
                let nb = self.get_neighbors(node);
                Some(nb[j])
            },
        }
    }

    /// The neighbors of `node` in order; empty for an id the graph does not hold.
    pub fn get_neighbors(&self, node: u32) -> (r: Vec<u32>)
        requires
            self.wf(),
        ensures
            (node as int) < self.adj().len() ==> r@ == self.adj()[node as int],
            (node as int) >= self.adj().len() ==> r@ == Seq::<u32>::empty(),
    {
        match map_row(&self.adjacency, node) {
            Some(v) => v,
            None => Vec::new(),
        }
    }
}

} // verus!
