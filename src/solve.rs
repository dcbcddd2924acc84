//! Solving components given by node names: graph construction, choice of
//! search, post-passes and validation.
use vstd::prelude::*;
use crate::bitset::MAX_NODE_COUNT;
use crate::clock::Deadline;
use crate::exact::{exact_longest_path, low_degree_facts, low_degree_upto, start_candidates};
use crate::faces::find_faces;
use crate::graph::{adj_wf, has_edge, rows_view, with_edge, Graph, GraphError, MAX_DEGREE};
use crate::heuristic::{heuristic_longest_path, COVERAGE_TARGET_PERCENT};
use crate::improve::{improve_path, Rng};
use crate::labels::{clockwise_key, label_of, name_label, parse_label, sort_clockwise};
use crate::path::{is_path, lemma_path_len, validate_path};
use vstd::set_lib::{lemma_int_range, lemma_len_subset, set_int_range};
use vstd::string::StringSliceAdditionalSpecFns;

verus! {

broadcast use vstd::seq_lib::to_multiset_contains;

/// The entry for node `a` of `comp` lists `b` among its neighbors.
pub open spec fn lists(comp: Seq<(String, Vec<String>)>, a: Seq<char>, b: Seq<char>) -> bool {
    exists|i: int, j: int|
        0 <= i < comp.len() && 0 <= j < comp[i].1@.len() && #[trigger] comp[i].0@ == a
            && #[trigger] comp[i].1@[j]@ == b
}

/// `a`–`b` is an edge of the component: two different names, one listed as
/// a neighbor of the other.
pub open spec fn component_edge(comp: Seq<(String, Vec<String>)>, a: Seq<char>, b: Seq<char>) -> bool {
    a != b && (lists(comp, a, b) || lists(comp, b, a))
}

/// `a` occurs in `comp`, as a node or as a neighbor.
pub open spec fn mentioned(comp: Seq<(String, Vec<String>)>, a: Seq<char>) -> bool {
    exists|i: int| 0 <= i < comp.len() && (#[trigger] comp[i].0@ == a || exists|j: int| 0 <= j < comp[i].1@.len() && #[trigger] comp[i].1@[j]@ == a)
}

/// The names of `s` are pairwise different.
pub open spec fn distinct_names(s: Seq<String>) -> bool {
    forall|i: int, j: int| 0 <= i < j < s.len() ==> (#[trigger] s[i])@ != (#[trigger] s[j])@
}

/// A returned path of names: pairwise different, each consecutive pair an
/// edge of the component.
pub open spec fn is_name_path(comp: Seq<(String, Vec<String>)>, p: Seq<String>) -> bool {
    &&& distinct_names(p)
    &&& forall|i: int| 0 <= i < p.len() - 1 ==> component_edge(comp, (#[trigger] p[i])@, p[i + 1]@)
}

/// What solving a component yields: a path of names of the component,
/// non-empty exactly when the component has an entry; or `CapacityExceeded`, exactly for a component
/// with more than `MAX_NODE_COUNT` names or a name with more than
/// `MAX_DEGREE` neighbors.
pub open spec fn solution_ok(comp: Seq<(String, Vec<String>)>, r: Result<Vec<String>, GraphError>) -> bool {
    &&& (r is Err <==> over_capacity(comp))
    &&& match r {
        Ok(p) => is_name_path(comp, p@) && (forall|i: int| 0 <= i < p@.len() ==> mentioned(comp, (#[trigger] p@[i])@))
            && (p@.len() >= 1 <==> comp.len() > 0),
        Err(e) => e == GraphError::CapacityExceeded,
    }
}

/// `s` lists more than `MAX_NODE_COUNT` different names of the component.
pub open spec fn names_witness(comp: Seq<(String, Vec<String>)>, s: Seq<String>) -> bool {
    &&& s.len() > MAX_NODE_COUNT
    &&& distinct_names(s)
    &&& forall|i: int| 0 <= i < s.len() ==> mentioned(comp, (#[trigger] s[i])@)
}

/// `s` lists more than `MAX_DEGREE` different neighbors of `a`.
pub open spec fn degree_witness(comp: Seq<(String, Vec<String>)>, a: Seq<char>, s: Seq<String>) -> bool {
    &&& s.len() > MAX_DEGREE
    &&& distinct_names(s)
    &&& forall|i: int| 0 <= i < s.len() ==> component_edge(comp, a, (#[trigger] s[i])@)
}

/// The component has more than `MAX_NODE_COUNT` different names, or a name
/// with more than `MAX_DEGREE` different neighbors.
pub open spec fn over_capacity(comp: Seq<(String, Vec<String>)>) -> bool {
    (exists|s: Seq<String>| #[trigger] names_witness(comp, s))
        || (exists|a: Seq<char>, s: Seq<String>| #[trigger] degree_witness(comp, a, s))
}

/// `s` lists three different neighbors of `a`.
pub open spec fn three_neighbors(comp: Seq<(String, Vec<String>)>, a: Seq<char>, s: Seq<String>) -> bool {
    &&& s.len() == 3
    &&& distinct_names(s)
    &&& forall|i: int| 0 <= i < s.len() ==> component_edge(comp, a, (#[trigger] s[i])@)
}

/// `a` occurs in the component and has at most two different neighbors.
pub open spec fn low_degree_name(comp: Seq<(String, Vec<String>)>, a: Seq<char>) -> bool {
    mentioned(comp, a) && !exists|s: Seq<String>| #[trigger] three_neighbors(comp, a, s)
}

/// At least two different names of the component have at most two
/// neighbors each.
pub open spec fn two_low_degree_names(comp: Seq<(String, Vec<String>)>) -> bool {
    exists|x: Seq<char>, y: Seq<char>|
        x != y && #[trigger] low_degree_name(comp, x) && #[trigger] low_degree_name(comp, y)
}

/// A name where the exact search starts: one with at most two neighbors when
/// there are two such names, and otherwise any name of the component.
pub open spec fn start_name(comp: Seq<(String, Vec<String>)>, a: Seq<char>) -> bool {
    mentioned(comp, a) && (low_degree_name(comp, a) || !two_low_degree_names(comp))
}

/// At most `m` different names occur in the component.
pub open spec fn at_most_names(comp: Seq<(String, Vec<String>)>, m: int) -> bool {
    forall|s: Seq<String>|
        #[trigger] distinct_names(s) && (forall|i: int| 0 <= i < s.len() ==> mentioned(comp, (#[trigger] s[i])@))
            ==> s.len() <= m
}

/// `p` is at least as long as every path of names of the component that
/// begins at a start name.
pub open spec fn longest_from_starts(comp: Seq<(String, Vec<String>)>, p: Seq<String>) -> bool {
    forall|q: Seq<String>|
        #[trigger] is_name_path(comp, q) && q.len() >= 1 && start_name(comp, q[0]@) ==> q.len() <= p.len()
}

/// `s` is one of `names`.
pub open spec fn has_name(names: Seq<String>, s: Seq<char>) -> bool {
    exists|k: int| 0 <= k < names.len() && (#[trigger] names[k])@ == s
}

/// The index of the name `s` in `names`.
fn find_name(names: &Vec<String>, s: &String) -> (r: Option<usize>)
    ensures
        r matches Some(i) ==> i < names@.len() && names@[i as int]@ == s@,
        r is None ==> forall|i: int| 0 <= i < names@.len() ==> (#[trigger] names@[i])@ != s@,
{
    let mut i: usize = 0;
    while i < names.len()
        invariant
            i <= names@.len(),
            forall|k: int| 0 <= k < i ==> (#[trigger] names@[k])@ != s@,
        decreases names.len() - i,
    {
        if names[i] == *s {
            return Some(i);
        }
        i = i + 1;
    }
    None
}

/// Appends `s` to `names` unless a name equal to it is already there.
fn intern(names: &mut Vec<String>, s: &String)
    requires
        distinct_names(old(names)@),
    ensures
        distinct_names(final(names)@),
        final(names)@.len() <= old(names)@.len() + 1,
        final(names)@.len() >= old(names)@.len(),
        forall|i: int| 0 <= i < old(names)@.len() ==> #[trigger] final(names)@[i] == old(names)@[i],
        has_name(final(names)@, s@),
        forall|i: int| 0 <= i < final(names)@.len() ==> (#[trigger] final(names)@[i])@ == s@ || exists|k: int| 0 <= k < old(names)@.len() && old(names)@[k] == final(names)@[i],
{
    match find_name(names, s) {
        Some(i) => {},
        None => {
            let c = s.clone();
            names.push(c);
            assert(names@[names@.len() - 1]@ == s@);
        },
    }
}

/// The names of the component, each once: first the nodes in entry order,
/// then the neighbors not seen before, in order of appearance.
pub fn component_names(comp: &Vec<(String, Vec<String>)>) -> (r: Vec<String>)
    ensures
        distinct_names(r@),
        forall|k: int| 0 <= k < r@.len() ==> mentioned(comp@, (#[trigger] r@[k])@),
        forall|i: int| 0 <= i < comp@.len() ==> has_name(r@, comp@[i].0@),
        forall|i: int, j: int| 0 <= i < comp@.len() && 0 <= j < comp@[i].1@.len() ==> has_name(r@, comp@[i].1@[j]@),
{
    let mut names: Vec<String> = Vec::new();
    let mut i: usize = 0;
    while i < comp.len()
        invariant
            i <= comp@.len(),
            distinct_names(names@),
            forall|k: int| 0 <= k < names@.len() ==> mentioned(comp@, (#[trigger] names@[k])@),
            forall|a: int| 0 <= a < i ==> has_name(names@, comp@[a].0@),
        decreases comp.len() - i,
    {
        let ghost before = names@;
        intern(&mut names, &comp[i].0);
        proof {
            assert forall|k: int| 0 <= k < names@.len() implies mentioned(comp@, (#[trigger] names@[k])@) by {
                if names@[k]@ == comp@[i as int].0@ {
                    assert(comp@[i as int].0@ == names@[k]@);
                } else {
                    let m = choose|m: int| 0 <= m < before.len() && before[m] == names@[k];
                    assert(mentioned(comp@, before[m]@));
                }
            }
            assert forall|a: int| 0 <= a < i + 1 implies has_name(names@, comp@[a].0@) by {
                if a < i {
                    let k = choose|k: int| 0 <= k < before.len() && (#[trigger] before[k])@ == comp@[a].0@;
                    assert(names@[k] == before[k]);
                }
            }
        }
        i = i + 1;
    }
    assert(i == comp@.len());
    assert forall|a: int| 0 <= a < comp@.len() implies has_name(names@, comp@[a].0@) by {
        assert(a < i);
    }
    let mut i: usize = 0;
    while i < comp.len()
        invariant
            i <= comp@.len(),
            distinct_names(names@),
            forall|k: int| 0 <= k < names@.len() ==> mentioned(comp@, (#[trigger] names@[k])@),
            forall|a: int| 0 <= a < comp@.len() ==> has_name(names@, comp@[a].0@),
            forall|a: int, j: int| 0 <= a < i && 0 <= j < comp@[a].1@.len() ==> has_name(names@, comp@[a].1@[j]@),
        decreases comp.len() - i,
    {
        let nbs = &comp[i].1;
        let mut j: usize = 0;
        while j < nbs.len()
            invariant
                i < comp@.len(),
                nbs@ == comp@[i as int].1@,
                j <= nbs@.len(),
                distinct_names(names@),
                forall|k: int| 0 <= k < names@.len() ==> mentioned(comp@, (#[trigger] names@[k])@),
                forall|a: int| 0 <= a < comp@.len() ==> has_name(names@, comp@[a].0@),
                forall|a: int, b: int| (0 <= a < i && 0 <= b < comp@[a].1@.len()) || (a == i && 0 <= b < j) ==> has_name(names@, comp@[a].1@[b]@),
            decreases nbs.len() - j,
        {
            let ghost before = names@;
            intern(&mut names, &nbs[j]);
            proof {
                assert forall|k: int| 0 <= k < names@.len() implies mentioned(comp@, (#[trigger] names@[k])@) by {
                    if names@[k]@ == nbs@[j as int]@ {
                        assert(comp@[i as int].1@[j as int]@ == names@[k]@);
                    } else {
                        let m = choose|m: int| 0 <= m < before.len() && before[m] == names@[k];
                        assert(mentioned(comp@, before[m]@));
                    }
                }
                assert forall|a: int| 0 <= a < comp@.len() implies has_name(names@, comp@[a].0@) by {
                    let k = choose|k: int| 0 <= k < before.len() && (#[trigger] before[k])@ == comp@[a].0@;
                    assert(names@[k] == before[k]);
                }
                assert forall|a: int, b: int| (0 <= a < i && 0 <= b < comp@[a].1@.len()) || (a == i && 0 <= b < j + 1) implies has_name(names@, comp@[a].1@[b]@) by {
                    if !(a == i && b == j) {
                        let k = choose|k: int| 0 <= k < before.len() && (#[trigger] before[k])@ == comp@[a].1@[b]@;
                        assert(names@[k] == before[k]);
                    }
                }
            }
            j = j + 1;
        }
        i = i + 1;
    }
    names
}

/// Every neighbor entry of `adj` is an edge of the component between the
/// names of its two nodes, where node `u` is named `names[u]`.
pub open spec fn sound_for(comp: Seq<(String, Vec<String>)>, names: Seq<String>, adj: Seq<Seq<u32>>) -> bool {
    &&& adj.len() == names.len()
    &&& forall|u: int, k: int|
        0 <= u < adj.len() && 0 <= k < adj[u].len() ==> component_edge(
            comp,
            names[u]@,
            names[#[trigger] adj[u][k] as int]@,
        )
}

proof fn lemma_degree_witness(
    comp: Seq<(String, Vec<String>)>,
    names: Seq<String>,
    adj: Seq<Seq<u32>>,
    w: int,
    x: int,
)
    requires
        adj_wf(adj),
        sound_for(comp, names, adj),
        distinct_names(names),
        0 <= w < adj.len(),
        0 <= x < adj.len(),
        adj[w].len() >= MAX_DEGREE,
        !adj[w].contains(x as u32),
        component_edge(comp, names[w]@, names[x]@),
    ensures
        over_capacity(comp),
{
    let row = adj[w];
    let s = Seq::new(row.len(), |k: int| names[row[k] as int]).push(names[x]);
    assert forall|i: int| 0 <= i < s.len() implies component_edge(comp, names[w]@, (#[trigger] s[i])@) by {
        if i < row.len() {
            assert(component_edge(comp, names[w]@, names[adj[w][i] as int]@));
        }
    }
    assert forall|i: int, j: int| 0 <= i < j < s.len() implies (#[trigger] s[i])@ != (#[trigger] s[j])@ by {
        assert((row[i] as int) < adj.len());
        if j < row.len() {
            assert((row[j] as int) < adj.len());
            assert(row.no_duplicates());
            assert(row[i] != row[j]);
            if row[i] < row[j] {
                assert(names[row[i] as int]@ != names[row[j] as int]@);
            } else {
                assert(names[row[j] as int]@ != names[row[i] as int]@);
            }
        } else {
            assert(row[i] != x as u32);
            if (row[i] as int) < x {
                assert(names[row[i] as int]@ != names[x]@);
            } else {
                assert(names[x]@ != names[row[i] as int]@);
            }
        }
    }
    assert(degree_witness(comp, names[w]@, s));
}

/// Rows that hold the same nodes as those of a well-formed adjacency, each
/// in some order, form a well-formed adjacency with the same edges.
proof fn lemma_permuted_rows(adj: Seq<Seq<u32>>, adj2: Seq<Seq<u32>>)
    requires
        adj_wf(adj),
        adj2.len() == adj.len(),
        forall|u: int| 0 <= u < adj.len() ==> (#[trigger] adj2[u]).to_multiset() == adj[u].to_multiset(),
    ensures
        adj_wf(adj2),
        forall|u: int, v: u32| 0 <= u < adj.len() ==> (#[trigger] adj2[u].contains(v) <==> adj[u].contains(v)),
{
    broadcast use vstd::seq_lib::to_multiset_len;
    assert forall|u: int, v: u32| 0 <= u < adj.len() implies (#[trigger] adj2[u].contains(v) <==> adj[u].contains(v)) by {
        assert(adj2[u].to_multiset().count(v) == adj[u].to_multiset().count(v));
    }
    assert forall|u: int| 0 <= u < adj2.len() implies #[trigger] adj2[u].len() <= MAX_DEGREE by {
        assert(adj2[u].to_multiset().len() == adj[u].to_multiset().len());
    }
    assert forall|u: int| 0 <= u < adj2.len() implies #[trigger] adj2[u].no_duplicates() by {
        adj[u].lemma_multiset_has_no_duplicates();
        adj2[u].lemma_multiset_has_no_duplicates_conv();
    }
    assert forall|u: int, i: int|
        0 <= u < adj2.len() && 0 <= i < adj2[u].len() implies (#[trigger] adj2[u][i] as int) < adj2.len()
            && adj2[u][i] as int != u by {
        assert(adj2[u].contains(adj2[u][i]));
        assert(adj[u].contains(adj2[u][i]));
        let k = choose|k: int| 0 <= k < adj[u].len() && adj[u][k] == adj2[u][i];
        assert((adj[u][k] as int) < adj.len());
    }
    assert forall|u: int, v: int| #[trigger] has_edge(adj2, u, v) implies has_edge(adj2, v, u) by {
        assert(has_edge(adj, u, v));
        assert(has_edge(adj, v, u));
        assert(adj2[v].contains(u as u32) <==> adj[v].contains(u as u32));
    }
}

/// The entry `p` lists `y` as its `q`-th neighbor, with `x` its own name, for
/// some entry before `i`, or the entry `i` itself and `q` before `j`.
pub open spec fn listed_upto(comp: Seq<(String, Vec<String>)>, i: int, j: int, x: Seq<char>, y: Seq<char>) -> bool {
    exists|p: int, q: int|
        0 <= p < comp.len() && 0 <= q < comp[p].1@.len() && (p < i || (p == i && q < j))
            && #[trigger] comp[p].0@ == x && #[trigger] comp[p].1@[q]@ == y
}

/// Every pair listed up to entry `i`, neighbor `j`, of two different names is
/// an edge of `adj`.
pub open spec fn complete_upto(
    comp: Seq<(String, Vec<String>)>,
    names: Seq<String>,
    adj: Seq<Seq<u32>>,
    i: int,
    j: int,
) -> bool {
    forall|a: int, b: int|
        0 <= a < names.len() && 0 <= b < names.len() && a != b && #[trigger] listed_upto(
            comp,
            i,
            j,
            names[a]@,
            names[b]@,
        ) ==> has_edge(adj, a, b)
}

proof fn lemma_same_name(names: Seq<String>, a: int, b: int)
    requires
        distinct_names(names),
        0 <= a < names.len(),
        0 <= b < names.len(),
        names[a]@ == names[b]@,
    ensures
        a == b,
{
    if a < b {
        assert(names[a]@ != names[b]@);
    } else if b < a {
        assert(names[b]@ != names[a]@);
    }
}

proof fn lemma_with_edge_keeps(adj: Seq<Seq<u32>>, u: u32, v: u32, a: int, b: int)
    requires
        (u as int) < adj.len(),
        (v as int) < adj.len(),
        has_edge(adj, a, b),
    ensures
        has_edge(with_edge(adj, u, v), a, b),
{
    let adj1 = with_edge(adj, u, v);
    if !(u == v || has_edge(adj, u as int, v as int)) {
        let k = choose|k: int| 0 <= k < adj[a].len() && adj[a][k] == b as u32;
        assert(adj1[a][k] == b as u32);
    }
}

proof fn lemma_injective_bound(t: Seq<int>, m: int)
    requires
        0 <= m,
        t.no_duplicates(),
        forall|i: int| 0 <= i < t.len() ==> 0 <= #[trigger] t[i] < m,
    ensures
        t.len() <= m,
{
    if t.len() > 0 {
        assert(0 <= t[0] < m);
        t.unique_seq_to_set();
        lemma_int_range(0, m);
        assert forall|x: int| t.to_set().contains(x) implies set_int_range(0, m).contains(x) by {
            let i = choose|i: int| 0 <= i < t.len() && t[i] == x;
            assert(0 <= t[i] < m);
        }
        lemma_len_subset(t.to_set(), set_int_range(0, m));
    }
}

/// Names that occur in the component are in the table.
pub open spec fn table_covers(comp: Seq<(String, Vec<String>)>, names: Seq<String>) -> bool {
    &&& forall|i: int| 0 <= i < comp.len() ==> has_name(names, comp[i].0@)
    &&& forall|i: int, j: int| 0 <= i < comp.len() && 0 <= j < comp[i].1@.len() ==> has_name(names, comp[i].1@[j]@)
}

proof fn lemma_named(comp: Seq<(String, Vec<String>)>, names: Seq<String>, x: Seq<char>)
    requires
        table_covers(comp, names),
        mentioned(comp, x),
    ensures
        has_name(names, x),
{
    let i = choose|i: int| 0 <= i < comp.len() && (#[trigger] comp[i].0@ == x || exists|j: int| 0 <= j < comp[i].1@.len() && #[trigger] comp[i].1@[j]@ == x);
    if comp[i].0@ != x {
        let j = choose|j: int| 0 <= j < comp[i].1@.len() && #[trigger] comp[i].1@[j]@ == x;
        assert(has_name(names, comp[i].1@[j]@));
    }
}

proof fn lemma_edge_named(comp: Seq<(String, Vec<String>)>, names: Seq<String>, x: Seq<char>, y: Seq<char>)
    requires
        table_covers(comp, names),
        component_edge(comp, x, y),
    ensures
        has_name(names, x),
        has_name(names, y),
{
    if lists(comp, x, y) {
        let (i, j) = choose|i: int, j: int| 0 <= i < comp.len() && 0 <= j < comp[i].1@.len() && #[trigger] comp[i].0@ == x && #[trigger] comp[i].1@[j]@ == y;
        assert(has_name(names, comp[i].0@));
        assert(has_name(names, comp[i].1@[j]@));
    } else {
        let (i, j) = choose|i: int, j: int| 0 <= i < comp.len() && 0 <= j < comp[i].1@.len() && #[trigger] comp[i].0@ == y && #[trigger] comp[i].1@[j]@ == x;
        assert(has_name(names, comp[i].0@));
        assert(has_name(names, comp[i].1@[j]@));
    }
}

/// A component whose names fit in the table and whose edges all fit in a
/// well-formed graph over it is not over capacity.
proof fn lemma_within_capacity(comp: Seq<(String, Vec<String>)>, names: Seq<String>, adj: Seq<Seq<u32>>)
    requires
        distinct_names(names),
        names.len() <= MAX_NODE_COUNT,
        table_covers(comp, names),
        adj_wf(adj),
        adj.len() == names.len(),
        forall|a: int, b: int|
            0 <= a < names.len() && 0 <= b < names.len() && #[trigger] component_edge(comp, names[a]@, names[b]@)
                ==> has_edge(adj, a, b),
    ensures
        !over_capacity(comp),
{
    assert forall|s: Seq<String>| !#[trigger] names_witness(comp, s) by {
        if names_witness(comp, s) {
            assert forall|i: int| 0 <= i < s.len() implies has_name(names, (#[trigger] s[i])@) by {
                lemma_named(comp, names, s[i]@);
            }
            let t = Seq::new(s.len(), |i: int| choose|k: int| 0 <= k < names.len() && (#[trigger] names[k])@ == s[i]@);
            assert forall|i: int| 0 <= i < t.len() implies 0 <= #[trigger] t[i] < names.len() && names[t[i]]@ == s[i]@ by {
                assert(has_name(names, s[i]@));
            }
            assert forall|i: int, j: int| 0 <= i < j < t.len() implies t[i] != t[j] by {
                assert(names[t[i]]@ == s[i]@ && names[t[j]]@ == s[j]@);
                assert(s[i]@ != s[j]@);
            }
            lemma_injective_bound(t, names.len() as int);
        }
    }
    assert forall|x: Seq<char>, s: Seq<String>| !#[trigger] degree_witness(comp, x, s) by {
        if degree_witness(comp, x, s) {
            assert(component_edge(comp, x, s[0]@));
            lemma_edge_named(comp, names, x, s[0]@);
            let ia = choose|k: int| 0 <= k < names.len() && (#[trigger] names[k])@ == x;
            assert forall|i: int| 0 <= i < s.len() implies has_name(names, (#[trigger] s[i])@) by {
                assert(component_edge(comp, x, s[i]@));
                lemma_edge_named(comp, names, x, s[i]@);
            }
            let row = adj[ia];
            let t = Seq::new(s.len(), |i: int| choose|q: int| 0 <= q < row.len() && names[row[q] as int]@ == s[i]@);
            assert forall|i: int| 0 <= i < t.len() implies 0 <= #[trigger] t[i] < row.len() && names[row[t[i]] as int]@ == s[i]@ by {
                assert(has_name(names, s[i]@));
                let ib = choose|k: int| 0 <= k < names.len() && (#[trigger] names[k])@ == s[i]@;
                assert(component_edge(comp, names[ia]@, names[ib]@));
                assert(has_edge(adj, ia, ib));
                let q = choose|q: int| 0 <= q < row.len() && row[q] == ib as u32;
                assert(names[row[q] as int]@ == s[i]@);
            }
            assert forall|i: int, j: int| 0 <= i < j < t.len() implies t[i] != t[j] by {
                assert(names[row[t[i]] as int]@ == s[i]@ && names[row[t[j]] as int]@ == s[j]@);
                assert(s[i]@ != s[j]@);
            }
            lemma_injective_bound(t, row.len() as int);
        }
    }
}

/// Node ids of a path of names, through the name table.
proof fn lemma_ids_of_name_path(
    comp: Seq<(String, Vec<String>)>,
    names: Seq<String>,
    adj: Seq<Seq<u32>>,
    q: Seq<String>,
) -> (t: Seq<u32>)
    requires
        distinct_names(names),
        names.len() <= MAX_NODE_COUNT,
        table_covers(comp, names),
        adj_wf(adj),
        adj.len() == names.len(),
        forall|a: int, b: int|
            0 <= a < names.len() && 0 <= b < names.len() && #[trigger] component_edge(comp, names[a]@, names[b]@)
                ==> has_edge(adj, a, b),
        is_name_path(comp, q),
        q.len() >= 1,
        mentioned(comp, q[0]@),
    ensures
        t.len() == q.len(),
        is_path(adj, t),
        forall|i: int| 0 <= i < t.len() ==> names[#[trigger] t[i] as int]@ == q[i]@,
{
    assert forall|i: int| 0 <= i < q.len() implies has_name(names, (#[trigger] q[i])@) by {
        if i == 0 {
            lemma_named(comp, names, q[0]@);
        } else {
            let h = i - 1;
            assert(component_edge(comp, q[h]@, q[h + 1]@));
            lemma_edge_named(comp, names, q[h]@, q[h + 1]@);
        }
    }
    let t = Seq::new(q.len(), |i: int| (choose|k: int| 0 <= k < names.len() && (#[trigger] names[k])@ == q[i]@) as u32);
    assert forall|i: int| 0 <= i < t.len() implies (#[trigger] t[i] as int) < names.len() && names[t[i] as int]@ == q[i]@ by {
        assert(has_name(names, q[i]@));
    }
    assert forall|i: int, j: int| 0 <= i < j < t.len() implies t[i] != t[j] by {
        assert(names[t[i] as int]@ == q[i]@ && names[t[j] as int]@ == q[j]@);
        assert(q[i]@ != q[j]@);
    }
    assert forall|i: int| 0 <= i < t.len() - 1 implies #[trigger] has_edge(adj, t[i] as int, t[i + 1] as int) by {
        assert(names[t[i] as int]@ == q[i]@ && names[t[i + 1] as int]@ == q[i + 1]@);
        assert(component_edge(comp, q[i]@, q[i + 1]@));
        assert(component_edge(comp, names[t[i] as int]@, names[t[i + 1] as int]@));
    }
    t
}

/// A name of the table has at most two neighbors exactly when its node has
/// degree at most 2.
proof fn lemma_low_degree_iff(
    comp: Seq<(String, Vec<String>)>,
    names: Seq<String>,
    adj: Seq<Seq<u32>>,
    u: int,
)
    requires
        distinct_names(names),
        table_covers(comp, names),
        forall|k: int| 0 <= k < names.len() ==> mentioned(comp, (#[trigger] names[k])@),
        adj_wf(adj),
        adj.len() == names.len(),
        sound_for(comp, names, adj),
        forall|a: int, b: int|
            0 <= a < names.len() && 0 <= b < names.len() && #[trigger] component_edge(comp, names[a]@, names[b]@)
                ==> has_edge(adj, a, b),
        0 <= u < names.len(),
    ensures
        low_degree_name(comp, names[u]@) <==> adj[u].len() <= 2,
{
    let row = adj[u];
    assert(mentioned(comp, names[u]@));
    if row.len() >= 3 {
        let s = seq![names[row[0] as int], names[row[1] as int], names[row[2] as int]];
        assert(row.no_duplicates());
        assert forall|i: int| 0 <= i < 3 implies (#[trigger] row[i] as int) < names.len() by {}
        assert forall|i: int, j: int| 0 <= i < j < s.len() implies (#[trigger] s[i])@ != (#[trigger] s[j])@ by {
            assert(s[i] == names[row[i] as int] && s[j] == names[row[j] as int]);
            assert(row[i] != row[j]);
            if row[i] < row[j] {
                assert(names[row[i] as int]@ != names[row[j] as int]@);
            } else {
                assert(names[row[j] as int]@ != names[row[i] as int]@);
            }
        }
        assert forall|i: int| 0 <= i < s.len() implies component_edge(comp, names[u]@, (#[trigger] s[i])@) by {
            assert(s[i] == names[row[i] as int]);
            assert(component_edge(comp, names[u]@, names[adj[u][i] as int]@));
        }
        assert(three_neighbors(comp, names[u]@, s));
    } else {
        assert forall|s: Seq<String>| !#[trigger] three_neighbors(comp, names[u]@, s) by {
            if three_neighbors(comp, names[u]@, s) {
                let t = Seq::new(3, |i: int| choose|p: int| 0 <= p < row.len() && names[row[p] as int]@ == s[i]@);
                assert forall|i: int| 0 <= i < t.len() implies 0 <= #[trigger] t[i] < row.len() && names[row[t[i]] as int]@ == s[i]@ by {
                    assert(component_edge(comp, names[u]@, s[i]@));
                    lemma_edge_named(comp, names, names[u]@, s[i]@);
                    let b = choose|k: int| 0 <= k < names.len() && (#[trigger] names[k])@ == s[i]@;
                    assert(component_edge(comp, names[u]@, names[b]@));
                    assert(has_edge(adj, u, b));
                    let p = choose|p: int| 0 <= p < row.len() && row[p] == b as u32;
                    assert(names[row[p] as int]@ == s[i]@);
                }
                assert forall|i: int, j: int| 0 <= i < j < t.len() implies t[i] != t[j] by {
                    assert(names[row[t[i]] as int]@ == s[i]@ && names[row[t[j]] as int]@ == s[j]@);
                    assert(s[i]@ != s[j]@);
                }
                lemma_injective_bound(t, row.len() as int);
            }
        }
    }
}

/// A path of names that begins at a start name begins, as ids, at a start
/// candidate of the exact search.
proof fn lemma_start_name_is_candidate(
    comp: Seq<(String, Vec<String>)>,
    names: Seq<String>,
    adj: Seq<Seq<u32>>,
    u: int,
)
    requires
        distinct_names(names),
        names.len() <= MAX_NODE_COUNT,
        table_covers(comp, names),
        forall|k: int| 0 <= k < names.len() ==> mentioned(comp, (#[trigger] names[k])@),
        adj_wf(adj),
        adj.len() == names.len(),
        sound_for(comp, names, adj),
        forall|a: int, b: int|
            0 <= a < names.len() && 0 <= b < names.len() && #[trigger] component_edge(comp, names[a]@, names[b]@)
                ==> has_edge(adj, a, b),
        0 <= u < names.len(),
        start_name(comp, names[u]@),
    ensures
        start_candidates(adj).contains(u as u32),
{
    let n = adj.len() as int;
    let low = low_degree_upto(adj, n);
    low_degree_facts(adj, n);
    if low.len() >= 2 {
        let x = low[0] as int;
        let y = low[1] as int;
        assert(x != y);
        lemma_low_degree_iff(comp, names, adj, x);
        lemma_low_degree_iff(comp, names, adj, y);
        if x < y {
            assert(names[x]@ != names[y]@);
        } else {
            assert(names[y]@ != names[x]@);
        }
        assert(two_low_degree_names(comp)) by {
            assert(low_degree_name(comp, names[x]@) && low_degree_name(comp, names[y]@));
        }
        lemma_low_degree_iff(comp, names, adj, u);
        assert(adj[u].len() <= 2);
        assert(low.contains(u as u32));
    } else {
        let all = Seq::new(adj.len(), |i: int| i as u32);
        assert(all[u] == u as u32);
    }
}

/// Each neighbor list of `adj` is in clockwise order around its node, by the
/// labels of the names: `clockwise_key` never decreases along a list.
pub open spec fn rows_clockwise(names: Seq<String>, adj: Seq<Seq<u32>>) -> bool {
    forall|u: int, i: int, j: int|
        0 <= u < adj.len() && 0 <= i < j < adj[u].len() ==> clockwise_key(
            name_label(names[u]@),
            name_label(names[#[trigger] adj[u][i] as int]@),
        ) <= clockwise_key(name_label(names[u]@), name_label(names[#[trigger] adj[u][j] as int]@))
}

/// The graph of the component over `names` (node `u` is `names[u]`), with
/// each neighbor list in clockwise order of the names' labels. Fails with
/// `CapacityExceeded`, only when the component is over capacity.
pub fn build_graph(comp: &Vec<(String, Vec<String>)>, names: &Vec<String>) -> (r: Result<Graph, GraphError>)
    requires
        distinct_names(names@),
        names@.len() <= MAX_NODE_COUNT,
        forall|i: int| 0 <= i < comp@.len() ==> has_name(names@, comp@[i].0@),
        forall|i: int, j: int| 0 <= i < comp@.len() && 0 <= j < comp@[i].1@.len() ==> has_name(names@, comp@[i].1@[j]@),
    ensures
        r matches Ok(g) ==> g.wf() && sound_for(comp@, names@, g.adj()),
        r matches Ok(g) ==> rows_clockwise(names@, g.adj()),
        r matches Ok(g) ==> forall|a: int, b: int|
            0 <= a < names@.len() && 0 <= b < names@.len() && #[trigger] component_edge(
                comp@,
                names@[a]@,
                names@[b]@,
            ) ==> has_edge(g.adj(), a, b),
        r matches Err(e) ==> e == GraphError::CapacityExceeded && over_capacity(comp@),
{
    let n = names.len();
    let mut g = Graph::new();
    let mut u: usize = 0;
    while u < n
        invariant
            n == names@.len(),
            n <= MAX_NODE_COUNT,
            u <= n,
            g.wf(),
            g.adj().len() == u,
            forall|w: int| 0 <= w < u ==> #[trigger] g.adj()[w].len() == 0,
        decreases n - u,
    {
        let ghost before = g.adj();
        let _ = g.add_node();
        assert(g.adj()[u as int].len() == 0);
        assert(forall|w: int| 0 <= w < u ==> #[trigger] g.adj()[w] == before[w]);
        u = u + 1;
    }
    assert(sound_for(comp@, names@, g.adj()));
    let mut i: usize = 0;
    while i < comp.len()
        invariant
            n == names@.len(),
            distinct_names(names@),
            forall|i: int| 0 <= i < comp@.len() ==> has_name(names@, comp@[i].0@),
            forall|i: int, j: int| 0 <= i < comp@.len() && 0 <= j < comp@[i].1@.len() ==> has_name(names@, comp@[i].1@[j]@),
            i <= comp@.len(),
            g.wf(),
            g.adj().len() == n,
            sound_for(comp@, names@, g.adj()),
            complete_upto(comp@, names@, g.adj(), i as int, 0),
        decreases comp.len() - i,
    {
        let nbs = &comp[i].1;
        match find_name(names, &comp[i].0) {
            None => {
                proof {
                    assert(has_name(names@, comp@[i as int].0@));
                }
            },
            Some(a) => {
                let mut j: usize = 0;
                while j < nbs.len()
                    invariant
                        n == names@.len(),
                        distinct_names(names@),
                        i < comp@.len(),
                        nbs@ == comp@[i as int].1@,
                        a < n,
                        names@[a as int]@ == comp@[i as int].0@,
                        j <= nbs@.len(),
                        forall|i: int, j: int| 0 <= i < comp@.len() && 0 <= j < comp@[i].1@.len() ==> has_name(names@, comp@[i].1@[j]@),
                        g.wf(),
                        g.adj().len() == n,
                        sound_for(comp@, names@, g.adj()),
                        complete_upto(comp@, names@, g.adj(), i as int, j as int),
                    decreases nbs.len() - j,
                {
                    match find_name(names, &nbs[j]) {
                        None => {
                            proof {
                                assert(has_name(names@, comp@[i as int].1@[j as int]@));
                            }
                        },
                        Some(b) => {
                            let ghost adj0 = g.adj();
                            proof {
                                if a != b {
                                    assert(lists(comp@, names@[a as int]@, names@[b as int]@)) by {
                                        assert(comp@[i as int].1@[j as int]@ == names@[b as int]@);
                                    }
                                    if a < b {
                                        assert(names@[a as int]@ != names@[b as int]@);
                                    } else {
                                        assert(names@[b as int]@ != names@[a as int]@);
                                    }
                                    assert(component_edge(comp@, names@[a as int]@, names@[b as int]@));
                                    assert(component_edge(comp@, names@[b as int]@, names@[a as int]@));
                                }
                            }
                            match g.add_edge(a as u32, b as u32) {
                                Ok(()) => {
                                    proof {
                                        let adj1 = g.adj();
                                        assert(adj1 == with_edge(adj0, a as u32, b as u32));
                                        assert forall|x: int, k: int|
                                            0 <= x < adj1.len() && 0 <= k < adj1[x].len() implies component_edge(
                                            comp@,
                                            names@[x]@,
                                            names@[#[trigger] adj1[x][k] as int]@,
                                        ) by {
                                            if a != b && !has_edge(adj0, a as int, b as int) {
                                                if (x == a as int || x == b as int) && k == adj0[x].len() {
                                                } else {
                                                    assert(adj1[x][k] == adj0[x][k]);
                                                }
                                            }
                                        }
                                        if a != b {
                                            if !has_edge(adj0, a as int, b as int) {
                                                assert(adj1[a as int][adj0[a as int].len() as int] == b as u32);
                                            }
                                            assert(has_edge(adj1, a as int, b as int));
                                        }
                                        assert forall|x: int, y: int|
                                            0 <= x < names@.len() && 0 <= y < names@.len() && x != y
                                                && #[trigger] listed_upto(comp@, i as int, j + 1, names@[x]@, names@[y]@)
                                                implies has_edge(adj1, x, y) by {
                                            let (p, q) = choose|p: int, q: int|
                                                0 <= p < comp@.len() && 0 <= q < comp@[p].1@.len() && (p < i || (p == i && q < j + 1))
                                                    && #[trigger] comp@[p].0@ == names@[x]@ && #[trigger] comp@[p].1@[q]@ == names@[y]@;
                                            if p == i && q == j {
                                                lemma_same_name(names@, x, a as int);
                                                lemma_same_name(names@, y, b as int);
                                            } else {
                                                assert(listed_upto(comp@, i as int, j as int, names@[x]@, names@[y]@));
                                                lemma_with_edge_keeps(adj0, a as u32, b as u32, x, y);
                                            }
                                        }
                                    }
                                },
                                Err(_) => {
                                    proof {
                                        assert(!has_edge(adj0, a as int, b as int));
                                        if adj0[a as int].len() >= MAX_DEGREE {
                                            lemma_degree_witness(comp@, names@, adj0, a as int, b as int);
                                        } else {
                                            assert(!has_edge(adj0, b as int, a as int));
                                            lemma_degree_witness(comp@, names@, adj0, b as int, a as int);
                                        }
                                    }
                                    return Err(GraphError::CapacityExceeded);
                                },
                            }
                        },
                    }
                    j = j + 1;
                }
                proof {
                    assert forall|x: int, y: int|
                        0 <= x < names@.len() && 0 <= y < names@.len() && x != y
                            && #[trigger] listed_upto(comp@, i + 1, 0, names@[x]@, names@[y]@)
                            implies has_edge(g.adj(), x, y) by {
                        let (p, q) = choose|p: int, q: int|
                            0 <= p < comp@.len() && 0 <= q < comp@[p].1@.len() && (p < i + 1 || (p == i + 1 && q < 0))
                                && #[trigger] comp@[p].0@ == names@[x]@ && #[trigger] comp@[p].1@[q]@ == names@[y]@;
                        assert(listed_upto(comp@, i as int, nbs@.len() as int, names@[x]@, names@[y]@));
                    }
                }
            },
        }
        i = i + 1;
    }
    let ghost adj = g.adj();
    proof {
        assert forall|a: int, b: int|
            0 <= a < names@.len() && 0 <= b < names@.len() && #[trigger] component_edge(comp@, names@[a]@, names@[b]@)
            implies has_edge(adj, a, b) by {
            if lists(comp@, names@[a]@, names@[b]@) {
                let (p, q) = choose|p: int, q: int|
                    0 <= p < comp@.len() && 0 <= q < comp@[p].1@.len() && #[trigger] comp@[p].0@ == names@[a]@
                        && #[trigger] comp@[p].1@[q]@ == names@[b]@;
                assert(listed_upto(comp@, comp@.len() as int, 0, names@[a]@, names@[b]@));
            } else {
                let (p, q) = choose|p: int, q: int|
                    0 <= p < comp@.len() && 0 <= q < comp@[p].1@.len() && #[trigger] comp@[p].0@ == names@[b]@
                        && #[trigger] comp@[p].1@[q]@ == names@[a]@;
                assert(listed_upto(comp@, comp@.len() as int, 0, names@[b]@, names@[a]@));
                assert(has_edge(adj, b, a));
            }
        }
    }
    let mut labels: Vec<u64> = Vec::new();
    let mut u: usize = 0;
    while u < n
        invariant
            n == names@.len(),
            u <= n,
            labels@.len() == u,
            forall|w: int| 0 <= w < u ==> #[trigger] labels@[w] == name_label(names@[w]@),
        decreases n - u,
    {
        labels.push(parse_label(names[u].as_str()));
        u = u + 1;
    }
    let mut rows: Vec<Vec<u32>> = Vec::new();
    let mut u: usize = 0;
    while u < n
        invariant
            g.wf(),
            adj == g.adj(),
            n == adj.len(),
            labels@.len() == n,
            n == names@.len(),
            forall|w: int| 0 <= w < n ==> #[trigger] labels@[w] == name_label(names@[w]@),
            u <= n,
            rows@.len() == u,
            forall|w: int| 0 <= w < u ==> (#[trigger] rows@[w])@.to_multiset() == adj[w].to_multiset(),
            forall|w: int| 0 <= w < u ==> (#[trigger] rows@[w])@.len() == adj[w].len(),
            forall|w: int, k: int| 0 <= w < u && 0 <= k < rows@[w]@.len() ==> (#[trigger] rows@[w]@[k] as int) < n,
            forall|w: int, i: int, j: int|
                0 <= w < u && 0 <= i < j < rows@[w]@.len() ==> clockwise_key(
                    labels@[w],
                    labels@[#[trigger] rows@[w]@[i] as int],
                ) <= clockwise_key(labels@[w], labels@[#[trigger] rows@[w]@[j] as int]),
        decreases n - u,
    {
        let nb = g.get_neighbors(u as u32);
        proof {
            assert forall|k: int| 0 <= k < nb@.len() implies (#[trigger] nb@[k] as int) < labels@.len() by {
                assert((adj[u as int][k] as int) < adj.len());
            }
        }
        let sorted = sort_clockwise(&nb, &labels, u as u32);
        rows.push(sorted);
        u = u + 1;
    }
    let ghost adj2 = rows_view(rows@);
    proof {
        assert forall|w: int| 0 <= w < adj.len() implies (#[trigger] adj2[w]).to_multiset() == adj[w].to_multiset() by {
            assert(adj2[w] == rows@[w]@);
        }
        lemma_permuted_rows(adj, adj2);
    }
    match Graph::from_rows(&rows) {
        Ok(g2) => {
            proof {
                assert forall|x: int, i: int, j: int|
                    0 <= x < adj2.len() && 0 <= i < j < adj2[x].len() implies clockwise_key(
                    name_label(names@[x]@),
                    name_label(names@[#[trigger] adj2[x][i] as int]@),
                ) <= clockwise_key(name_label(names@[x]@), name_label(names@[#[trigger] adj2[x][j] as int]@)) by {
                    assert(adj2[x] == rows@[x]@);
                    assert(clockwise_key(labels@[x], labels@[rows@[x]@[i] as int]) <= clockwise_key(
                        labels@[x],
                        labels@[rows@[x]@[j] as int],
                    ));
                }
                assert forall|x: int, k: int|
                    0 <= x < adj2.len() && 0 <= k < adj2[x].len() implies component_edge(
                    comp@,
                    names@[x]@,
                    names@[#[trigger] adj2[x][k] as int]@,
                ) by {
                    assert(adj2[x].contains(adj2[x][k]));
                    assert(adj[x].contains(adj2[x][k]));
                    let m = choose|m: int| 0 <= m < adj[x].len() && adj[x][m] == adj2[x][k];
                    assert(component_edge(comp@, names@[x]@, names@[adj[x][m] as int]@));
                }
                assert forall|a: int, b: int|
                    0 <= a < names@.len() && 0 <= b < names@.len() && #[trigger] component_edge(comp@, names@[a]@, names@[b]@)
                    implies has_edge(adj2, a, b) by {
                    assert(has_edge(adj, a, b));
                    assert(adj2[a].contains(b as u32) <==> adj[a].contains(b as u32));
                }
            }
            Ok(g2)
        },
        Err(_) => {
            proof {
                assert(false);
            }
            Err(GraphError::CapacityExceeded)
        },
    }
}

/// The tunable constants of a solve. Budgets are in milliseconds; `None`
/// means no time limit.
pub struct SolverPolicy {
    /// Components of at most this many nodes are solved exactly.
    pub brute_force_threshold: usize,
    /// Wall-clock budget of the exact search.
    pub exact_budget_ms: Option<u64>,
    /// Wall-clock budget of the heuristic search.
    pub heuristic_budget_ms: Option<u64>,
    /// Whether the stochastic improver runs when coverage stays low.
    pub improve: bool,
    /// Wall-clock budget of the stochastic improver.
    pub improve_budget_ms: Option<u64>,
    /// Seed of the improver's random source.
    pub seed: u64,
}

/// Default node count up to which a component is solved exactly.
pub const BRUTE_FORCE_THRESHOLD: usize = 100;

/// Default budget of the exact search.
pub const EXACT_BUDGET_MS: u64 = 12_000;

/// Default budget of the heuristic search.
pub const HEURISTIC_BUDGET_MS: u64 = 30_000;

/// Default budget of the stochastic improver.
pub const IMPROVE_BUDGET_MS: u64 = 2_000;

impl SolverPolicy {
    /// The production policy: the default threshold and budgets, with the
    /// improver on.
    pub fn standard(seed: u64) -> (r: Self)
        ensures
            r.brute_force_threshold == BRUTE_FORCE_THRESHOLD,
            r.exact_budget_ms == Some(EXACT_BUDGET_MS),
            r.heuristic_budget_ms == Some(HEURISTIC_BUDGET_MS),
            r.improve,
            r.improve_budget_ms == Some(IMPROVE_BUDGET_MS),
            r.seed == seed,
    {
        SolverPolicy {
            brute_force_threshold: BRUTE_FORCE_THRESHOLD,
            exact_budget_ms: Some(EXACT_BUDGET_MS),
            heuristic_budget_ms: Some(HEURISTIC_BUDGET_MS),
            improve: true,
            improve_budget_ms: Some(IMPROVE_BUDGET_MS),
            seed,
        }
    }

    /// A replayable policy: the default threshold, no time limits, and the
    /// improver off, so that the result depends on the input alone.
    pub fn unlimited() -> (r: Self)
        ensures
            r.brute_force_threshold == BRUTE_FORCE_THRESHOLD,
            r.exact_budget_ms is None,
            r.heuristic_budget_ms is None,
            !r.improve,
            r.improve_budget_ms is None,
            r.seed == 0,
    {
        SolverPolicy {
            brute_force_threshold: BRUTE_FORCE_THRESHOLD,
            exact_budget_ms: None,
            heuristic_budget_ms: None,
            improve: false,
            improve_budget_ms: None,
            seed: 0,
        }
    }
}

/// The deadline for a budget: none for `None`.
fn deadline_of(budget_ms: Option<u64>) -> (r: Deadline)
    ensures
        budget_ms is None ==> r.is_unlimited(),
{
    match budget_ms {
        None => Deadline::unlimited(),
        Some(ms) => Deadline::after_ms(ms),
    }
}

/// Longest path of one graph: the exact search up to the policy's threshold,
/// the heuristic search (with its face bound and endpoint refinement) above
/// it, then the improver when coverage stays below `COVERAGE_TARGET_PERCENT`
/// and the policy asks for it. The result is a simple path, non-empty for a
/// non-empty graph, and passes validation. When the exact search runs without
/// a time limit, no simple path that begins at one of its start candidates is
/// longer.
pub fn solve_graph(graph: &Graph, policy: &SolverPolicy) -> (r: Vec<u32>)
    requires
        graph.wf(),
    ensures
        is_path(graph.adj(), r@),
        graph.adj().len() > 0 ==> r@.len() >= 1,
        graph.adj().len() == 0 ==> r@.len() == 0,
        graph.adj().len() <= policy.brute_force_threshold && policy.exact_budget_ms is None
            ==> forall|q: Seq<u32>|
            is_path(graph.adj(), q) && q.len() >= 1 && start_candidates(graph.adj()).contains(q[0])
                ==> q.len() <= r@.len(),
{
    let ghost adj = graph.adj();
    let n = graph.node_count();
    if n == 0 {
        return Vec::new();
    }
    let mut path = if n <= policy.brute_force_threshold {
        exact_longest_path(graph, &deadline_of(policy.exact_budget_ms)).path
    } else {
        let faces = find_faces(graph);
        heuristic_longest_path(graph, &faces, &deadline_of(policy.heuristic_budget_ms))
    };
    proof {
        lemma_path_len(adj, path@);
    }
    if policy.improve && path.len() * 100 / n < COVERAGE_TARGET_PERCENT {
        let mut rng = Rng::new(policy.seed);
        path = improve_path(graph, &path, &mut rng, &deadline_of(policy.improve_budget_ms));
    }
    let ok = validate_path(graph, &path);
    assert(ok);
    path
}

/// The path of ids `p` as names.
fn names_of_path(names: &Vec<String>, p: &Vec<u32>) -> (r: Vec<String>)
    requires
        forall|i: int| 0 <= i < p@.len() ==> (#[trigger] p@[i] as int) < names@.len(),
    ensures
        r@.len() == p@.len(),
        forall|i: int| 0 <= i < p@.len() ==> (#[trigger] r@[i])@ == names@[p@[i] as int]@,
{
    let mut r: Vec<String> = Vec::new();
    let mut i: usize = 0;
    while i < p.len()
        invariant
            i <= p@.len(),
            r@.len() == i,
            forall|k: int| 0 <= k < p@.len() ==> (#[trigger] p@[k] as int) < names@.len(),
            forall|k: int| 0 <= k < i ==> (#[trigger] r@[k])@ == names@[p@[k] as int]@,
        decreases p.len() - i,
    {
        r.push(names[p[i] as usize].clone());
        i = i + 1;
    }
    r
}

/// Under a policy without a time limit on the exact search, a solved
/// component of at most the brute-force threshold of names has a path at
/// least as long as every path of names that begins at a start name.
pub open spec fn exact_when_small(
    comp: Seq<(String, Vec<String>)>,
    policy: SolverPolicy,
    r: Result<Vec<String>, GraphError>,
) -> bool {
    match r {
        Ok(p) => policy.exact_budget_ms is None && at_most_names(comp, policy.brute_force_threshold as int)
            ==> longest_from_starts(comp, p@),
        Err(_) => true,
    }
}

/// Solves one component given as node names with their neighbor names: the
/// returned names are pairwise different, each consecutive pair is an edge of
/// the component, and the path is non-empty when the component names any
/// node. `CapacityExceeded` comes exactly for a component with more than
/// `MAX_NODE_COUNT` names or a name with more than `MAX_DEGREE` neighbors. A
/// small component solved without a time limit gets a longest path among
/// those that begin at a start name.
pub fn solve_component(comp: &Vec<(String, Vec<String>)>, policy: &SolverPolicy) -> (r: Result<Vec<String>, GraphError>)
    ensures
        solution_ok(comp@, r),
        exact_when_small(comp@, *policy, r),
{
    let names = component_names(comp);
    if names.len() > MAX_NODE_COUNT {
        assert(names_witness(comp@, names@));
        return Err(GraphError::CapacityExceeded);
    }
    let graph = match build_graph(comp, &names) {
        Ok(g) => g,
        Err(e) => {
            return Err(e);
        },
    };
    let ghost adj = graph.adj();
    proof {
        lemma_within_capacity(comp@, names@, adj);
    }
    let path = solve_graph(&graph, policy);
    proof {
        if comp@.len() > 0 {
            assert(has_name(names@, comp@[0].0@));
        } else if names@.len() > 0 {
            assert(mentioned(comp@, names@[0]@));
        }
    }
    let out = names_of_path(&names, &path);
    proof {
        assert forall|i: int| 0 <= i < out@.len() implies mentioned(comp@, (#[trigger] out@[i])@) by {
            assert((path@[i] as int) < names@.len());
            assert(mentioned(comp@, names@[path@[i] as int]@));
        }
    }
    proof {
        assert(table_covers(comp@, names@));
        if policy.exact_budget_ms is None && at_most_names(comp@, policy.brute_force_threshold as int) {
            assert(names@.len() <= policy.brute_force_threshold);
            assert forall|q: Seq<String>|
                #[trigger] is_name_path(comp@, q) && q.len() >= 1 && start_name(comp@, q[0]@) implies q.len() <= out@.len() by {
                let t = lemma_ids_of_name_path(comp@, names@, adj, q);
                lemma_named(comp@, names@, q[0]@);
                assert(names@[t[0] as int]@ == q[0]@);
                lemma_start_name_is_candidate(comp@, names@, adj, t[0] as int);
            }
        }
        assert forall|i: int, j: int| 0 <= i < j < out@.len() implies (#[trigger] out@[i])@ != (#[trigger] out@[j])@ by {
            assert(path@[i] != path@[j]);
            if path@[i] < path@[j] {
                assert(names@[path@[i] as int]@ != names@[path@[j] as int]@);
            } else {
                assert(names@[path@[j] as int]@ != names@[path@[i] as int]@);
            }
        }
        assert forall|i: int| 0 <= i < out@.len() - 1 implies component_edge(comp@, (#[trigger] out@[i])@, out@[i + 1]@) by {
            assert(has_edge(adj, path@[i] as int, path@[i + 1] as int));
            let k = choose|k: int| 0 <= k < adj[path@[i] as int].len() && adj[path@[i] as int][k] == path@[i + 1];
            assert(component_edge(comp@, names@[path@[i] as int]@, names@[adj[path@[i] as int][k] as int]@));
        }
    }
    Ok(out)
}

/// Solves each component independently, in input order; one component over
/// capacity fails alone.
pub fn solve_components(comps: &Vec<Vec<(String, Vec<String>)>>, policy: &SolverPolicy) -> (r: Vec<Result<Vec<String>, GraphError>>)
    ensures
        r@.len() == comps@.len(),
        forall|i: int| 0 <= i < comps@.len() ==> solution_ok(comps@[i]@, #[trigger] r@[i]),
        forall|i: int| 0 <= i < comps@.len() ==> exact_when_small(comps@[i]@, *policy, #[trigger] r@[i]),
{
    let mut r: Vec<Result<Vec<String>, GraphError>> = Vec::new();
    let mut i: usize = 0;
    while i < comps.len()
        invariant
            i <= comps@.len(),
            r@.len() == i,
            forall|k: int| 0 <= k < i ==> solution_ok(comps@[k]@, #[trigger] r@[k]),
            forall|k: int| 0 <= k < i ==> exact_when_small(comps@[k]@, *policy, #[trigger] r@[k]),
        decreases comps.len() - i,
    {
        r.push(solve_component(&comps[i], policy));
        i = i + 1;
    }
    r
}

} // verus!
