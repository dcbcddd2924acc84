//! Time-boxed stochastic improvement of a path by simulated annealing over
//! randomized local edits.
use vstd::prelude::*;
use crate::bitset::{NodeBitset, MAX_NODE_COUNT};
use crate::clock::Deadline;
use crate::graph::Graph;
use crate::path::{concat, is_path, is_simple_path, reversed, slice_of};
use crate::refine::dedup_nodes;

verus! {

/// Fresh random walks tried as extra seeds.
pub const RANDOM_SEEDS: usize = 20;

/// Annealing iterations per seed.
pub const ANNEALING_ITERATIONS: usize = 200;

/// Every this many iterations the working path is fused with the best path.
pub const FUSE_INTERVAL: usize = 20;

/// The starting temperature, in millionths.
pub const INITIAL_TEMPERATURE_PPM: u64 = 1_000_000;

/// The cooling factor per iteration, in percent.
pub const COOLING_PERCENT: u64 = 95;

/// Most nodes a single random walk adds.
pub const MAX_WALK: usize = 64;

/// `e^-1` in millionths.
pub const INV_E_PPM: u64 = 367_879;

/// One step of the xorshift64 generator.
pub open spec fn xorshift_step(x: u64) -> u64 {
    let a = x ^ (x << 13u64);
    let b = a ^ (a >> 7u64);
    b ^ (b << 17u64)
}

/// A seedable pseudo-random source (xorshift64), so that a run can be
/// replayed from its seed.
pub struct Rng {
    state: u64,
}

impl Rng {
    /// The generator's state.
    pub closed spec fn state(&self) -> u64 {
        self.state
    }

    /// A generator seeded with `seed`; the seed 0, which xorshift cannot
    /// leave, is replaced by a fixed odd constant.
    pub fn new(seed: u64) -> (r: Self)
        ensures
            r.state() == if seed == 0 {
                0x9E37_79B9_7F4A_7C15u64
            } else {
                seed
            },
    {
        Rng { state: if seed == 0 { 0x9E37_79B9_7F4A_7C15u64 } else { seed } }
    }

    /// The next 64 random bits.
    pub fn next_u64(&mut self) -> (r: u64)
        ensures
            r == xorshift_step(old(self).state()),
            final(self).state() == r,
    {
        let x = self.state;
        let a = x ^ (x << 13u64);
        let b = a ^ (a >> 7u64);
        let c = b ^ (b << 17u64);
        self.state = c;
        c
    }

    /// A random number below `bound`.
    pub fn below(&mut self, bound: usize) -> (r: usize)
        requires
            bound > 0,
        ensures
            r < bound,
            r as int == (xorshift_step(old(self).state()) as int) % (bound as int),
            final(self).state() == xorshift_step(old(self).state()),
    {
        (self.next_u64() % (bound as u64)) as usize
    }
}

/// The cubic approximation of `e^(-f / 10^6)`, in millionths, for a fraction
/// `f` below `10^6`, kept within `[0, 10^6]`.
pub open spec fn exp_fraction_ppm(f: int) -> int {
    let f2 = f * f / 1_000_000;
    let f3 = f2 * f / 1_000_000;
    let up = 1_000_000 + f2 / 2;
    let down = f + f3 / 6;
    if up > down {
        if up - down > 1_000_000 {
            1_000_000
        } else {
            up - down
        }
    } else {
        0
    }
}

/// `r` multiplied `k` times by `e^-1`, in millionths, rounding down each time.
pub open spec fn scaled_by_inv_e(r: int, k: int) -> int
    decreases k,
{
    if k <= 0 {
        r
    } else {
        scaled_by_inv_e(r * INV_E_PPM / 1_000_000, k - 1)
    }
}

/// `e^(-x / 10^6)` in millionths: whole powers of `e^-1` times the cubic for
/// the fraction.
pub open spec fn exp_neg_ppm_spec(x: int) -> int {
    scaled_by_inv_e(exp_fraction_ppm(x % 1_000_000), x / 1_000_000)
}

proof fn lemma_scaled_zero(k: int)
    ensures
        scaled_by_inv_e(0, k) == 0,
    decreases k,
{
    if k > 0 {
        lemma_scaled_zero(k - 1);
    }
}

/// `e^(-x / 10^6)` in millionths (see `exp_neg_ppm_spec`).
pub fn exp_neg_ppm(x: u64) -> (r: u64)
    ensures
        r == exp_neg_ppm_spec(x as int),
        r <= 1_000_000,
{
    let whole = x / 1_000_000;
    let f = x % 1_000_000;
    assert(f * f < 1_000_000_000_000) by (nonlinear_arith)
        requires
            f < 1_000_000,
    ;
    let f2 = f * f / 1_000_000;
    assert(f2 < 1_000_000);
    assert(f2 * f < 1_000_000_000_000) by (nonlinear_arith)
        requires
            f < 1_000_000,
            f2 < 1_000_000,
    ;
    let f3 = f2 * f / 1_000_000;
    let up = 1_000_000 + f2 / 2;
    let down = f + f3 / 6;
    let mut r: u64 = if up > down { up - down } else { 0 };
    if r > 1_000_000 {
        r = 1_000_000;
    }
    assert(r as int == exp_fraction_ppm(f as int));
    let mut k: u64 = 0;
    while k < whole && r > 0
        invariant
            r <= 1_000_000,
            k <= whole,
            scaled_by_inv_e(r as int, whole - k) == exp_neg_ppm_spec(x as int),
        decreases whole - k,
    {
        r = r * INV_E_PPM / 1_000_000;
        k = k + 1;
    }
    proof {
        if r == 0 {
            lemma_scaled_zero(whole - k);
        }
    }
    r
}

/// Whether annealing accepts a candidate of `cand_len` nodes in place of a
/// working path of `cur_len` nodes at temperature `temp_ppm` (millionths),
/// given a random draw in millionths: always when the candidate is longer, and
/// otherwise when the draw falls below `e^(-(cur_len - cand_len) / T)`.
pub open spec fn accepts_spec(cand_len: int, cur_len: int, temp_ppm: int, draw: int) -> bool {
    cand_len > cur_len || draw < exp_neg_ppm_spec((cur_len - cand_len) * 1_000_000_000_000 / temp_ppm)
}

/// The acceptance rule of annealing (see `accepts_spec`).
pub fn accepts(cand_len: usize, cur_len: usize, temp_ppm: u64, draw: u64) -> (r: bool)
    requires
        temp_ppm > 0,
        cur_len <= MAX_NODE_COUNT,
    ensures
        r == accepts_spec(cand_len as int, cur_len as int, temp_ppm as int, draw as int),
{
    if cand_len > cur_len {
        return true;
    }
    let drop = (cur_len - cand_len) as u64;
    let x = drop * 1_000_000_000_000 / temp_ppm;
    draw < exp_neg_ppm(x)
}

/// One annealing step: the candidate replaces the working path when it is a
/// simple path and the acceptance rule takes it for the given draw; otherwise
/// the working path stays.
pub fn anneal_step(graph: &Graph, cur: &Vec<u32>, cand: &Vec<u32>, temp_ppm: u64, draw: u64) -> (r: Vec<u32>)
    requires
        graph.wf(),
        is_path(graph.adj(), cur@),
        temp_ppm > 0,
    ensures
        r@ == if is_path(graph.adj(), cand@) && accepts_spec(
            cand@.len() as int,
            cur@.len() as int,
            temp_ppm as int,
            draw as int,
        ) {
            cand@
        } else {
            cur@
        },
{
    proof {
        crate::path::lemma_path_len(graph.adj(), cur@);
    }
    if is_simple_path(graph, cand) && accepts(cand.len(), cur.len(), temp_ppm, draw) {
        cand.clone()
    } else {
        cur.clone()
    }
}

/// Nodes of `p` as a visited set; ids out of range are left out.
fn visited_of(p: &Vec<u32>) -> (r: NodeBitset)
    ensures
        r.wf(),
{
    let mut r = NodeBitset::new();
    let mut i: usize = 0;
    while i < p.len()
        invariant
            r.wf(),
            i <= p@.len(),
        decreases p.len() - i,
    {
        if (p[i] as usize) < MAX_NODE_COUNT {
            r.set(p[i]);
        }
        i = i + 1;
    }
    r
}

/// A random walk from `from` through nodes outside `avoid`, at most `limit`
/// nodes long, not counting `from`; it stops where no such neighbor is left.
fn random_walk(graph: &Graph, from: u32, avoid: &NodeBitset, rng: &mut Rng, limit: usize) -> (r: Vec<u32>)
    requires
        graph.wf(),
        avoid.wf(),
{
    let mut seen = *avoid;
    let mut walk: Vec<u32> = Vec::new();
    let mut cur = from;
    if (cur as usize) < MAX_NODE_COUNT {
        seen.set(cur);
    }
    let mut steps: usize = 0;
    while steps < limit
        invariant
            graph.wf(),
            seen.wf(),
        decreases limit - steps,
    {
        let nb = graph.get_neighbors(cur);
        let mut open: Vec<u32> = Vec::new();
        let mut k: usize = 0;
        while k < nb.len()
            invariant
                seen.wf(),
                k <= nb@.len(),
            decreases nb.len() - k,
        {
            let w = nb[k];
            if (w as usize) < MAX_NODE_COUNT && !seen.contains(w) {
                open.push(w);
            }
            k = k + 1;
        }
        if open.len() == 0 {
            break;
        }
        let next = open[rng.below(open.len())];
        if (next as usize) < MAX_NODE_COUNT {
            seen.set(next);
        }
        walk.push(next);
        cur = next;
        steps = steps + 1;
    }
    walk
}

/// Extends one end of `cur`, chosen at random, by a random walk into
/// unvisited nodes.
fn edit_extend(graph: &Graph, cur: &Vec<u32>, rng: &mut Rng) -> Vec<u32>
    requires
        graph.wf(),
{
    if cur.len() == 0 {
        return Vec::new();
    }
    let avoid = visited_of(cur);
    if rng.below(2) == 0 {
        let walk = random_walk(graph, cur[cur.len() - 1], &avoid, rng, MAX_WALK);
        concat(cur, &walk)
    } else {
        let walk = random_walk(graph, cur[0], &avoid, rng, MAX_WALK);
        concat(&reversed(&walk), cur)
    }
}

/// Replaces the step between a random interior node and its successor by a
/// detour through unvisited nodes whose last node is adjacent to the
/// successor.
fn edit_detour(graph: &Graph, cur: &Vec<u32>, rng: &mut Rng) -> Vec<u32>
    requires
        graph.wf(),
{
    if cur.len() < 2 {
        return cur.clone();
    }
    let i = rng.below(cur.len() - 1);
    let avoid = visited_of(cur);
    let walk = random_walk(graph, cur[i], &avoid, rng, 8);
    let succ = cur[i + 1];
    let mut cut: usize = walk.len();
    while cut > 0
        invariant
            graph.wf(),
            cut <= walk@.len(),
        decreases cut,
    {
        let nb = graph.get_neighbors(walk[cut - 1]);
        if crate::graph::contains_id(&nb, succ) {
            break;
        }
        cut = cut - 1;
    }
    if cut == 0 {
        return cur.clone();
    }
    let head = slice_of(cur, 0, i + 1);
    let detour = slice_of(&walk, 0, cut);
    let tail = slice_of(cur, i + 1, cur.len());
    concat(&concat(&head, &detour), &tail)
}

/// Reverses a random interior segment `cur[i..=j]`, when both new boundary
/// steps are edges.
fn edit_reverse(graph: &Graph, cur: &Vec<u32>, rng: &mut Rng) -> Vec<u32>
    requires
        graph.wf(),
{
    let len = cur.len();
    if len < 4 {
        return cur.clone();
    }
    let i = 1 + rng.below(len - 2);
    let j = i + rng.below(len - 1 - i);
    let before = graph.get_neighbors(cur[i - 1]);
    let after = graph.get_neighbors(cur[i]);
    if !crate::graph::contains_id(&before, cur[j]) || !crate::graph::contains_id(&after, cur[j + 1]) {
        return cur.clone();
    }
    let head = slice_of(cur, 0, i);
    let mid = reversed(&slice_of(cur, i, j + 1));
    let tail = slice_of(cur, j + 1, len);
    concat(&concat(&head, &mid), &tail)
}

/// The first position of `x` in `p`.
fn position_of(p: &Vec<u32>, x: u32) -> (r: Option<usize>)
    ensures
        r matches Some(i) ==> i < p@.len() && p@[i as int] == x,
{
    let mut i: usize = 0;
    while i < p.len()
        invariant
            i <= p@.len(),
        decreases p.len() - i,
    {
        if p[i] == x {
            return Some(i);
        }
        i = i + 1;
    }
    None
}

/// Recombines `cur` with `best` at a random position of `cur`: where that node
/// is on `best` too, or is adjacent to a node of `best`, `cur` up to it is
/// followed by `best` from there on; repeated nodes are dropped.
fn edit_recombine(graph: &Graph, cur: &Vec<u32>, best: &Vec<u32>, rng: &mut Rng) -> Vec<u32>
    requires
        graph.wf(),
{
    if cur.len() == 0 || best.len() == 0 {
        return cur.clone();
    }
    let a = rng.below(cur.len());
    let x = cur[a];
    let joined = match position_of(best, x) {
        Some(b) => concat(&slice_of(cur, 0, a), &slice_of(best, b, best.len())),
        None => {
            let nb = graph.get_neighbors(x);
            let mut found: Option<usize> = None;
            let mut k: usize = 0;
            while k < nb.len()
                invariant
                    k <= nb@.len(),
                    found matches Some(b) ==> b < best@.len(),
                decreases nb.len() - k,
            {
                if found.is_none() {
                    found = position_of(best, nb[k]);
                }
                k = k + 1;
            }
            match found {
                Some(b) => concat(&slice_of(cur, 0, a + 1), &slice_of(best, b, best.len())),
                None => cur.clone(),
            }
        },
    };
    dedup_nodes(&joined)
}

/// The longest simple path among the four end-to-end joins of `cur` and
/// `best` (start–start, start–end, end–start, end–end); `cur` when none is a
/// simple path longer than it.
fn fuse(graph: &Graph, cur: &Vec<u32>, best: &Vec<u32>) -> (r: Vec<u32>)
    requires
        graph.wf(),
        is_path(graph.adj(), cur@),
    ensures
        is_path(graph.adj(), r@),
        r@.len() >= cur@.len(),
{
    let rc = reversed(cur);
    let rb = reversed(best);
    let mut out = cur.clone();
    let mut which: usize = 0;
    while which < 4
        invariant
            graph.wf(),
            is_path(graph.adj(), out@),
            out@.len() >= cur@.len(),
        decreases 4 - which,
    {
        let cand = if which == 0 {
            concat(&rc, best)
        } else if which == 1 {
            concat(&rb, &rc)
        } else if which == 2 {
            concat(cur, best)
        } else {
            concat(cur, &rb)
        };
        if cand.len() > out.len() && is_simple_path(graph, &cand) {
            out = cand;
        }
        which = which + 1;
    }
    out
}

/// Simulated annealing over randomized local edits, seeded with `path` and
/// with up to `RANDOM_SEEDS` random walks from low-degree nodes. Each
/// candidate is checked to be a simple path before it is accepted. Returns
/// the longest path observed, which is `path` itself unless a strictly longer
/// one was found: the result is never shorter than `path`.
pub fn improve_path(graph: &Graph, path: &Vec<u32>, rng: &mut Rng, deadline: &Deadline) -> (r: Vec<u32>)
    requires
        graph.wf(),
        is_path(graph.adj(), path@),
    ensures
        is_path(graph.adj(), r@),
        r@.len() >= path@.len(),
        r@.len() == path@.len() ==> r@ == path@,
{
    let ghost adj = graph.adj();
    let n = graph.node_count();
    let mut global = path.clone();
    let mut seeds: Vec<Vec<u32>> = Vec::new();
    seeds.push(path.clone());
    if n > 0 {
        let mut low: Vec<u32> = Vec::new();
        let mut v: usize = 0;
        while v < n
            invariant
                graph.wf(),
                n == graph.adj().len(),
                v <= n,
                n <= MAX_NODE_COUNT,
            decreases n - v,
        {
            if graph.get_neighbors(v as u32).len() <= 2 {
                low.push(v as u32);
            }
            v = v + 1;
        }
        let mut s: usize = 0;
        while s < RANDOM_SEEDS && low.len() > 0
            invariant
                graph.wf(),
            decreases RANDOM_SEEDS - s,
        {
            let start = low[rng.below(low.len())];
            let mut avoid = NodeBitset::new();
            if (start as usize) < MAX_NODE_COUNT {
                avoid.set(start);
            }
            let walk = random_walk(graph, start, &avoid, rng, MAX_NODE_COUNT);
            let mut seed: Vec<u32> = Vec::new();
            seed.push(start);
            let seed = concat(&seed, &walk);
            if seed.len() >= 2 && seed.len() >= path.len() / 2 {
                seeds.push(seed);
            }
            s = s + 1;
        }
    }
    let mut si: usize = 0;
    while si < seeds.len()
        invariant
            graph.wf(),
            adj == graph.adj(),
            is_path(adj, global@),
            global@.len() >= path@.len(),
            global@.len() == path@.len() ==> global@ == path@,
        decreases seeds.len() - si,
    {
        let mut cur = seeds[si].clone();
        if !is_simple_path(graph, &cur) {
            cur = global.clone();
        }
        let mut temp: u64 = INITIAL_TEMPERATURE_PPM;
        let mut it: usize = 0;
        while it < ANNEALING_ITERATIONS
            invariant
                graph.wf(),
                adj == graph.adj(),
                is_path(adj, cur@),
                is_path(adj, global@),
                global@.len() >= path@.len(),
                global@.len() == path@.len() ==> global@ == path@,
                temp > 0,
                temp <= INITIAL_TEMPERATURE_PPM,
            decreases ANNEALING_ITERATIONS - it,
        {
            if deadline.expired() {
                break;
            }
            let choice = rng.below(4);
            let cand = if choice == 0 {
                edit_extend(graph, &cur, rng)
            } else if choice == 1 {
                edit_detour(graph, &cur, rng)
            } else if choice == 2 {
                edit_reverse(graph, &cur, rng)
            } else {
                edit_recombine(graph, &cur, &global, rng)
            };
            let draw = rng.below(1_000_000) as u64;
            cur = anneal_step(graph, &cur, &cand, temp, draw);
            if it % FUSE_INTERVAL == FUSE_INTERVAL - 1 {
                cur = fuse(graph, &cur, &global);
            }
            if cur.len() > global.len() {
                global = cur.clone();
            }
            temp = temp * COOLING_PERCENT / 100;
            if temp == 0 {
                temp = 1;
            }
            it = it + 1;
        }
        si = si + 1;
    }
    global
}

} // verus!
