//! Division of a graph into regions whose sizes are given.
//!
//! Each edge has a literal that is true when the edge separates its two ends
//! (a border) and false when it joins them. Removing the borders leaves the
//! regions; each vertex may carry a size variable, in order encoding, that must
//! equal the total weight of its region. A border must separate two distinct
//! regions.

use vstd::prelude::*;
use crate::domain::sort_dedup;
use crate::sat::{lit_wf, Lit};
use crate::propagators::{CustomPropagator, SolverManipulator};

verus! {

/// What is known of an edge: nothing yet, a border, or joining its ends.
#[derive(Clone, Copy, PartialEq, Eq, Structural, Debug)]
pub enum EdgeState {
    Undecided,
    Disconnected,
    Connected,
}

/// What a watched literal tells when it becomes true.
#[derive(Clone, Copy)]
enum LiteralInfo {
    Edge(usize, EdgeState),
    LowerBound(usize, i32),
    UpperBound(usize, i32),
}

/// How to take back one change of the state.
#[derive(Clone, Copy)]
enum UndoInfo {
    LevelBoundary,
    Edge(usize),
    /// (vertex, old value, old literal)
    LowerBound(usize, i32, Option<Lit>),
    /// (vertex, old value, old literal)
    UpperBound(usize, i32, Option<Lit>),
}

/// Why a literal was deduced, kept to explain it later.
#[derive(Clone, Copy)]
enum Reason {
    NotPropagated,
    /// Both ends of the edge are in one decided region: the edge joins them.
    EdgeInSameGroup { edge_idx: usize },
    /// The new edge joins the two regions that a border already separates
    /// (`flip` tells which end of the new edge lies on which side).
    EdgeBetweenDifferentGroups { disconnected_edge_idx: usize, newly_decided_edge_idx: usize, flip: bool },
    /// Joining the regions at the two ends of the edge would exceed a size.
    TooLargeIfRegionsAreMerged { disconnected_edge_idx: usize, upper_bound_lit: Option<Lit> },
    /// The decided region of the vertex already weighs more than its lower bound.
    RegionAlreadyLarge { vertex_idx: usize },
    /// The largest region the vertex can still be in weighs less than its upper bound.
    RegionAlreadySmall { vertex_idx: usize },
    /// Joining the regions at the two ends of the edge would join a vertex
    /// whose upper bound is below the lower bound of another.
    InconsistentBoundsIfRegionsAreMerged {
        disconnected_edge_idx: usize,
        upper_bound_vertex_idx: usize,
        lower_bound_vertex_idx: usize,
        flip: bool,
    },
}

pub open spec fn non_decreasing(s: Seq<i32>) -> bool {
    forall|a: int, b: int| 0 <= a <= b < s.len() ==> s[a] <= s[b]
}

/// The total of the first `n` weights.
pub open spec fn prefix_weight(w: Seq<i32>, n: int) -> int
    decreases n,
{
    if n <= 0 {
        0
    } else {
        prefix_weight(w, n - 1) + w[n - 1]
    }
}

/// The total of the weights.
pub open spec fn weight_sum(w: Seq<i32>) -> int {
    prefix_weight(w, w.len() as int)
}

/// The total weight of the vertices below `n` that can be reached from `i`.
pub open spec fn linked_weight(w: Seq<i32>, edges: Seq<(usize, usize)>, state: Seq<EdgeState>, potential: bool, i: int, n: int) -> int
    decreases n,
{
    if n <= 0 {
        0
    } else {
        linked_weight(w, edges, state, potential, i, n - 1) + if linked(edges, state, potential, i, n - 1) {
            w[n - 1] as int
        } else {
            0
        }
    }
}

/// The total weight of the vertices below `n` numbered `k`.
spec fn id_weight(w: Seq<i32>, rid: Seq<usize>, k: int, n: int) -> int
    decreases n,
{
    if n <= 0 {
        0
    } else {
        id_weight(w, rid, k, n - 1) + if rid[n - 1] == k {
            w[n - 1] as int
        } else {
            0
        }
    }
}

proof fn lemma_id_weight_bounds(w: Seq<i32>, rid: Seq<usize>, k: int, n: int)
    requires
        0 <= n <= w.len(),
        forall|j: int| 0 <= j < w.len() ==> #[trigger] w[j] >= 0,
    ensures
        0 <= id_weight(w, rid, k, n) <= prefix_weight(w, n),
    decreases n,
{
    if n > 0 {
        lemma_id_weight_bounds(w, rid, k, n - 1);
    }
}

proof fn lemma_prefix_monotone(w: Seq<i32>, n: int, m: int)
    requires
        0 <= n <= m <= w.len(),
        forall|j: int| 0 <= j < w.len() ==> #[trigger] w[j] >= 0,
    ensures
        prefix_weight(w, n) <= prefix_weight(w, m),
    decreases m - n,
{
    if n < m {
        lemma_prefix_monotone(w, n, m - 1);
    }
}

/// Summing by region number or by reachability gives the same total when the
/// two agree.
proof fn lemma_weights_agree(
    w: Seq<i32>,
    rid: Seq<usize>,
    edges: Seq<(usize, usize)>,
    state: Seq<EdgeState>,
    potential: bool,
    i: int,
    n: int,
)
    requires
        0 <= n <= rid.len(),
        0 <= i < rid.len(),
        forall|j: int| 0 <= j < n ==> (rid[j] == rid[i] <==> #[trigger] linked(edges, state, potential, i, j)),
    ensures
        id_weight(w, rid, rid[i] as int, n) == linked_weight(w, edges, state, potential, i, n),
    decreases n,
{
    if n > 0 {
        assert(rid[n - 1] == rid[i] <==> linked(edges, state, potential, i, n - 1));
        lemma_weights_agree(w, rid, edges, state, potential, i, n - 1);
    }
}

pub open spec fn in_domain(d: Seq<i32>, v: i32) -> bool {
    exists|k: int| 0 <= k < d.len() && d[k] == v
}

spec fn lits_strictly_sorted(u: Seq<Lit>) -> bool {
    forall|a: int, b: int| 0 <= a < b < u.len() ==> u[a].0 < u[b].0
}

spec fn keys_sorted(ls: Seq<(Lit, LiteralInfo)>) -> bool {
    forall|a: int, b: int| 0 <= a <= b < ls.len() ==> ls[a].0.0 <= ls[b].0.0
}

spec fn info_valid(info: LiteralInfo, domains: Seq<Vec<i32>>, nv: nat, ne: nat) -> bool {
    match info {
        LiteralInfo::Edge(e, s) => e < ne && s != EdgeState::Undecided,
        LiteralInfo::LowerBound(i, v) => i < nv && domains[i as int]@.len() > 0 && in_domain(domains[i as int]@, v),
        LiteralInfo::UpperBound(i, v) => i < nv && domains[i as int]@.len() > 0 && in_domain(domains[i as int]@, v),
    }
}

spec fn entries_ok(ls: Seq<(Lit, LiteralInfo)>, domains: Seq<Vec<i32>>, nv: nat, ne: nat, keys: Seq<i32>) -> bool {
    forall|k: int| 0 <= k < ls.len() ==> info_valid((#[trigger] ls[k]).1, domains, nv, ne) && keys.contains(ls[k].0.0)
}

/// Edges whose ends are vertices, and adjacency lists that list each edge at
/// both of its ends and nothing else.
spec fn adjacency_ok(adj: Seq<Vec<(usize, usize)>>, edges: Seq<(usize, usize)>, nv: nat) -> bool {
    &&& adj.len() == nv
    &&& forall|e: int| 0 <= e < edges.len() ==> (#[trigger] edges[e]).0 < nv && edges[e].1 < nv
    &&& forall|p: int, k: int|
        0 <= p < nv && 0 <= k < adj[p]@.len() ==> {
            let (q, e) = #[trigger] adj[p]@[k];
            &&& e < edges.len()
            &&& q < nv
            &&& (edges[e as int] == (p as usize, q) || edges[e as int] == (q, p as usize))
        }
    &&& forall|e: int| 0 <= e < edges.len() ==> (#[trigger] adj[edges[e].0 as int]@).contains((edges[e].1, e as usize))
    &&& forall|e: int| 0 <= e < edges.len() ==> (#[trigger] adj[edges[e].1 as int]@).contains((edges[e].0, e as usize))
}

proof fn lemma_push_contains<T>(s: Seq<T>, x: T)
    ensures
        forall|y: T| s.contains(y) ==> s.push(x).contains(y),
        s.push(x).contains(x),
{
    assert forall|y: T| s.contains(y) implies s.push(x).contains(y) by {
        let k = choose|k: int| 0 <= k < s.len() && s[k] == y;
        assert(s.push(x)[k] == y);
    }
    assert(s.push(x)[s.len() as int] == x);
}

/// Entries ordered by their literal, entries of one literal in their first order.
fn sort_entries(
    es: Vec<(Lit, LiteralInfo)>,
    Ghost(domains): Ghost<Seq<Vec<i32>>>,
    Ghost(nv): Ghost<nat>,
    Ghost(ne): Ghost<nat>,
    Ghost(keys): Ghost<Seq<i32>>,
) -> (r: Vec<(Lit, LiteralInfo)>)
    requires
        entries_ok(es@, domains, nv, ne, keys),
    ensures
        entries_ok(r@, domains, nv, ne, keys),
        keys_sorted(r@),
        r@.len() == es@.len(),
{
    let mut out: Vec<(Lit, LiteralInfo)> = Vec::new();
    let mut i: usize = 0;
    while i < es.len()
        invariant
            i <= es@.len(),
            out@.len() == i,
            entries_ok(es@, domains, nv, ne, keys),
            entries_ok(out@, domains, nv, ne, keys),
            keys_sorted(out@),
        decreases es@.len() - i,
    {
        let item = es[i];
        let mut pos = out.len();
        while pos > 0 && item.0.0 < out[pos - 1].0.0
            invariant
                pos <= out@.len(),
                keys_sorted(out@),
                forall|k: int| pos <= k < out@.len() ==> item.0.0 < #[trigger] out@[k].0.0,
            decreases pos,
        {
            pos -= 1;
        }
        let ghost prev = out@;
        out.insert(pos, item);
        proof {
            assert forall|k: int| 0 <= k < out@.len() implies info_valid((#[trigger] out@[k]).1, domains, nv, ne) && keys.contains(out@[k].0.0) by {
                if k < pos {
                    assert(out@[k] == prev[k]);
                } else if k == pos {
                    assert(out@[k] == es@[i as int]);
                } else {
                    assert(out@[k] == prev[k - 1]);
                }
            }
            assert forall|a: int, b: int| 0 <= a <= b < out@.len() implies out@[a].0.0 <= out@[b].0.0 by {
                if b < pos {
                    assert(out@[a] == prev[a] && out@[b] == prev[b]);
                } else if b == pos {
                    if a < pos {
                        assert(out@[a] == prev[a]);
                        if pos > 0 {
                            assert(prev[a].0.0 <= prev[pos - 1].0.0);
                        }
                    }
                } else if a < pos {
                    assert(out@[a] == prev[a] && out@[b] == prev[b - 1]);
                } else if a == pos {
                    assert(out@[b] == prev[b - 1]);
                } else {
                    assert(out@[a] == prev[a - 1] && out@[b] == prev[b - 1]);
                }
            }
        }
        i += 1;
    }
    out
}

fn copy_slice<T: Copy>(s: &[T]) -> (r: Vec<T>)
    ensures
        r@ == s@,
{
    let mut r: Vec<T> = Vec::new();
    let mut i: usize = 0;
    while i < s.len()
        invariant
            i <= s@.len(),
            r@ == s@.subrange(0, i as int),
        decreases s@.len() - i,
    {
        r.push(s[i]);
        i += 1;
    }
    r
}

fn copy_rows<T: Copy>(s: &[Vec<T>]) -> (r: Vec<Vec<T>>)
    ensures
        r@.len() == s@.len(),
        forall|i: int| 0 <= i < s@.len() ==> (#[trigger] r@[i])@ == s@[i]@,
{
    let mut r: Vec<Vec<T>> = Vec::new();
    let mut i: usize = 0;
    while i < s.len()
        invariant
            i <= s@.len(),
            r@.len() == i,
            forall|k: int| 0 <= k < i ==> (#[trigger] r@[k])@ == s@[k]@,
        decreases s@.len() - i,
    {
        r.push(copy_slice(s[i].as_slice()));
        i += 1;
    }
    r
}

/// The position of `l` in the strictly increasing `u`.
fn lit_index(u: &Vec<Lit>, l: Lit) -> (r: Option<usize>)
    requires
        lits_strictly_sorted(u@),
    ensures
        match r {
            Some(i) => i < u@.len() && u@[i as int] == l,
            None => !u@.contains(l),
        },
{
    let mut lo: usize = 0;
    let mut hi: usize = u.len();
    while lo < hi
        invariant
            lo <= hi <= u@.len(),
            lits_strictly_sorted(u@),
            forall|k: int| 0 <= k < lo ==> (#[trigger] u@[k]).0 < l.0,
            forall|k: int| hi <= k < u@.len() ==> (#[trigger] u@[k]).0 > l.0,
        decreases hi - lo,
    {
        let mid = lo + (hi - lo) / 2;
        if u[mid].0 == l.0 {
            return Some(mid);
        } else if u[mid].0 < l.0 {
            lo = mid + 1;
        } else {
            hi = mid;
        }
    }
    proof {
        assert forall|k: int| 0 <= k < u@.len() implies u@[k] != l by {
            if k < lo {
                assert(u@[k].0 < l.0);
            } else {
                assert(u@[k].0 > l.0);
            }
        }
    }
    None
}

/// The first entry whose literal is not below `l`.
fn first_entry(ls: &Vec<(Lit, LiteralInfo)>, l: Lit) -> (r: usize)
    requires
        keys_sorted(ls@),
    ensures
        r <= ls@.len(),
        forall|k: int| 0 <= k < r ==> (#[trigger] ls@[k]).0.0 < l.0,
        forall|k: int| r <= k < ls@.len() ==> (#[trigger] ls@[k]).0.0 >= l.0,
{
    let mut lo: usize = 0;
    let mut hi: usize = ls.len();
    while lo < hi
        invariant
            lo <= hi <= ls@.len(),
            keys_sorted(ls@),
            forall|k: int| 0 <= k < lo ==> (#[trigger] ls@[k]).0.0 < l.0,
            forall|k: int| hi <= k < ls@.len() ==> (#[trigger] ls@[k]).0.0 >= l.0,
        decreases hi - lo,
    {
        let mid = lo + (hi - lo) / 2;
        if ls[mid].0.0 < l.0 {
            lo = mid + 1;
        } else {
            hi = mid;
        }
    }
    lo
}

/// An edge that may be crossed inside a region: it joins its ends, or, for
/// the largest regions that can still come about, it is not a border yet.
pub open spec fn passable(st: EdgeState, potential: bool) -> bool {
    st == EdgeState::Connected || (potential && st == EdgeState::Undecided)
}

/// A set of vertices that no passable edge leaves.
pub open spec fn closed_set(s: Set<int>, edges: Seq<(usize, usize)>, state: Seq<EdgeState>, potential: bool) -> bool {
    forall|e: int|
        0 <= e < edges.len() && passable(state[e], potential) ==> (s.contains((#[trigger] edges[e]).0 as int) <==> s.contains(edges[e].1 as int))
}

/// `v` can be reached from `u` over passable edges: it lies in every closed
/// set that holds `u`.
pub open spec fn linked(edges: Seq<(usize, usize)>, state: Seq<EdgeState>, potential: bool, u: int, v: int) -> bool {
    forall|s: Set<int>| #[trigger] closed_set(s, edges, state, potential) && s.contains(u) ==> s.contains(v)
}

/// Every passable edge at `x` leads into the region of `x`.
spec fn vertex_closed(edges: Seq<(usize, usize)>, state: Seq<EdgeState>, potential: bool, rid: Seq<usize>, x: int) -> bool {
    &&& forall|e: int|
        0 <= e < edges.len() && passable(state[e], potential) && (#[trigger] edges[e]).0 == x ==> rid[edges[e].1 as int] == rid[x]
    &&& forall|e: int|
        0 <= e < edges.len() && passable(state[e], potential) && (#[trigger] edges[e]).1 == x ==> rid[edges[e].0 as int] == rid[x]
}

/// `rid` numbers the regions, `regions[k]` lists the vertices of region `k`
/// starting from the one it was found from, no passable edge joins two
/// regions, and every vertex can be reached from the first of its region.
pub open spec fn regions_ok(
    nv: nat,
    edges: Seq<(usize, usize)>,
    state: Seq<EdgeState>,
    potential: bool,
    rid: Seq<usize>,
    regions: Seq<Vec<usize>>,
) -> bool {
    &&& rid.len() == nv
    &&& regions.len() <= nv
    &&& forall|x: int| 0 <= x < nv ==> (#[trigger] rid[x]) < regions.len()
    &&& forall|k: int| 0 <= k < regions.len() ==> (#[trigger] regions[k])@.len() > 0
    &&& forall|k: int, j: int|
        0 <= k < regions.len() && 0 <= j < regions[k]@.len() ==> (#[trigger] regions[k]@[j]) < nv && rid[regions[k]@[j] as int] == k
    &&& forall|x: int| 0 <= x < nv ==> regions[#[trigger] rid[x] as int]@.contains(x as usize)
    &&& forall|e: int| 0 <= e < edges.len() && passable(state[e], potential) ==> rid[(#[trigger] edges[e]).0 as int] == rid[edges[e].1 as int]
    &&& forall|x: int| 0 <= x < nv ==> linked(edges, state, potential, regions[#[trigger] rid[x] as int]@[0] as int, x)
}

proof fn lemma_linked_refl(edges: Seq<(usize, usize)>, state: Seq<EdgeState>, potential: bool, u: int)
    ensures
        linked(edges, state, potential, u, u),
{
}

proof fn lemma_linked_trans(edges: Seq<(usize, usize)>, state: Seq<EdgeState>, potential: bool, u: int, v: int, w: int)
    requires
        linked(edges, state, potential, u, v),
        linked(edges, state, potential, v, w),
    ensures
        linked(edges, state, potential, u, w),
{
}

proof fn lemma_linked_symm(edges: Seq<(usize, usize)>, state: Seq<EdgeState>, potential: bool, u: int, v: int)
    requires
        linked(edges, state, potential, u, v),
    ensures
        linked(edges, state, potential, v, u),
{
    assert forall|s: Set<int>| #[trigger] closed_set(s, edges, state, potential) && s.contains(v) implies s.contains(u) by {
        if !s.contains(u) {
            let t = Set::new(|x: int| !s.contains(x));
            assert(closed_set(t, edges, state, potential)) by {
                assert forall|e: int|
                    0 <= e < edges.len() && passable(state[e], potential) implies (t.contains((#[trigger] edges[e]).0 as int) <==> t.contains(edges[e].1 as int)) by {
                    assert(s.contains(edges[e].0 as int) <==> s.contains(edges[e].1 as int));
                }
            }
            assert(t.contains(u));
            assert(t.contains(v));
        }
    }
}

/// Crossing one more passable edge keeps a vertex reachable.
proof fn lemma_linked_step(edges: Seq<(usize, usize)>, state: Seq<EdgeState>, potential: bool, u: int, p: usize, q: usize, e: int)
    requires
        linked(edges, state, potential, u, p as int),
        0 <= e < edges.len(),
        passable(state[e], potential),
        edges[e] == (p, q) || edges[e] == (q, p),
    ensures
        linked(edges, state, potential, u, q as int),
{
    assert forall|s: Set<int>| #[trigger] closed_set(s, edges, state, potential) && s.contains(u) implies s.contains(q as int) by {
        assert(s.contains(p as int));
        assert(s.contains(edges[e].0 as int) <==> s.contains(edges[e].1 as int));
    }
}

/// Giving an unnumbered vertex a number keeps each numbered vertex closed.
proof fn lemma_closed_assign(
    edges: Seq<(usize, usize)>,
    state: Seq<EdgeState>,
    potential: bool,
    rid: Seq<usize>,
    x: int,
    q: int,
    id: usize,
)
    requires
        vertex_closed(edges, state, potential, rid, x),
        0 <= x < rid.len(),
        0 <= q < rid.len(),
        rid[q] == usize::MAX,
        rid[x] != usize::MAX,
        forall|e: int| 0 <= e < edges.len() ==> (#[trigger] edges[e]).0 < rid.len() && edges[e].1 < rid.len(),
    ensures
        vertex_closed(edges, state, potential, rid.update(q, id), x),
{
    let r2 = rid.update(q, id);
    assert forall|e: int|
        0 <= e < edges.len() && passable(state[e], potential) && (#[trigger] edges[e]).0 == x implies r2[edges[e].1 as int] == r2[x] by {
        assert(rid[edges[e].1 as int] == rid[x]);
    }
    assert forall|e: int|
        0 <= e < edges.len() && passable(state[e], potential) && (#[trigger] edges[e]).1 == x implies r2[edges[e].0 as int] == r2[x] by {
        assert(rid[edges[e].0 as int] == rid[x]);
    }
}

/// Distinct indices below `n` number at most `n`.
proof fn lemma_distinct_bounded(s: Seq<usize>, n: nat)
    requires
        s.no_duplicates(),
        forall|j: int| 0 <= j < s.len() ==> #[trigger] s[j] < n,
    ensures
        s.len() <= n,
{
    let m = s.map_values(|x: usize| x as int);
    assert(m.no_duplicates()) by {
        assert forall|a: int, b: int| 0 <= a < m.len() && 0 <= b < m.len() && a != b implies m[a] != m[b] by {
            assert(s[a] != s[b]);
        }
    }
    m.unique_seq_to_set();
    vstd::set_lib::lemma_int_range(0, n as int);
    assert(m.to_set().subset_of(vstd::set_lib::set_int_range(0, n as int))) by {
        assert forall|y: int| m.to_set().contains(y) implies vstd::set_lib::set_int_range(0, n as int).contains(y) by {
            assert(m.contains(y));
            let j = choose|j: int| 0 <= j < m.len() && m[j] == y;
            assert(s[j] < n);
        }
    }
    vstd::set_lib::lemma_len_subset(m.to_set(), vstd::set_lib::set_int_range(0, n as int));
}

/// Two vertices share a region exactly when one can be reached from the other.
proof fn lemma_regions_linked(
    nv: nat,
    edges: Seq<(usize, usize)>,
    state: Seq<EdgeState>,
    potential: bool,
    rid: Seq<usize>,
    regions: Seq<Vec<usize>>,
    u: int,
    v: int,
)
    requires
        regions_ok(nv, edges, state, potential, rid, regions),
        forall|e: int| 0 <= e < edges.len() ==> (#[trigger] edges[e]).0 < nv && edges[e].1 < nv,
        0 <= u < nv,
        0 <= v < nv,
    ensures
        rid[u] == rid[v] <==> linked(edges, state, potential, u, v),
{
    if rid[u] == rid[v] {
        let root = regions[rid[u] as int]@[0] as int;
        assert(linked(edges, state, potential, root, u));
        assert(linked(edges, state, potential, root, v));
        lemma_linked_symm(edges, state, potential, root, u);
        lemma_linked_trans(edges, state, potential, u, root, v);
    }
    if linked(edges, state, potential, u, v) {
        let s = Set::new(|x: int| 0 <= x < nv && rid[x] == rid[u]);
        assert(closed_set(s, edges, state, potential)) by {
            assert forall|e: int|
                0 <= e < edges.len() && passable(state[e], potential) implies (s.contains((#[trigger] edges[e]).0 as int) <==> s.contains(edges[e].1 as int)) by {
                assert(rid[edges[e].0 as int] == rid[edges[e].1 as int]);
            }
        }
        assert(s.contains(u));
        assert(s.contains(v));
    }
}

/// The state of a graph division constraint during the search: the edges
/// decided so far and the bounds known of each size variable.
pub struct GraphDivision {
    num_vertices: usize,
    num_edges: usize,
    vertex_weights: Vec<i32>,
    domains: Vec<Vec<i32>>,
    dom_lits: Vec<Vec<Lit>>,
    edges: Vec<(usize, usize)>,
    edge_lits: Vec<Lit>,
    literals: Vec<(Lit, LiteralInfo)>,
    /// (neighbour, edge) for each vertex
    adj: Vec<Vec<(usize, usize)>>,
    edge_state: Vec<EdgeState>,
    lower_bound: Vec<i32>,
    lower_bound_lit: Vec<Option<Lit>>,
    upper_bound: Vec<i32>,
    upper_bound_lit: Vec<Option<Lit>>,
    unique_lits: Vec<Lit>,
    propagations: Vec<Lit>,
    /// why `unique_lits[i]` was deduced
    propagation_reasons: Vec<Reason>,
    /// the literals that explain the current conflict
    inconsistency_reason: Vec<Lit>,
    /// a deduced literal that the solver refused because it was already false
    propagation_failure_lit: Option<Lit>,
    undo_stack: Vec<UndoInfo>,
}

impl GraphDivision {
    /// The literals deduced by the last analysis, in order.
    pub closed spec fn spec_propagations(&self) -> Seq<Lit> {
        self.propagations@
    }

    pub closed spec fn spec_num_vertices(&self) -> nat {
        self.num_vertices as nat
    }

    pub closed spec fn spec_num_edges(&self) -> nat {
        self.num_edges as nat
    }

    pub closed spec fn spec_edges(&self) -> Seq<(usize, usize)> {
        self.edges@
    }

    pub closed spec fn spec_edge_lits(&self) -> Seq<Lit> {
        self.edge_lits@
    }

    pub closed spec fn spec_edge_state(&self) -> Seq<EdgeState> {
        self.edge_state@
    }

    pub closed spec fn spec_weights(&self) -> Seq<i32> {
        self.vertex_weights@
    }

    pub closed spec fn spec_domain(&self, i: int) -> Seq<i32> {
        self.domains@[i]@
    }

    pub closed spec fn spec_lower_bound(&self) -> Seq<i32> {
        self.lower_bound@
    }

    pub closed spec fn spec_upper_bound(&self) -> Seq<i32> {
        self.upper_bound@
    }

    /// `l` is one of the literals of this constraint.
    pub closed spec fn known(&self, l: Lit) -> bool {
        self.unique_lits@.contains(l)
    }

    spec fn undo_ok(&self, u: UndoInfo) -> bool {
        match u {
            UndoInfo::LevelBoundary => true,
            UndoInfo::Edge(e) => e < self.num_edges,
            UndoInfo::LowerBound(i, v, _) => i < self.num_vertices && self.domains@[i as int]@.len() > 0 && in_domain(self.domains@[i as int]@, v),
            UndoInfo::UpperBound(i, v, _) => i < self.num_vertices && self.domains@[i as int]@.len() > 0 && in_domain(self.domains@[i as int]@, v),
        }
    }

    spec fn shape_ok(&self) -> bool {
        let nv = self.num_vertices as nat;
        let ne = self.num_edges as nat;
        &&& self.vertex_weights@.len() == nv
        &&& self.domains@.len() == nv
        &&& self.dom_lits@.len() == nv
        &&& self.edges@.len() == ne
        &&& self.edge_lits@.len() == ne
        &&& self.edge_state@.len() == ne
        &&& self.lower_bound@.len() == nv
        &&& self.lower_bound_lit@.len() == nv
        &&& self.upper_bound@.len() == nv
        &&& self.upper_bound_lit@.len() == nv
        &&& self.propagation_reasons@.len() == self.unique_lits@.len()
        &&& adjacency_ok(self.adj@, self.edges@, nv)
        &&& forall|i: int| 0 <= i < nv ==> #[trigger] self.vertex_weights@[i] >= 0
        &&& weight_sum(self.vertex_weights@) <= i32::MAX
        &&& forall|i: int| 0 <= i < nv ==> non_decreasing(#[trigger] self.domains@[i]@)
        &&& forall|i: int| 0 <= i < nv && (#[trigger] self.domains@[i]@).len() > 0 ==> self.domains@[i]@.len() == self.dom_lits@[i]@.len() + 1
    }

    spec fn bounds_ok(&self) -> bool {
        forall|i: int| 0 <= i < self.num_vertices ==> {
            if (#[trigger] self.domains@[i])@.len() == 0 {
                self.lower_bound@[i] == 0 && self.upper_bound@[i] == i32::MAX
            } else {
                in_domain(self.domains@[i]@, self.lower_bound@[i]) && in_domain(self.domains@[i]@, self.upper_bound@[i])
            }
        }
    }

    spec fn lits_ok(&self) -> bool {
        &&& lits_strictly_sorted(self.unique_lits@)
        &&& forall|k: int| 0 <= k < self.unique_lits@.len() ==> lit_wf(#[trigger] self.unique_lits@[k])
        &&& keys_sorted(self.literals@)
        &&& forall|k: int| 0 <= k < self.literals@.len() ==>
            self.known((#[trigger] self.literals@[k]).0)
                && info_valid(self.literals@[k].1, self.domains@, self.num_vertices as nat, self.num_edges as nat)
        &&& forall|e: int| 0 <= e < self.num_edges ==>
            self.known(#[trigger] self.edge_lits@[e]) && self.known(self.edge_lits@[e].spec_not())
        &&& forall|i: int, k: int| 0 <= i < self.num_vertices && self.domains@[i]@.len() > 0 && 0 <= k < self.dom_lits@[i]@.len() ==>
            self.known(#[trigger] self.dom_lits@[i]@[k]) && self.known(self.dom_lits@[i]@[k].spec_not())
        &&& forall|k: int| 0 <= k < self.propagations@.len() ==> self.known(#[trigger] self.propagations@[k])
        &&& forall|k: int| 0 <= k < self.undo_stack@.len() ==> self.undo_ok(#[trigger] self.undo_stack@[k])
    }

    /// The constraint's invariant.
    pub closed spec fn wf(&self) -> bool {
        &&& self.shape_ok()
        &&& self.bounds_ok()
        &&& self.lits_ok()
    }
}


impl GraphDivision {
    /// A graph division constraint over a graph whose vertices `i` carry the
    /// weights `vertex_weights[i]` and, where `domains[i]` is not empty, a size
    /// variable with those sorted values, in order encoding by `dom_lits[i]`
    /// (`dom_lits[i][j]` true when the size exceeds `domains[i][j]`); the
    /// literal `edge_lits[e]` is true when edge `edges[e]` is a border.
    pub fn new(
        domains: &[Vec<i32>],
        dom_lits: &[Vec<Lit>],
        vertex_weights: &[i32],
        edges: &[(usize, usize)],
        edge_lits: &[Lit],
    ) -> (r: GraphDivision)
        requires
            domains@.len() == dom_lits@.len(),
            domains@.len() == vertex_weights@.len(),
            forall|i: int| 0 <= i < vertex_weights@.len() ==> #[trigger] vertex_weights@[i] >= 0,
            weight_sum(vertex_weights@) <= i32::MAX,
            edges@.len() == edge_lits@.len(),
            forall|i: int| 0 <= i < domains@.len() ==> non_decreasing(#[trigger] domains@[i]@),
            forall|i: int| 0 <= i < domains@.len() && (#[trigger] domains@[i]@).len() > 0 ==> domains@[i]@.len() == dom_lits@[i]@.len() + 1,
            forall|e: int| 0 <= e < edges@.len() ==> (#[trigger] edges@[e]).0 < domains@.len() && edges@[e].1 < domains@.len(),
            forall|e: int| 0 <= e < edge_lits@.len() ==> lit_wf(#[trigger] edge_lits@[e]),
            forall|i: int, k: int| 0 <= i < dom_lits@.len() && 0 <= k < dom_lits@[i]@.len() ==> lit_wf(#[trigger] dom_lits@[i]@[k]),
        ensures
            r.wf(),
            r.spec_num_vertices() == domains@.len(),
            r.spec_num_edges() == edges@.len(),
            r.spec_edges() == edges@,
            r.spec_edge_lits() == edge_lits@,
            r.spec_weights() == vertex_weights@,
            forall|i: int| 0 <= i < domains@.len() ==> r.spec_domain(i) == (#[trigger] domains@[i])@,
            forall|e: int| 0 <= e < edges@.len() ==> (#[trigger] r.spec_edge_state()[e]) == EdgeState::Undecided,
            forall|i: int| 0 <= i < domains@.len() ==> (#[trigger] r.spec_lower_bound()[i]) == (if domains@[i]@.len() == 0 { 0 } else { domains@[i]@[0] }),
            forall|i: int| 0 <= i < domains@.len() ==> (#[trigger] r.spec_upper_bound()[i]) == (if domains@[i]@.len() == 0 { i32::MAX } else { domains@[i]@.last() }),
            r.spec_propagations() == Seq::<Lit>::empty(),
    {
        let num_vertices = domains.len();
        let num_edges = edges.len();
        let ghost dv: Seq<Vec<i32>> = domains@;
        let ghost nv = num_vertices as nat;
        let ghost ne = num_edges as nat;

        let mut literals: Vec<(Lit, LiteralInfo)> = Vec::new();
        let mut keys: Vec<i32> = Vec::new();
        let mut i: usize = 0;
        while i < num_vertices
            invariant
                i <= num_vertices,
                num_vertices == domains@.len(),
                dv == domains@,
                nv == num_vertices,
                domains@.len() == dom_lits@.len(),
                forall|i: int, k: int| 0 <= i < dom_lits@.len() && 0 <= k < dom_lits@[i]@.len() ==> lit_wf(#[trigger] dom_lits@[i]@[k]),
                forall|i: int| 0 <= i < domains@.len() && (#[trigger] domains@[i]@).len() > 0 ==> domains@[i]@.len() == dom_lits@[i]@.len() + 1,
                keys@.len() == literals@.len(),
                forall|k: int| 0 <= k < keys@.len() ==> #[trigger] keys@[k] >= 0,
                entries_ok(literals@, dv, nv, ne, keys@),
                forall|a: int, k: int| 0 <= a < i && domains@[a]@.len() > 0 && 0 <= k < dom_lits@[a]@.len() ==>
                    keys@.contains((#[trigger] dom_lits@[a]@[k]).0) && keys@.contains(dom_lits@[a]@[k].spec_not().0),
            decreases num_vertices - i,
        {
            if domains[i].len() > 0 {
                let mut j: usize = 0;
                while j < dom_lits[i].len()
                    invariant
                        i < num_vertices,
                        num_vertices == domains@.len(),
                        dv == domains@,
                        nv == num_vertices,
                        domains@.len() == dom_lits@.len(),
                        domains@[i as int]@.len() > 0,
                        domains@[i as int]@.len() == dom_lits@[i as int]@.len() + 1,
                        forall|i: int, k: int| 0 <= i < dom_lits@.len() && 0 <= k < dom_lits@[i]@.len() ==> lit_wf(#[trigger] dom_lits@[i]@[k]),
                        j <= dom_lits@[i as int]@.len(),
                        keys@.len() == literals@.len(),
                        forall|k: int| 0 <= k < keys@.len() ==> #[trigger] keys@[k] >= 0,
                        entries_ok(literals@, dv, nv, ne, keys@),
                        forall|a: int, k: int| 0 <= a < i && domains@[a]@.len() > 0 && 0 <= k < dom_lits@[a]@.len() ==>
                            keys@.contains((#[trigger] dom_lits@[a]@[k]).0) && keys@.contains(dom_lits@[a]@[k].spec_not().0),
                        forall|k: int| 0 <= k < j ==>
                            keys@.contains((#[trigger] dom_lits@[i as int]@[k]).0) && keys@.contains(dom_lits@[i as int]@[k].spec_not().0),
                    decreases dom_lits@[i as int]@.len() - j,
                {
                    let l = dom_lits[i][j];
                    let nl = l.negate();
                    let lo = domains[i][j + 1];
                    let hi = domains[i][j];
                    proof {
                        assert(in_domain(domains@[i as int]@, lo)) by {
                            assert(domains@[i as int]@[j + 1] == lo);
                        }
                        assert(in_domain(domains@[i as int]@, hi)) by {
                            assert(domains@[i as int]@[j as int] == hi);
                        }
                        lemma_push_contains(keys@, l.0);
                        lemma_push_contains(keys@.push(l.0), nl.0);
                    }
                    let ghost k0 = keys@;
                    let ghost l0 = literals@;
                    literals.push((l, LiteralInfo::LowerBound(i, lo)));
                    keys.push(l.0);
                    literals.push((nl, LiteralInfo::UpperBound(i, hi)));
                    keys.push(nl.0);
                    proof {
                        assert(keys@ == k0.push(l.0).push(nl.0));
                        assert forall|k: int| 0 <= k < literals@.len() implies info_valid((#[trigger] literals@[k]).1, dv, nv, ne) && keys@.contains(literals@[k].0.0) by {
                            if k < l0.len() {
                                assert(literals@[k] == l0[k]);
                            } else if k == l0.len() {
                                assert(keys@[k] == l.0);
                            } else {
                                assert(keys@[k] == nl.0);
                            }
                        }
                    }
                    j += 1;
                }
            }
            i += 1;
        }
        let mut e: usize = 0;
        while e < num_edges
            invariant
                e <= num_edges,
                num_edges == edges@.len(),
                edges@.len() == edge_lits@.len(),
                forall|e: int| 0 <= e < edge_lits@.len() ==> lit_wf(#[trigger] edge_lits@[e]),
                dv == domains@,
                nv == num_vertices,
                ne == num_edges,
                num_vertices == domains@.len(),
                keys@.len() == literals@.len(),
                forall|k: int| 0 <= k < keys@.len() ==> #[trigger] keys@[k] >= 0,
                entries_ok(literals@, dv, nv, ne, keys@),
                forall|a: int, k: int| 0 <= a < num_vertices && domains@[a]@.len() > 0 && 0 <= k < dom_lits@[a]@.len() ==>
                    keys@.contains((#[trigger] dom_lits@[a]@[k]).0) && keys@.contains(dom_lits@[a]@[k].spec_not().0),
                forall|k: int| 0 <= k < e ==> keys@.contains((#[trigger] edge_lits@[k]).0) && keys@.contains(edge_lits@[k].spec_not().0),
            decreases num_edges - e,
        {
            let l = edge_lits[e];
            let nl = l.negate();
            proof {
                lemma_push_contains(keys@, l.0);
                lemma_push_contains(keys@.push(l.0), nl.0);
            }
            let ghost k0 = keys@;
            let ghost l0 = literals@;
            literals.push((l, LiteralInfo::Edge(e, EdgeState::Disconnected)));
            keys.push(l.0);
            literals.push((nl, LiteralInfo::Edge(e, EdgeState::Connected)));
            keys.push(nl.0);
            proof {
                assert(keys@ == k0.push(l.0).push(nl.0));
                assert forall|k: int| 0 <= k < literals@.len() implies info_valid((#[trigger] literals@[k]).1, dv, nv, ne) && keys@.contains(literals@[k].0.0) by {
                    if k < l0.len() {
                        assert(literals@[k] == l0[k]);
                    } else if k == l0.len() {
                        assert(keys@[k] == l.0);
                    } else {
                        assert(keys@[k] == nl.0);
                    }
                }
            }
            e += 1;
        }
        let literals = sort_entries(literals, Ghost(dv), Ghost(nv), Ghost(ne), Ghost(keys@));
        let values = sort_dedup(&keys);
        let mut unique_lits: Vec<Lit> = Vec::new();
        let mut u: usize = 0;
        while u < values.len()
            invariant
                u <= values@.len(),
                unique_lits@.len() == u,
                forall|k: int| 0 <= k < u ==> (#[trigger] unique_lits@[k]).0 == values@[k],
            decreases values@.len() - u,
        {
            unique_lits.push(Lit(values[u]));
            u += 1;
        }
        proof {
            assert forall|x: i32| keys@.contains(x) implies unique_lits@.contains(Lit(x)) by {
                assert(values@.contains(x));
                let k = choose|k: int| 0 <= k < values@.len() && values@[k] == x;
                assert(unique_lits@[k] == Lit(x));
            }
            assert forall|k: int| 0 <= k < unique_lits@.len() implies lit_wf(#[trigger] unique_lits@[k]) by {
                assert(values@.contains(values@[k]));
                assert(keys@.contains(values@[k]));
            }
        }

        let mut adj: Vec<Vec<(usize, usize)>> = Vec::new();
        let mut a: usize = 0;
        while a < num_vertices
            invariant
                a <= num_vertices,
                adj@.len() == a,
                forall|p: int| 0 <= p < a ==> (#[trigger] adj@[p])@.len() == 0,
            decreases num_vertices - a,
        {
            adj.push(Vec::new());
            a += 1;
        }
        let mut b: usize = 0;
        while b < num_edges
            invariant
                b <= num_edges,
                num_edges == edges@.len(),
                num_vertices == domains@.len(),
                adj@.len() == num_vertices,
                forall|e: int| 0 <= e < edges@.len() ==> (#[trigger] edges@[e]).0 < domains@.len() && edges@[e].1 < domains@.len(),
                forall|p: int, k: int|
                    0 <= p < num_vertices && 0 <= k < adj@[p]@.len() ==> {
                        let (q, e) = #[trigger] adj@[p]@[k];
                        &&& e < b
                        &&& q < num_vertices
                        &&& (edges@[e as int] == (p as usize, q) || edges@[e as int] == (q, p as usize))
                    },
                forall|e: int| 0 <= e < b ==> (#[trigger] adj@[edges@[e].0 as int]@).contains((edges@[e].1, e as usize)),
                forall|e: int| 0 <= e < b ==> (#[trigger] adj@[edges@[e].1 as int]@).contains((edges@[e].0, e as usize)),
            decreases num_edges - b,
        {
            let (x, y) = edges[b];
            let ghost adj0 = adj@;
            proof {
                lemma_push_contains(adj@[x as int]@, (y, b));
            }
            adj[x].push((y, b));
            let ghost adj1 = adj@;
            proof {
                lemma_push_contains(adj@[y as int]@, (x, b));
            }
            adj[y].push((x, b));
            proof {
                assert forall|p: int, k: int|
                    0 <= p < num_vertices && 0 <= k < adj@[p]@.len() implies {
                        let (q, e) = #[trigger] adj@[p]@[k];
                        &&& e < b + 1
                        &&& q < num_vertices
                        &&& (edges@[e as int] == (p as usize, q) || edges@[e as int] == (q, p as usize))
                    } by {
                    if p == y && k == adj1[p]@.len() {
                    } else {
                        assert(k < adj1[p]@.len());
                        assert(adj@[p]@[k] == adj1[p]@[k]);
                        if p == x && k == adj0[p]@.len() {
                        } else {
                            assert(adj1[p]@[k] == adj0[p]@[k]);
                        }
                    }
                }
                assert forall|e: int| 0 <= e < b + 1 implies (#[trigger] adj@[edges@[e].0 as int]@).contains((edges@[e].1, e as usize)) by {
                    if e < b {
                        assert(adj0[edges@[e].0 as int]@.contains((edges@[e].1, e as usize)));
                        lemma_push_contains(adj1[y as int]@, (x, b));
                    } else {
                        lemma_push_contains(adj1[y as int]@, (x, b));
                    }
                }
                assert forall|e: int| 0 <= e < b + 1 implies (#[trigger] adj@[edges@[e].1 as int]@).contains((edges@[e].0, e as usize)) by {
                    if e < b {
                        assert(adj0[edges@[e].1 as int]@.contains((edges@[e].0, e as usize)));
                        lemma_push_contains(adj0[x as int]@, (y, b));
                    }
                }
            }
            b += 1;
        }

        let num_unique = unique_lits.len();
        let mut lower_bound: Vec<i32> = Vec::new();
        let mut upper_bound: Vec<i32> = Vec::new();
        let mut lower_bound_lit: Vec<Option<Lit>> = Vec::new();
        let mut upper_bound_lit: Vec<Option<Lit>> = Vec::new();
        let mut c: usize = 0;
        while c < num_vertices
            invariant
                c <= num_vertices,
                num_vertices == domains@.len(),
                lower_bound@.len() == c,
                upper_bound@.len() == c,
                lower_bound_lit@.len() == c,
                upper_bound_lit@.len() == c,
                forall|i: int| 0 <= i < c ==> (#[trigger] lower_bound@[i]) == (if domains@[i]@.len() == 0 { 0 } else { domains@[i]@[0] }),
                forall|i: int| 0 <= i < c ==> (#[trigger] upper_bound@[i]) == (if domains@[i]@.len() == 0 { i32::MAX } else { domains@[i]@.last() }),
            decreases num_vertices - c,
        {
            let d = &domains[c];
            if d.len() == 0 {
                lower_bound.push(0);
                upper_bound.push(i32::MAX);
            } else {
                lower_bound.push(d[0]);
                upper_bound.push(d[d.len() - 1]);
            }
            lower_bound_lit.push(None);
            upper_bound_lit.push(None);
            c += 1;
        }
        let mut edge_state: Vec<EdgeState> = Vec::new();
        let mut f: usize = 0;
        while f < num_edges
            invariant
                f <= num_edges,
                edge_state@.len() == f,
                forall|e: int| 0 <= e < f ==> (#[trigger] edge_state@[e]) == EdgeState::Undecided,
            decreases num_edges - f,
        {
            edge_state.push(EdgeState::Undecided);
            f += 1;
        }
        let mut propagation_reasons: Vec<Reason> = Vec::new();
        let mut g: usize = 0;
        while g < num_unique
            invariant
                g <= num_unique,
                propagation_reasons@.len() == g,
            decreases num_unique - g,
        {
            propagation_reasons.push(Reason::NotPropagated);
            g += 1;
        }
        let r = GraphDivision {
            num_vertices,
            num_edges,
            vertex_weights: copy_slice(vertex_weights),
            domains: copy_rows(domains),
            dom_lits: copy_rows(dom_lits),
            edges: copy_slice(edges),
            edge_lits: copy_slice(edge_lits),
            literals,
            adj,
            edge_state,
            lower_bound,
            lower_bound_lit,
            upper_bound,
            upper_bound_lit,
            unique_lits,
            propagations: Vec::new(),
            propagation_reasons,
            inconsistency_reason: Vec::new(),
            propagation_failure_lit: None,
            undo_stack: Vec::new(),
        };
        proof {
            assert(r.domains@.len() == dv.len());
            assert(r.edge_lits@ == edge_lits@);
            assert(r.edges@ == edges@);
            assert(r.vertex_weights@ == vertex_weights@);
            assert forall|i: int| 0 <= i < r.num_vertices implies {
                if (#[trigger] r.domains@[i])@.len() == 0 {
                    r.lower_bound@[i] == 0 && r.upper_bound@[i] == i32::MAX
                } else {
                    in_domain(r.domains@[i]@, r.lower_bound@[i]) && in_domain(r.domains@[i]@, r.upper_bound@[i])
                }
            } by {
                if r.domains@[i]@.len() > 0 {
                    assert(r.domains@[i]@[0] == r.lower_bound@[i]);
                    assert(r.domains@[i]@[r.domains@[i]@.len() - 1] == r.upper_bound@[i]);
                }
            }
            assert forall|k: int| 0 <= k < r.literals@.len() implies
                r.known((#[trigger] r.literals@[k]).0)
                    && info_valid(r.literals@[k].1, r.domains@, r.num_vertices as nat, r.num_edges as nat) by {
                assert(keys@.contains(r.literals@[k].0.0));
                assert(Lit(r.literals@[k].0.0) == r.literals@[k].0);
            }
            assert forall|e: int| 0 <= e < r.num_edges implies
                r.known(#[trigger] r.edge_lits@[e]) && r.known(r.edge_lits@[e].spec_not()) by {
                assert(keys@.contains(edge_lits@[e].0));
                assert(Lit(edge_lits@[e].0) == edge_lits@[e]);
                assert(keys@.contains(edge_lits@[e].spec_not().0));
                assert(Lit(edge_lits@[e].spec_not().0) == edge_lits@[e].spec_not());
            }
            assert forall|i: int, k: int| 0 <= i < r.num_vertices && r.domains@[i]@.len() > 0 && 0 <= k < r.dom_lits@[i]@.len() implies
                r.known(#[trigger] r.dom_lits@[i]@[k]) && r.known(r.dom_lits@[i]@[k].spec_not()) by {
                assert(keys@.contains(dom_lits@[i]@[k].0));
                assert(Lit(dom_lits@[i]@[k].0) == dom_lits@[i]@[k]);
                assert(keys@.contains(dom_lits@[i]@[k].spec_not().0));
                assert(Lit(dom_lits@[i]@[k].spec_not().0) == dom_lits@[i]@[k].spec_not());
            }
        }
        r
    }
}


/// Some entry of `ls` for `lit` at a position in `from..to` sets edge `e`.
spec fn touches_edge(ls: Seq<(Lit, LiteralInfo)>, lit: Lit, from: int, to: int, e: int) -> bool {
    exists|k: int| from <= k < to && ls[k].0 == lit && info_edge((#[trigger] ls[k]).1, e)
}

/// The entry sets edge `e`.
spec fn info_edge(info: LiteralInfo, e: int) -> bool {
    match info {
        LiteralInfo::Edge(e2, _) => e2 == e,
        _ => false,
    }
}

/// The lower bound that the entry gives for vertex `i`, if any.
spec fn lower_of(info: LiteralInfo, i: int) -> Option<i32> {
    match info {
        LiteralInfo::LowerBound(i2, v) => if i2 == i { Some(v) } else { None },
        _ => None,
    }
}

/// The upper bound that the entry gives for vertex `i`, if any.
spec fn upper_of(info: LiteralInfo, i: int) -> Option<i32> {
    match info {
        LiteralInfo::UpperBound(i2, v) => if i2 == i { Some(v) } else { None },
        _ => None,
    }
}

/// Some entry of `ls` for `lit` at a position in `from..to` sets edge `e` to `st`.
spec fn sets_edge(ls: Seq<(Lit, LiteralInfo)>, lit: Lit, from: int, to: int, e: int, st: EdgeState) -> bool {
    exists|k: int| from <= k < to && ls[k].0 == lit && (#[trigger] ls[k]).1 == LiteralInfo::Edge(e as usize, st)
}

/// `x` is at least every lower bound for vertex `i` that an entry of `ls`
/// for `lit` at a position in `from..to` gives.
spec fn above_lower(ls: Seq<(Lit, LiteralInfo)>, lit: Lit, from: int, to: int, i: int, x: i32) -> bool {
    forall|k: int| from <= k < to && ls[k].0 == lit && lower_of((#[trigger] ls[k]).1, i) is Some ==> x >= lower_of(ls[k].1, i)->0
}

/// Some entry of `ls` for `lit` at a position in `from..to` gives `x` as
/// lower bound for vertex `i`.
spec fn gives_lower(ls: Seq<(Lit, LiteralInfo)>, lit: Lit, from: int, to: int, i: int, x: i32) -> bool {
    exists|k: int| from <= k < to && ls[k].0 == lit && (#[trigger] ls[k]).1 == LiteralInfo::LowerBound(i as usize, x)
}

/// `x` is at most every upper bound for vertex `i` that an entry of `ls`
/// for `lit` at a position in `from..to` gives.
spec fn below_upper(ls: Seq<(Lit, LiteralInfo)>, lit: Lit, from: int, to: int, i: int, x: i32) -> bool {
    forall|k: int| from <= k < to && ls[k].0 == lit && upper_of((#[trigger] ls[k]).1, i) is Some ==> x <= upper_of(ls[k].1, i)->0
}

/// Some entry of `ls` for `lit` at a position in `from..to` gives `x` as
/// upper bound for vertex `i`.
spec fn gives_upper(ls: Seq<(Lit, LiteralInfo)>, lit: Lit, from: int, to: int, i: int, x: i32) -> bool {
    exists|k: int| from <= k < to && ls[k].0 == lit && (#[trigger] ls[k]).1 == LiteralInfo::UpperBound(i as usize, x)
}

/// The effect of the entries of `lit` at positions `from..to` on the edge
/// states and the bounds, from `o` to `s`.
spec fn notified(o: GraphDivision, s: GraphDivision, lit: Lit, from: int, to: int) -> bool {
    let ls = o.literals@;
    &&& forall|e: int|
        0 <= e < o.num_edges ==> (touches_edge(ls, lit, from, to, e) ==> sets_edge(ls, lit, from, to, e, #[trigger] s.edge_state@[e]))
            && (!touches_edge(ls, lit, from, to, e) ==> s.edge_state@[e] == o.edge_state@[e])
    &&& forall|i: int|
        0 <= i < o.num_vertices ==> (#[trigger] s.lower_bound@[i]) >= o.lower_bound@[i] && above_lower(ls, lit, from, to, i, s.lower_bound@[i])
            && (s.lower_bound@[i] == o.lower_bound@[i] || gives_lower(ls, lit, from, to, i, s.lower_bound@[i]))
    &&& forall|i: int|
        0 <= i < o.num_vertices ==> (#[trigger] s.upper_bound@[i]) <= o.upper_bound@[i] && below_upper(ls, lit, from, to, i, s.upper_bound@[i])
            && (s.upper_bound@[i] == o.upper_bound@[i] || gives_upper(ls, lit, from, to, i, s.upper_bound@[i]))
}


/// The state that taking back changes acts on: edge states, lower bounds
/// with their literals, upper bounds with their literals.
type Marks = (Seq<EdgeState>, Seq<i32>, Seq<Option<Lit>>, Seq<i32>, Seq<Option<Lit>>);

/// Taking back one recorded change.
spec fn undo_one(u: UndoInfo, s: Marks) -> Marks {
    match u {
        UndoInfo::LevelBoundary => s,
        UndoInfo::Edge(e) => if (e as int) < s.0.len() {
            (s.0.update(e as int, EdgeState::Undecided), s.1, s.2, s.3, s.4)
        } else {
            s
        },
        UndoInfo::LowerBound(i, v, l) => (s.0, s.1.update(i as int, v), s.2.update(i as int, l), s.3, s.4),
        UndoInfo::UpperBound(i, v, l) => (s.0, s.1, s.2, s.3.update(i as int, v), s.4.update(i as int, l)),
    }
}

/// Taking back the recorded changes `us`, the last first.
spec fn undo_all(us: Seq<UndoInfo>, s: Marks) -> Marks
    decreases us.len(),
{
    if us.len() == 0 {
        s
    } else {
        undo_all(us.drop_last(), undo_one(us.last(), s))
    }
}

/// Marking edge `e` undecided before or after taking back changes gives the
/// same.
proof fn lemma_undo_all_edge(us: Seq<UndoInfo>, s: Marks, e: int)
    requires
        0 <= e < s.0.len(),
    ensures
        undo_all(us, (s.0.update(e, EdgeState::Undecided), s.1, s.2, s.3, s.4)) == {
            let r = undo_all(us, s);
            (r.0.update(e, EdgeState::Undecided), r.1, r.2, r.3, r.4)
        },
    decreases us.len(),
{
    if us.len() > 0 {
        let u = us.last();
        let s2 = undo_one(u, s);
        let t = (s.0.update(e, EdgeState::Undecided), s.1, s.2, s.3, s.4);
        let t2 = undo_one(u, t);
        assert(t2 == (s2.0.update(e, EdgeState::Undecided), s2.1, s2.2, s2.3, s2.4)) by {
            match u {
                UndoInfo::Edge(e2) => {
                    assert(t2.0 =~= s2.0.update(e, EdgeState::Undecided));
                },
                _ => {},
            }
        }
        lemma_undo_all_edge(us.drop_last(), s2, e);
    }
}

/// Setting an edge that was undecided at the start, and recording it,
/// keeps the recorded changes taking the state back to the start.
proof fn lemma_undo_step_edge(r0: Seq<UndoInfo>, m1: Marks, s0m: Marks, e: usize, st: EdgeState)
    requires
        undo_all(r0, m1) == s0m,
        (e as int) < m1.0.len(),
        (e as int) < s0m.0.len(),
        s0m.0[e as int] == EdgeState::Undecided,
    ensures
        undo_all(r0.push(UndoInfo::Edge(e)), (m1.0.update(e as int, st), m1.1, m1.2, m1.3, m1.4)) == s0m,
{
    let r1 = r0.push(UndoInfo::Edge(e));
    let m2 = (m1.0.update(e as int, st), m1.1, m1.2, m1.3, m1.4);
    assert(r1.drop_last() =~= r0);
    assert(r1.last() == UndoInfo::Edge(e));
    assert(undo_one(UndoInfo::Edge(e), m2) == (m1.0.update(e as int, EdgeState::Undecided), m1.1, m1.2, m1.3, m1.4)) by {
        assert(m1.0.update(e as int, st).update(e as int, EdgeState::Undecided) =~= m1.0.update(e as int, EdgeState::Undecided));
    }
    lemma_undo_all_edge(r0, m1, e as int);
    assert(s0m.0.update(e as int, EdgeState::Undecided) =~= s0m.0);
}

/// The position of the last level boundary in `us`, or `-1`.
spec fn last_boundary(us: Seq<UndoInfo>) -> int
    decreases us.len(),
{
    if us.len() == 0 {
        -1
    } else if us.last() is LevelBoundary {
        us.len() - 1
    } else {
        last_boundary(us.drop_last())
    }
}

proof fn lemma_last_boundary(us: Seq<UndoInfo>)
    ensures
        -1 <= last_boundary(us) < us.len(),
        last_boundary(us) >= 0 ==> us[last_boundary(us)] is LevelBoundary,
        forall|k: int| last_boundary(us) < k < us.len() ==> !(#[trigger] us[k] is LevelBoundary),
    decreases us.len(),
{
    if us.len() > 0 && !(us.last() is LevelBoundary) {
        lemma_last_boundary(us.drop_last());
        assert forall|k: int| last_boundary(us) < k < us.len() implies !(#[trigger] us[k] is LevelBoundary) by {
            if k < us.len() - 1 {
                assert(us[k] == us.drop_last()[k]);
            }
        }
    }
}

/// Taking back one more change below the ones already taken back.
proof fn lemma_undo_all_front(u: UndoInfo, us: Seq<UndoInfo>, s: Marks)
    ensures
        undo_all(seq![u] + us, s) == undo_one(u, undo_all(us, s)),
    decreases us.len(),
{
    if us.len() == 0 {
        assert(seq![u] + us =~= seq![u]);
        assert(seq![u].drop_last() =~= Seq::<UndoInfo>::empty());
        assert(seq![u].last() == u);
        assert(undo_all(Seq::<UndoInfo>::empty(), undo_one(u, s)) == undo_one(u, s));
        assert(undo_all(us, s) == s);
    } else {
        let v = us.last();
        lemma_undo_all_front(u, us.drop_last(), undo_one(v, s));
        assert((seq![u] + us).drop_last() =~= seq![u] + us.drop_last());
        assert((seq![u] + us).last() == v);
    }
}

impl GraphDivision {
    /// The parts that never change after construction.
    pub closed spec fn same_graph(&self, o: &Self) -> bool {
        &&& self.num_vertices == o.num_vertices
        &&& self.num_edges == o.num_edges
        &&& self.vertex_weights@ == o.vertex_weights@
        &&& self.domains@ == o.domains@
        &&& self.dom_lits@ == o.dom_lits@
        &&& self.edges@ == o.edges@
        &&& self.edge_lits@ == o.edge_lits@
        &&& self.literals@ == o.literals@
        &&& self.adj@ == o.adj@
        &&& self.unique_lits@ == o.unique_lits@
    }

    /// Takes in that `lit` became true, recording how to take it back: each
    /// entry of `lit` sets its edge, and raises or lowers its bound.
    fn notify(&mut self, lit: Lit)
        requires
            old(self).wf(),
            old(self).known(lit),
        ensures
            final(self).wf(),
            final(self).same_graph(old(self)),
            notified(*old(self), *final(self), lit, 0, old(self).literals@.len() as int),
            final(self).undo_stack@.len() > old(self).undo_stack@.len(),
            final(self).undo_stack@.subrange(0, old(self).undo_stack@.len() + 1int) == old(self).undo_stack@.push(UndoInfo::LevelBoundary),
            final(self).propagations == old(self).propagations,
            forall|k: int| old(self).undo_stack@.len() < k < final(self).undo_stack@.len() ==> !(#[trigger] final(self).undo_stack@[k] is LevelBoundary),
            (forall|e: int| 0 <= e < old(self).num_edges && touches_edge(old(self).literals@, lit, 0, old(self).literals@.len() as int, e)
                ==> #[trigger] old(self).edge_state@[e] == EdgeState::Undecided) ==> undo_all(
                final(self).undo_stack@.subrange(old(self).undo_stack@.len() + 1int, final(self).undo_stack@.len() as int),
                final(self).marks(),
            ) == old(self).marks(),
    {
        let ghost s0 = *self;
        self.undo_stack.push(UndoInfo::LevelBoundary);
        proof {
            assert forall|k: int| 0 <= k < self.undo_stack@.len() implies self.undo_ok(#[trigger] self.undo_stack@[k]) by {
                if k < s0.undo_stack@.len() {
                    assert(self.undo_stack@[k] == s0.undo_stack@[k]);
                }
            }
        }
        let mut idx = first_entry(&self.literals, lit);
        let ghost start = idx as int;
        let ghost u1 = self.undo_stack@;
        proof {
            assert(u1.subrange(u1.len() as int, u1.len() as int) =~= Seq::<UndoInfo>::empty());
            assert(self.marks() == s0.marks());
        }
        while idx < self.literals.len() && self.literals[idx].0 == lit
            invariant
                self.wf(),
                self.same_graph(old(self)),
                start <= idx <= self.literals@.len(),
                forall|k: int| start <= k < idx ==> (#[trigger] self.literals@[k]).0 == lit,
                forall|k: int| 0 <= k < start ==> (#[trigger] self.literals@[k]).0.0 < lit.0,
                forall|k: int| start <= k < self.literals@.len() ==> (#[trigger] self.literals@[k]).0.0 >= lit.0,
                notified(s0, *self, lit, start, idx as int),
                s0 == *old(self),
                s0.shape_ok(),
                self.undo_stack@.len() >= u1.len(),
                self.undo_stack@.subrange(0, u1.len() as int) == u1,
                u1 == old(self).undo_stack@.push(UndoInfo::LevelBoundary),
                self.propagations == old(self).propagations,
                forall|k: int| u1.len() <= k < self.undo_stack@.len() ==> !(#[trigger] self.undo_stack@[k] is LevelBoundary),
                (forall|e: int| 0 <= e < s0.num_edges && touches_edge(s0.literals@, lit, 0, s0.literals@.len() as int, e)
                    ==> #[trigger] s0.edge_state@[e] == EdgeState::Undecided) ==> undo_all(
                    self.undo_stack@.subrange(u1.len() as int, self.undo_stack@.len() as int),
                    self.marks(),
                ) == s0.marks(),
            decreases self.literals@.len() - idx,
        {
            let ghost s1 = *self;
            let info = self.literals[idx].1;
            assert(info_valid(info, self.domains@, self.num_vertices as nat, self.num_edges as nat));
            match info {
                LiteralInfo::Edge(edge_idx, st) => {
                    self.undo_stack.push(UndoInfo::Edge(edge_idx));
                    self.edge_state.set(edge_idx, st);
                }
                LiteralInfo::LowerBound(vertex_idx, value) => {
                    if self.lower_bound[vertex_idx] < value {
                        let old_value = self.lower_bound[vertex_idx];
                        let old_lit = self.lower_bound_lit[vertex_idx];
                        self.undo_stack.push(UndoInfo::LowerBound(vertex_idx, old_value, old_lit));
                        self.lower_bound.set(vertex_idx, value);
                        self.lower_bound_lit.set(vertex_idx, Some(lit));
                    }
                }
                LiteralInfo::UpperBound(vertex_idx, value) => {
                    if self.upper_bound[vertex_idx] > value {
                        let old_value = self.upper_bound[vertex_idx];
                        let old_lit = self.upper_bound_lit[vertex_idx];
                        self.undo_stack.push(UndoInfo::UpperBound(vertex_idx, old_value, old_lit));
                        self.upper_bound.set(vertex_idx, value);
                        self.upper_bound_lit.set(vertex_idx, Some(lit));
                    }
                }
            }
            proof {
                assert forall|k: int| 0 <= k < self.undo_stack@.len() implies self.undo_ok(#[trigger] self.undo_stack@[k]) by {
                    if k < s1.undo_stack@.len() {
                        assert(self.undo_stack@[k] == s1.undo_stack@[k]);
                        assert(s1.undo_ok(s1.undo_stack@[k]));
                    }
                }
                assert forall|i: int| 0 <= i < self.num_vertices implies {
                    if (#[trigger] self.domains@[i])@.len() == 0 {
                        self.lower_bound@[i] == 0 && self.upper_bound@[i] == i32::MAX
                    } else {
                        in_domain(self.domains@[i]@, self.lower_bound@[i]) && in_domain(self.domains@[i]@, self.upper_bound@[i])
                    }
                } by {
                    assert(s1.domains@[i] == self.domains@[i]);
                }
                assert(self.undo_stack@.subrange(0, u1.len() as int) =~= u1) by {
                    assert forall|t: int| 0 <= t < u1.len() implies self.undo_stack@[t] == u1[t] by {
                        assert(self.undo_stack@[t] == s1.undo_stack@[t]);
                        assert(s1.undo_stack@.subrange(0, u1.len() as int)[t] == u1[t]);
                    }
                }
                let ls = s0.literals@;
                let cur = idx as int;
                assert(ls[cur].0 == lit);
                assert(ls[cur].1 == info);
                assert forall|k: int| u1.len() <= k < self.undo_stack@.len() implies !(#[trigger] self.undo_stack@[k] is LevelBoundary) by {
                    if k < s1.undo_stack@.len() {
                        assert(self.undo_stack@[k] == s1.undo_stack@[k]);
                    }
                }
                assert(s1.wf());
                assert(s1.shape_ok());
                Self::lemma_notify_marks(s0, s1, *self, lit, cur, u1.len() as int);
                assert forall|e: int| 0 <= e < s0.num_edges implies (touches_edge(ls, lit, start, cur + 1, e) ==> sets_edge(ls, lit, start, cur + 1, e, #[trigger] self.edge_state@[e]))
                    && (!touches_edge(ls, lit, start, cur + 1, e) ==> self.edge_state@[e] == s0.edge_state@[e]) by {
                    if info_edge(info, e) {
                        assert(sets_edge(ls, lit, start, cur + 1, e, info->Edge_1));
                    } else {
                        if touches_edge(ls, lit, start, cur + 1, e) {
                            let k = choose|k: int| start <= k < cur + 1 && ls[k].0 == lit && info_edge((#[trigger] ls[k]).1, e);
                            assert(k < cur);
                            assert(touches_edge(ls, lit, start, cur, e));
                            let w = s1.edge_state@[e];
                            assert(sets_edge(ls, lit, start, cur, e, w));
                            let k2 = choose|k2: int| start <= k2 < cur && ls[k2].0 == lit && (#[trigger] ls[k2]).1 == LiteralInfo::Edge(e as usize, w);
                            assert(sets_edge(ls, lit, start, cur + 1, e, w));
                        } else {
                            assert(!touches_edge(ls, lit, start, cur, e));
                        }
                    }
                }
                assert forall|i: int| 0 <= i < s0.num_vertices implies (#[trigger] self.lower_bound@[i]) >= s0.lower_bound@[i]
                    && above_lower(ls, lit, start, cur + 1, i, self.lower_bound@[i])
                    && (self.lower_bound@[i] == s0.lower_bound@[i] || gives_lower(ls, lit, start, cur + 1, i, self.lower_bound@[i])) by {
                    assert(above_lower(ls, lit, start, cur, i, s1.lower_bound@[i]));
                    if s1.lower_bound@[i] != s0.lower_bound@[i] {
                        assert(gives_lower(ls, lit, start, cur, i, s1.lower_bound@[i]));
                        let k = choose|k: int| start <= k < cur && ls[k].0 == lit && (#[trigger] ls[k]).1 == LiteralInfo::LowerBound(i as usize, s1.lower_bound@[i]);
                        assert(gives_lower(ls, lit, start, cur + 1, i, s1.lower_bound@[i]));
                    }
                    if lower_of(info, i) is Some && s1.lower_bound@[i] < lower_of(info, i)->0 {
                        assert(gives_lower(ls, lit, start, cur + 1, i, lower_of(info, i)->0));
                    }
                }
                assert forall|i: int| 0 <= i < s0.num_vertices implies (#[trigger] self.upper_bound@[i]) <= s0.upper_bound@[i]
                    && below_upper(ls, lit, start, cur + 1, i, self.upper_bound@[i])
                    && (self.upper_bound@[i] == s0.upper_bound@[i] || gives_upper(ls, lit, start, cur + 1, i, self.upper_bound@[i])) by {
                    assert(below_upper(ls, lit, start, cur, i, s1.upper_bound@[i]));
                    if s1.upper_bound@[i] != s0.upper_bound@[i] {
                        assert(gives_upper(ls, lit, start, cur, i, s1.upper_bound@[i]));
                        let k = choose|k: int| start <= k < cur && ls[k].0 == lit && (#[trigger] ls[k]).1 == LiteralInfo::UpperBound(i as usize, s1.upper_bound@[i]);
                        assert(gives_upper(ls, lit, start, cur + 1, i, s1.upper_bound@[i]));
                    }
                    if upper_of(info, i) is Some && s1.upper_bound@[i] > upper_of(info, i)->0 {
                        assert(gives_upper(ls, lit, start, cur + 1, i, upper_of(info, i)->0));
                    }
                }
            }
            idx += 1;
        }
        proof {
            let ls = s0.literals@;
            let end = idx as int;
            assert forall|k: int| 0 <= k < ls.len() && ls[k].0 == lit implies start <= k < end by {
                if k >= end {
                    assert(ls[end].0 != lit);
                    assert(ls[end].0.0 >= lit.0);
                    assert(ls[end].0.0 <= ls[k].0.0);
                }
            }
            assert forall|e: int| 0 <= e < s0.num_edges implies touches_edge(ls, lit, start, end, e) == touches_edge(ls, lit, 0, ls.len() as int, e)
                && sets_edge(ls, lit, start, end, e, self.edge_state@[e]) == sets_edge(ls, lit, 0, ls.len() as int, e, self.edge_state@[e]) by {
                if touches_edge(ls, lit, 0, ls.len() as int, e) {
                    let k = choose|k: int| 0 <= k < ls.len() && ls[k].0 == lit && info_edge((#[trigger] ls[k]).1, e);
                    assert(start <= k < end);
                }
                if sets_edge(ls, lit, 0, ls.len() as int, e, self.edge_state@[e]) {
                    let k = choose|k: int| 0 <= k < ls.len() && ls[k].0 == lit && (#[trigger] ls[k]).1 == LiteralInfo::Edge(e as usize, self.edge_state@[e]);
                    assert(start <= k < end);
                }
            }
            assert forall|i: int| 0 <= i < s0.num_vertices implies above_lower(ls, lit, 0, ls.len() as int, i, self.lower_bound@[i])
                && below_upper(ls, lit, 0, ls.len() as int, i, self.upper_bound@[i]) by {
                assert(above_lower(ls, lit, start, end, i, self.lower_bound@[i]));
                assert(below_upper(ls, lit, start, end, i, self.upper_bound@[i]));
            }
            assert(notified(s0, *self, lit, 0, ls.len() as int));
            assert forall|k: int| old(self).undo_stack@.len() < k < self.undo_stack@.len() implies !(#[trigger] self.undo_stack@[k] is LevelBoundary) by {
                assert(u1.len() <= k);
            }
        }
    }

    /// The edge states and bounds.
    spec fn marks(&self) -> Marks {
        (self.edge_state@, self.lower_bound@, self.lower_bound_lit@, self.upper_bound@, self.upper_bound_lit@)
    }

    /// One entry of `lit` taken in keeps the recorded changes since the
    /// boundary taking the state back to `s0`, when the edges of `lit` were
    /// undecided in `s0`.
    proof fn lemma_notify_marks(s0: GraphDivision, s1: GraphDivision, s2: GraphDivision, lit: Lit, cur: int, from: int)
        requires
            0 <= cur < s0.literals@.len(),
            s0.literals@[cur].0 == lit,
            info_valid(s0.literals@[cur].1, s0.domains@, s0.num_vertices as nat, s0.num_edges as nat),
            s0.edge_state@.len() == s0.num_edges,
            s1.shape_ok(),
            s1.num_vertices == s0.num_vertices,
            s1.num_edges == s0.num_edges,
            0 <= from <= s1.undo_stack@.len(),
            match s0.literals@[cur].1 {
                LiteralInfo::Edge(e, st) => s2.undo_stack@ == s1.undo_stack@.push(UndoInfo::Edge(e)) && s2.marks() == (
                    s1.marks().0.update(e as int, st),
                    s1.marks().1,
                    s1.marks().2,
                    s1.marks().3,
                    s1.marks().4,
                ),
                LiteralInfo::LowerBound(i, v) => if s1.lower_bound@[i as int] < v {
                    s2.undo_stack@ == s1.undo_stack@.push(UndoInfo::LowerBound(i, s1.lower_bound@[i as int], s1.lower_bound_lit@[i as int]))
                        && s2.marks() == (s1.marks().0, s1.marks().1.update(i as int, v), s1.marks().2.update(i as int, Some(lit)), s1.marks().3, s1.marks().4)
                } else {
                    s2.undo_stack@ == s1.undo_stack@ && s2.marks() == s1.marks()
                },
                LiteralInfo::UpperBound(i, v) => if s1.upper_bound@[i as int] > v {
                    s2.undo_stack@ == s1.undo_stack@.push(UndoInfo::UpperBound(i, s1.upper_bound@[i as int], s1.upper_bound_lit@[i as int]))
                        && s2.marks() == (s1.marks().0, s1.marks().1, s1.marks().2, s1.marks().3.update(i as int, v), s1.marks().4.update(i as int, Some(lit)))
                } else {
                    s2.undo_stack@ == s1.undo_stack@ && s2.marks() == s1.marks()
                },
            },
            (forall|e: int| 0 <= e < s0.num_edges && touches_edge(s0.literals@, lit, 0, s0.literals@.len() as int, e)
                ==> #[trigger] s0.edge_state@[e] == EdgeState::Undecided) ==> undo_all(
                s1.undo_stack@.subrange(from, s1.undo_stack@.len() as int),
                s1.marks(),
            ) == s0.marks(),
        ensures
            (forall|e: int| 0 <= e < s0.num_edges && touches_edge(s0.literals@, lit, 0, s0.literals@.len() as int, e)
                ==> #[trigger] s0.edge_state@[e] == EdgeState::Undecided) ==> undo_all(
                s2.undo_stack@.subrange(from, s2.undo_stack@.len() as int),
                s2.marks(),
            ) == s0.marks(),
    {
        if forall|e: int| 0 <= e < s0.num_edges && touches_edge(s0.literals@, lit, 0, s0.literals@.len() as int, e)
            ==> #[trigger] s0.edge_state@[e] == EdgeState::Undecided {
            let r0 = s1.undo_stack@.subrange(from, s1.undo_stack@.len() as int);
            let info = s0.literals@[cur].1;
            if s2.undo_stack@.len() == s1.undo_stack@.len() {
                assert(s2.undo_stack@ == s1.undo_stack@);
            } else {
                let r1 = s2.undo_stack@.subrange(from, s2.undo_stack@.len() as int);
                let top = s2.undo_stack@.last();
                assert(r1 =~= r0.push(top));
                assert(r1.drop_last() =~= r0);
                match info {
                    LiteralInfo::Edge(e, st) => {
                        assert(info_edge(s0.literals@[cur].1, e as int));
                        assert(touches_edge(s0.literals@, lit, 0, s0.literals@.len() as int, e as int));
                        assert(s0.edge_state@[e as int] == EdgeState::Undecided);
                        lemma_undo_step_edge(r0, s1.marks(), s0.marks(), e, st);
                    },
                    LiteralInfo::LowerBound(i, v) => {
                        assert(undo_one(top, s2.marks()) == s1.marks()) by {
                            assert(s2.lower_bound@.update(i as int, s1.lower_bound@[i as int]) =~= s1.lower_bound@);
                            assert(s2.lower_bound_lit@.update(i as int, s1.lower_bound_lit@[i as int]) =~= s1.lower_bound_lit@);
                        }
                    },
                    LiteralInfo::UpperBound(i, v) => {
                        assert(undo_one(top, s2.marks()) == s1.marks()) by {
                            assert(s2.upper_bound@.update(i as int, s1.upper_bound@[i as int]) =~= s1.upper_bound@);
                            assert(s2.upper_bound_lit@.update(i as int, s1.upper_bound_lit@[i as int]) =~= s1.upper_bound_lit@);
                        }
                    },
                }
            }
        }
    }

    /// Takes back every change since the last level boundary.
    fn undo_internal(&mut self)
        requires
            old(self).wf(),
        ensures
            final(self).wf(),
            final(self).same_graph(old(self)),
            final(self).undo_stack@ == old(self).undo_stack@.take(if last_boundary(old(self).undo_stack@) >= 0 {
                last_boundary(old(self).undo_stack@)
            } else {
                0
            }),
            final(self).marks() == undo_all(
                old(self).undo_stack@.subrange(last_boundary(old(self).undo_stack@) + 1, old(self).undo_stack@.len() as int),
                old(self).marks(),
            ),
            final(self).propagations == old(self).propagations,
    {
        let ghost s0 = *self;
        let ghost us = self.undo_stack@;
        let ghost b = last_boundary(us);
        proof {
            lemma_last_boundary(us);
            assert(us.subrange(us.len() as int, us.len() as int) =~= Seq::<UndoInfo>::empty());
        }
        while self.undo_stack.len() > 0
            invariant
                self.wf(),
                self.same_graph(old(self)),
                us == old(self).undo_stack@,
                s0 == *old(self),
                b == last_boundary(us),
                -1 <= b < us.len(),
                b >= 0 ==> us[b] is LevelBoundary,
                forall|k: int| b < k < us.len() ==> !(#[trigger] us[k] is LevelBoundary),
                b < self.undo_stack@.len() <= us.len() || (b == -1 && self.undo_stack@.len() == 0),
                self.undo_stack@ == us.take(self.undo_stack@.len() as int),
                self.marks() == undo_all(us.subrange(self.undo_stack@.len() as int, us.len() as int), s0.marks()),
                self.propagations == old(self).propagations,
            decreases self.undo_stack@.len(),
        {
            let ghost t = self.undo_stack@.len() as int;
            let ghost s1 = *self;
            let info = self.undo_stack.pop().unwrap();
            assert(s1.undo_ok(info)) by {
                assert(info == s1.undo_stack@[s1.undo_stack@.len() - 1]);
            }
            assert forall|k: int| 0 <= k < self.undo_stack@.len() implies self.undo_ok(#[trigger] self.undo_stack@[k]) by {
                assert(self.undo_stack@[k] == s1.undo_stack@[k]);
            }
            proof {
                assert(info == us[t - 1]);
                assert(us.subrange(t - 1, us.len() as int) =~= seq![info] + us.subrange(t, us.len() as int));
                lemma_undo_all_front(info, us.subrange(t, us.len() as int), s0.marks());
                assert(self.undo_stack@ =~= us.take(t - 1));
            }
            match info {
                UndoInfo::LevelBoundary => {
                    proof {
                        assert(t - 1 == b);
                    }
                    return;
                }
                UndoInfo::Edge(edge_idx) => {
                    self.edge_state.set(edge_idx, EdgeState::Undecided);
                }
                UndoInfo::LowerBound(vertex_idx, value, lit) => {
                    self.lower_bound.set(vertex_idx, value);
                    self.lower_bound_lit.set(vertex_idx, lit);
                }
                UndoInfo::UpperBound(vertex_idx, value, lit) => {
                    self.upper_bound.set(vertex_idx, value);
                    self.upper_bound_lit.set(vertex_idx, lit);
                }
            }
            proof {
                assert(self.marks() == undo_one(info, s1.marks()));
            }
            proof {
                assert forall|i: int| 0 <= i < self.num_vertices implies {
                    if (#[trigger] self.domains@[i])@.len() == 0 {
                        self.lower_bound@[i] == 0 && self.upper_bound@[i] == i32::MAX
                    } else {
                        in_domain(self.domains@[i]@, self.lower_bound@[i]) && in_domain(self.domains@[i]@, self.upper_bound@[i])
                    }
                } by {
                    assert(s1.domains@[i] == self.domains@[i]);
                }
            }
        }
    }

    /// Records that `lit` can be deduced, and why.
    fn register_propagation(&mut self, lit: Lit, reason: Reason)
        requires
            old(self).wf(),
            old(self).known(lit),
        ensures
            final(self).wf(),
            final(self).same_graph(old(self)),
            final(self).edge_state@ == old(self).edge_state@,
            final(self).lower_bound@ == old(self).lower_bound@,
            final(self).upper_bound@ == old(self).upper_bound@,
            final(self).lower_bound_lit@ == old(self).lower_bound_lit@,
            final(self).upper_bound_lit@ == old(self).upper_bound_lit@,
            final(self).propagations@ == old(self).propagations@.push(lit),
            final(self).inconsistency_reason@ == old(self).inconsistency_reason@,
    {
        let ghost s0 = *self;
        self.propagations.push(lit);
        proof {
            assert forall|k: int| 0 <= k < self.propagations@.len() implies self.known(#[trigger] self.propagations@[k]) by {
                if k < s0.propagations@.len() {
                    assert(self.propagations@[k] == s0.propagations@[k]);
                }
            }
        }
        match lit_index(&self.unique_lits, lit) {
            Some(lit_id) => {
                self.propagation_reasons.set(lit_id, reason);
            }
            None => {}
        }
    }
}


impl GraphDivision {
    /// The regions left when the borders, and for `potential` false also the
    /// undecided edges, are removed: the region of each vertex and the vertices
    /// of each region, in the order a breadth-first search finds them.
    fn compute_regions(&self, potential: bool) -> (r: (Vec<usize>, Vec<Vec<usize>>))
        requires
            self.wf(),
        ensures
            regions_ok(self.num_vertices as nat, self.edges@, self.edge_state@, potential, r.0@, r.1@),
    {
        let nv = self.num_vertices;
        let ghost edges = self.edges@;
        let ghost state = self.edge_state@;
        let mut region_id: Vec<usize> = Vec::new();
        let mut a: usize = 0;
        while a < nv
            invariant
                a <= nv,
                region_id@.len() == a,
                forall|x: int| 0 <= x < a ==> #[trigger] region_id@[x] == usize::MAX,
            decreases nv - a,
        {
            region_id.push(usize::MAX);
            a += 1;
        }
        let mut regions: Vec<Vec<usize>> = Vec::new();
        let mut i: usize = 0;
        while i < nv
            invariant
                self.wf(),
                nv == self.num_vertices,
                edges == self.edges@,
                state == self.edge_state@,
                i <= nv,
                region_id@.len() == nv,
                regions@.len() <= i,
                forall|x: int| 0 <= x < i ==> #[trigger] region_id@[x] != usize::MAX,
                forall|x: int| 0 <= x < nv ==> #[trigger] region_id@[x] == usize::MAX || region_id@[x] < regions@.len(),
                forall|k: int| 0 <= k < regions@.len() ==> (#[trigger] regions@[k])@.len() > 0,
                forall|k: int, j: int|
                    0 <= k < regions@.len() && 0 <= j < regions@[k]@.len() ==> (#[trigger] regions@[k]@[j]) < nv && region_id@[regions@[k]@[j] as int] == k,
                forall|x: int| 0 <= x < nv && #[trigger] region_id@[x] != usize::MAX ==> regions@[region_id@[x] as int]@.contains(x as usize),
                forall|x: int| 0 <= x < nv && #[trigger] region_id@[x] != usize::MAX ==> vertex_closed(edges, state, potential, region_id@, x),
                forall|x: int| 0 <= x < nv && #[trigger] region_id@[x] != usize::MAX ==> linked(edges, state, potential, regions@[region_id@[x] as int]@[0] as int, x),
            decreases nv - i,
        {
            if region_id[i] == usize::MAX {
                let id = regions.len();
                let mut queue: Vec<usize> = Vec::new();
                queue.push(i);
                let ghost r_prev = region_id@;
                region_id.set(i, id);
                proof {
                    assert forall|x: int| 0 <= x < nv && #[trigger] region_id@[x] == id implies queue@.contains(x as usize) by {
                        if x != i {
                            assert(r_prev[x] == region_id@[x]);
                        }
                        assert(queue@[0] == i);
                    }
                    lemma_linked_refl(edges, state, potential, i as int);
                    assert forall|x: int| 0 <= x < nv && #[trigger] region_id@[x] != usize::MAX && region_id@[x] < id implies vertex_closed(edges, state, potential, region_id@, x) by {
                        let r0 = region_id@.update(i as int, usize::MAX);
                        assert(r0[x] == region_id@[x]);
                        assert(vertex_closed(edges, state, potential, r0, x));
                        assert(r0.update(i as int, id) == region_id@);
                        lemma_closed_assign(edges, state, potential, r0, x, i as int, id);
                    }
                }
                let mut head: usize = 0;
                while head < queue.len()
                    invariant
                        self.wf(),
                        nv == self.num_vertices,
                        edges == self.edges@,
                        state == self.edge_state@,
                        i < nv,
                        id == regions@.len(),
                        id <= i,
                        region_id@.len() == nv,
                        queue@.len() > 0,
                        queue@[0] == i,
                        head <= queue@.len(),
                        queue@.len() <= nv,
                        queue@.no_duplicates(),
                        region_id@[i as int] == id,
                        forall|x: int| 0 <= x < i ==> #[trigger] region_id@[x] != usize::MAX,
                        forall|x: int| 0 <= x < nv ==> #[trigger] region_id@[x] == usize::MAX || region_id@[x] <= id,
                        forall|j: int| 0 <= j < queue@.len() ==> (#[trigger] queue@[j]) < nv && region_id@[queue@[j] as int] == id,
                        forall|x: int| 0 <= x < nv && #[trigger] region_id@[x] == id ==> queue@.contains(x as usize),
                        forall|x: int| 0 <= x < nv && #[trigger] region_id@[x] == id ==> linked(edges, state, potential, i as int, x),
                        forall|k: int| 0 <= k < regions@.len() ==> (#[trigger] regions@[k])@.len() > 0,
                        forall|k: int, j: int|
                            0 <= k < regions@.len() && 0 <= j < regions@[k]@.len() ==> (#[trigger] regions@[k]@[j]) < nv && region_id@[regions@[k]@[j] as int] == k,
                        forall|x: int| 0 <= x < nv && #[trigger] region_id@[x] != usize::MAX && region_id@[x] < id ==> regions@[region_id@[x] as int]@.contains(x as usize),
                        forall|x: int| 0 <= x < nv && #[trigger] region_id@[x] != usize::MAX && region_id@[x] < id ==> vertex_closed(edges, state, potential, region_id@, x),
                        forall|x: int| 0 <= x < nv && #[trigger] region_id@[x] != usize::MAX && region_id@[x] < id ==> linked(edges, state, potential, regions@[region_id@[x] as int]@[0] as int, x),
                        forall|j: int| 0 <= j < head ==> vertex_closed(edges, state, potential, region_id@, #[trigger] queue@[j] as int),
                    decreases nv - head,
                {
                    let p = queue[head];
                    let mut k: usize = 0;
                    let ghost adj_p = self.adj@[p as int]@;
                    while k < self.adj[p].len()
                        invariant
                            self.wf(),
                            nv == self.num_vertices,
                            edges == self.edges@,
                            state == self.edge_state@,
                            adj_p == self.adj@[p as int]@,
                            p < nv,
                            region_id@[p as int] == id,
                            i < nv,
                            id == regions@.len(),
                            id <= i,
                            region_id@.len() == nv,
                            queue@.len() > 0,
                            queue@[0] == i,
                            head < queue@.len(),
                            queue@[head as int] == p,
                            queue@.len() <= nv,
                            queue@.no_duplicates(),
                            region_id@[i as int] == id,
                            k <= adj_p.len(),
                            forall|x: int| 0 <= x < i ==> #[trigger] region_id@[x] != usize::MAX,
                            forall|x: int| 0 <= x < nv ==> #[trigger] region_id@[x] == usize::MAX || region_id@[x] <= id,
                            forall|j: int| 0 <= j < queue@.len() ==> (#[trigger] queue@[j]) < nv && region_id@[queue@[j] as int] == id,
                            forall|x: int| 0 <= x < nv && #[trigger] region_id@[x] == id ==> queue@.contains(x as usize),
                            forall|x: int| 0 <= x < nv && #[trigger] region_id@[x] == id ==> linked(edges, state, potential, i as int, x),
                            forall|k: int| 0 <= k < regions@.len() ==> (#[trigger] regions@[k])@.len() > 0,
                            forall|k: int, j: int|
                                0 <= k < regions@.len() && 0 <= j < regions@[k]@.len() ==> (#[trigger] regions@[k]@[j]) < nv && region_id@[regions@[k]@[j] as int] == k,
                            forall|x: int| 0 <= x < nv && #[trigger] region_id@[x] != usize::MAX && region_id@[x] < id ==> regions@[region_id@[x] as int]@.contains(x as usize),
                            forall|x: int| 0 <= x < nv && #[trigger] region_id@[x] != usize::MAX && region_id@[x] < id ==> vertex_closed(edges, state, potential, region_id@, x),
                            forall|x: int| 0 <= x < nv && #[trigger] region_id@[x] != usize::MAX && region_id@[x] < id ==> linked(edges, state, potential, regions@[region_id@[x] as int]@[0] as int, x),
                            forall|j: int| 0 <= j < head ==> vertex_closed(edges, state, potential, region_id@, #[trigger] queue@[j] as int),
                            forall|t: int| 0 <= t < k && passable(state[(#[trigger] adj_p[t]).1 as int], potential) ==> region_id@[adj_p[t].0 as int] == id,
                        decreases adj_p.len() - k,
                    {
                        let (q, e) = self.adj[p][k];
                        assert(adj_p[k as int] == (q, e));
                        let st = self.edge_state[e];
                        if st == EdgeState::Disconnected || (!potential && st == EdgeState::Undecided) {
                        } else if region_id[q] == usize::MAX {
                            let ghost r0 = region_id@;
                            let ghost q0 = queue@;
                            proof {
                                lemma_linked_step(edges, state, potential, i as int, p, q, e as int);
                                assert forall|x: int| 0 <= x < nv && #[trigger] r0[x] != usize::MAX && r0[x] < id implies vertex_closed(edges, state, potential, r0.update(q as int, id), x) by {
                                    lemma_closed_assign(edges, state, potential, r0, x, q as int, id);
                                }
                                assert forall|j: int| 0 <= j < head implies vertex_closed(edges, state, potential, r0.update(q as int, id), #[trigger] queue@[j] as int) by {
                                    lemma_closed_assign(edges, state, potential, r0, queue@[j] as int, q as int, id);
                                }
                                // q is new: every vertex of the region so far is in the queue
                                assert(!queue@.contains(q)) by {
                                    if queue@.contains(q) {
                                        let j = choose|j: int| 0 <= j < queue@.len() && queue@[j] == q;
                                        assert(region_id@[queue@[j] as int] == id);
                                    }
                                }
                                let qp = queue@.push(q);
                                assert(qp.no_duplicates()) by {
                                    assert forall|a: int, b: int| 0 <= a < qp.len() && 0 <= b < qp.len() && a != b implies qp[a] != qp[b] by {
                                        if a < queue@.len() && b < queue@.len() {
                                            assert(qp[a] == queue@[a] && qp[b] == queue@[b]);
                                        } else if a < queue@.len() {
                                            assert(qp[a] == queue@[a]);
                                        } else {
                                            assert(qp[b] == queue@[b]);
                                        }
                                    }
                                }
                                assert forall|j: int| 0 <= j < qp.len() implies #[trigger] qp[j] < nv by {
                                    if j < queue@.len() {
                                        assert(qp[j] == queue@[j]);
                                    }
                                }
                                lemma_distinct_bounded(qp, nv as nat);
                            }
                            region_id.set(q, id);
                            queue.push(q);
                            proof {
                                assert forall|j: int| 0 <= j < head implies vertex_closed(edges, state, potential, region_id@, #[trigger] queue@[j] as int) by {
                                    assert(queue@[j] == q0[j]);
                                    assert(r0[q0[j] as int] == id);
                                }
                                assert forall|x: int| 0 <= x < nv && #[trigger] region_id@[x] == id implies queue@.contains(x as usize) by {
                                    if x == q {
                                        assert(queue@[queue@.len() - 1] == q);
                                    } else {
                                        assert(r0[x] == id);
                                        let j = choose|j: int| 0 <= j < q0.len() && q0[j] == x as usize;
                                        assert(queue@[j] == x as usize);
                                    }
                                }
                                assert forall|j: int| 0 <= j < queue@.len() implies (#[trigger] queue@[j]) < nv && region_id@[queue@[j] as int] == id by {
                                    if j < q0.len() {
                                        assert(queue@[j] == q0[j]);
                                    }
                                }
                                assert forall|x: int| 0 <= x < nv && #[trigger] region_id@[x] != usize::MAX && region_id@[x] < id implies regions@[region_id@[x] as int]@.contains(x as usize) by {
                                    assert(r0[x] == region_id@[x]);
                                }
                                assert forall|x: int| 0 <= x < nv && #[trigger] region_id@[x] != usize::MAX && region_id@[x] < id implies linked(edges, state, potential, regions@[region_id@[x] as int]@[0] as int, x) by {
                                    assert(r0[x] == region_id@[x]);
                                }
                                assert forall|x: int| 0 <= x < nv && #[trigger] region_id@[x] != usize::MAX && region_id@[x] < id implies vertex_closed(edges, state, potential, region_id@, x) by {
                                    assert(r0[x] == region_id@[x]);
                                }
                                assert forall|kk: int, j: int|
                                    0 <= kk < regions@.len() && 0 <= j < regions@[kk]@.len() implies (#[trigger] regions@[kk]@[j]) < nv && region_id@[regions@[kk]@[j] as int] == kk by {
                                    assert(r0[regions@[kk]@[j] as int] == kk);
                                }
                            }
                        }
                        k += 1;
                    }
                    proof {
                        assert(self.adj@[p as int]@ == adj_p);
                        assert forall|e: int|
                            0 <= e < edges.len() && passable(state[e], potential) && (#[trigger] edges[e]).0 == p implies region_id@[edges[e].1 as int] == region_id@[p as int] by {
                            assert(adj_p.contains((edges[e].1, e as usize)));
                            let t = choose|t: int| 0 <= t < adj_p.len() && adj_p[t] == (edges[e].1, e as usize);
                            assert(passable(state[adj_p[t].1 as int], potential));
                        }
                        assert forall|e: int|
                            0 <= e < edges.len() && passable(state[e], potential) && (#[trigger] edges[e]).1 == p implies region_id@[edges[e].0 as int] == region_id@[p as int] by {
                            assert(adj_p.contains((edges[e].0, e as usize)));
                            let t = choose|t: int| 0 <= t < adj_p.len() && adj_p[t] == (edges[e].0, e as usize);
                            assert(passable(state[adj_p[t].1 as int], potential));
                        }
                        assert(vertex_closed(edges, state, potential, region_id@, p as int));
                    }
                    head += 1;
                }
                let ghost q0 = queue@;
                regions.push(queue);
                proof {
                    assert forall|x: int| 0 <= x < nv && #[trigger] region_id@[x] != usize::MAX implies vertex_closed(edges, state, potential, region_id@, x) by {
                        if region_id@[x] == id {
                            let j = choose|j: int| 0 <= j < q0.len() && q0[j] == x as usize;
                            assert(vertex_closed(edges, state, potential, region_id@, q0[j] as int));
                        }
                    }
                    assert forall|x: int| 0 <= x < nv && #[trigger] region_id@[x] != usize::MAX implies regions@[region_id@[x] as int]@.contains(x as usize) by {
                    }
                    assert forall|x: int| 0 <= x < nv && #[trigger] region_id@[x] != usize::MAX implies linked(edges, state, potential, regions@[region_id@[x] as int]@[0] as int, x) by {
                    }
                }
            }
            i += 1;
        }
        proof {
            assert forall|e: int| 0 <= e < edges.len() && passable(state[e], potential) implies region_id@[(#[trigger] edges[e]).0 as int] == region_id@[edges[e].1 as int] by {
                let x = edges[e].0 as int;
                assert(region_id@[x] != usize::MAX);
                assert(vertex_closed(edges, state, potential, region_id@, x));
            }
        }
        (region_id, regions)
    }
}


/// Every passable edge at `x` leads to a visited vertex.
spec fn visited_closed(edges: Seq<(usize, usize)>, state: Seq<EdgeState>, potential: bool, vis: Seq<bool>, x: int) -> bool {
    &&& forall|e: int|
        0 <= e < edges.len() && passable(state[e], potential) && (#[trigger] edges[e]).0 == x ==> vis[edges[e].1 as int]
    &&& forall|e: int|
        0 <= e < edges.len() && passable(state[e], potential) && (#[trigger] edges[e]).1 == x ==> vis[edges[e].0 as int]
}

impl GraphDivision {
    /// `l` says that a joining edge joins: it is the negated literal of a
    /// connected edge.
    pub closed spec fn connected_edge_lit(&self, l: Lit) -> bool {
        exists|e: int| 0 <= e < self.num_edges && self.edge_state@[e] == EdgeState::Connected && l == (#[trigger] self.edge_lits@[e]).spec_not()
    }

    /// `l` says that a border is a border: it is the literal of a disconnected edge.
    pub closed spec fn border_lit(&self, l: Lit) -> bool {
        exists|e: int| 0 <= e < self.num_edges && self.edge_state@[e] == EdgeState::Disconnected && l == #[trigger] self.edge_lits@[e]
    }

    /// The joining edges of a path from `v` back to `u`, as the literals that
    /// say they join.
    fn reason_connected_path(&self, u: usize, v: usize) -> (r: Vec<Lit>)
        requires
            self.wf(),
            u < self.num_vertices,
            v < self.num_vertices,
            linked(self.edges@, self.edge_state@, false, u as int, v as int),
        ensures
            forall|k: int| 0 <= k < r@.len() ==> self.connected_edge_lit(#[trigger] r@[k]),
    {
        if u == v {
            return Vec::new();
        }
        let nv = self.num_vertices;
        let ghost edges = self.edges@;
        let ghost state = self.edge_state@;
        let mut prev: Vec<Option<(usize, usize)>> = Vec::new();
        let mut visited: Vec<bool> = Vec::new();
        let mut a: usize = 0;
        while a < nv
            invariant
                a <= nv,
                prev@.len() == a,
                visited@.len() == a,
                forall|x: int| 0 <= x < a ==> (#[trigger] prev@[x]) is None && !visited@[x],
            decreases nv - a,
        {
            prev.push(None);
            visited.push(false);
            a += 1;
        }
        let ghost vis0 = visited@;
        visited.set(u, true);
        let mut queue: Vec<usize> = Vec::new();
        queue.push(u);
        proof {
            assert forall|x: int| 0 <= x < nv && #[trigger] visited@[x] implies queue@.contains(x as usize) by {
                if x != u {
                    assert(prev@[x] is None);
                    assert(vis0[x] == visited@[x]);
                } else {
                    assert(queue@[0] == x as usize);
                }
            }
        }
        let ghost mut pos: Seq<int> = Seq::new(nv as nat, |x: int| 0);
        proof {
            pos = pos.update(u as int, 0);
        }
        let mut head: usize = 0;
        let mut found = false;
        while !found && head < queue.len()
            invariant
                self.wf(),
                nv == self.num_vertices,
                edges == self.edges@,
                state == self.edge_state@,
                u < nv,
                v < nv,
                u != v,
                prev@.len() == nv,
                visited@.len() == nv,
                pos.len() == nv,
                queue@.len() > 0,
                queue@[0] == u,
                head <= queue@.len(),
                queue@.len() <= nv,
                queue@.no_duplicates(),
                visited@[u as int],
                found ==> visited@[v as int],
                forall|j: int| 0 <= j < queue@.len() ==> (#[trigger] queue@[j]) < nv && visited@[queue@[j] as int] && pos[queue@[j] as int] == j,
                forall|x: int| 0 <= x < nv && #[trigger] visited@[x] ==> queue@.contains(x as usize),
                forall|x: int| 0 <= x < nv && #[trigger] visited@[x] && x != u ==> {
                    &&& prev@[x] matches Some((p, e))
                    &&& p < nv
                    &&& visited@[p as int]
                    &&& pos[p as int] < pos[x]
                    &&& e < edges.len()
                    &&& state[e as int] == EdgeState::Connected
                },
                !found ==> forall|j: int| 0 <= j < head ==> visited_closed(edges, state, false, visited@, #[trigger] queue@[j] as int),
            decreases nv - head,
        {
            let p = queue[head];
            head += 1;
            if p == v {
                found = true;
            } else {
                let ghost adj_p = self.adj@[p as int]@;
                let mut k: usize = 0;
                while k < self.adj[p].len()
                    invariant
                        self.wf(),
                        nv == self.num_vertices,
                        edges == self.edges@,
                        state == self.edge_state@,
                        adj_p == self.adj@[p as int]@,
                        p < nv,
                        visited@[p as int],
                        pos[p as int] == head - 1,
                        u < nv,
                        v < nv,
                        prev@.len() == nv,
                        visited@.len() == nv,
                        pos.len() == nv,
                        queue@.len() > 0,
                        queue@[0] == u,
                        0 < head <= queue@.len(),
                        queue@[head - 1] == p,
                        queue@.len() <= nv,
                        queue@.no_duplicates(),
                        visited@[u as int],
                        k <= adj_p.len(),
                        forall|j: int| 0 <= j < queue@.len() ==> (#[trigger] queue@[j]) < nv && visited@[queue@[j] as int] && pos[queue@[j] as int] == j,
                        forall|x: int| 0 <= x < nv && #[trigger] visited@[x] ==> queue@.contains(x as usize),
                        forall|x: int| 0 <= x < nv && #[trigger] visited@[x] && x != u ==> {
                            &&& prev@[x] matches Some((p, e))
                            &&& p < nv
                            &&& visited@[p as int]
                            &&& pos[p as int] < pos[x]
                            &&& e < edges.len()
                            &&& state[e as int] == EdgeState::Connected
                        },
                        forall|j: int| 0 <= j < head - 1 ==> visited_closed(edges, state, false, visited@, #[trigger] queue@[j] as int),
                        forall|t: int| 0 <= t < k && passable(state[(#[trigger] adj_p[t]).1 as int], false) ==> visited@[adj_p[t].0 as int],
                    decreases adj_p.len() - k,
                {
                    let (q, e) = self.adj[p][k];
                    assert(adj_p[k as int] == (q, e));
                    if self.edge_state[e] == EdgeState::Connected && !visited[q] {
                        let ghost q0 = queue@;
                        let ghost v0 = visited@;
                        proof {
                            assert(!queue@.contains(q));
                            let qp = queue@.push(q);
                            assert(qp.no_duplicates()) by {
                                assert forall|a: int, b: int| 0 <= a < qp.len() && 0 <= b < qp.len() && a != b implies qp[a] != qp[b] by {
                                    if a < queue@.len() && b < queue@.len() {
                                        assert(qp[a] == queue@[a] && qp[b] == queue@[b]);
                                    } else if a < queue@.len() {
                                        assert(qp[a] == queue@[a]);
                                    } else {
                                        assert(qp[b] == queue@[b]);
                                    }
                                }
                            }
                            assert forall|j: int| 0 <= j < qp.len() implies #[trigger] qp[j] < nv by {
                                if j < queue@.len() {
                                    assert(qp[j] == queue@[j]);
                                }
                            }
                            lemma_distinct_bounded(qp, nv as nat);
                        }
                        prev.set(q, Some((p, e)));
                        visited.set(q, true);
                        proof {
                            pos = pos.update(q as int, queue@.len() as int);
                        }
                        queue.push(q);
                        proof {
                            assert forall|j: int| 0 <= j < queue@.len() implies (#[trigger] queue@[j]) < nv && visited@[queue@[j] as int] && pos[queue@[j] as int] == j by {
                                if j < q0.len() {
                                    assert(queue@[j] == q0[j]);
                                }
                            }
                            assert forall|x: int| 0 <= x < nv && #[trigger] visited@[x] implies queue@.contains(x as usize) by {
                                if x == q {
                                    assert(queue@[q0.len() as int] == q);
                                } else {
                                    assert(v0[x]);
                                    let j = choose|j: int| 0 <= j < q0.len() && q0[j] == x as usize;
                                    assert(queue@[j] == x as usize);
                                }
                            }
                            assert forall|j: int| 0 <= j < head - 1 implies visited_closed(edges, state, false, visited@, #[trigger] queue@[j] as int) by {
                                assert(queue@[j] == q0[j]);
                                assert(visited_closed(edges, state, false, v0, q0[j] as int));
                            }
                        }
                    }
                    k += 1;
                }
                proof {
                    assert(visited_closed(edges, state, false, visited@, p as int)) by {
                        assert forall|e: int|
                            0 <= e < edges.len() && passable(state[e], false) && (#[trigger] edges[e]).0 == p implies visited@[edges[e].1 as int] by {
                            assert(adj_p.contains((edges[e].1, e as usize)));
                            let t = choose|t: int| 0 <= t < adj_p.len() && adj_p[t] == (edges[e].1, e as usize);
                            assert(passable(state[adj_p[t].1 as int], false));
                        }
                        assert forall|e: int|
                            0 <= e < edges.len() && passable(state[e], false) && (#[trigger] edges[e]).1 == p implies visited@[edges[e].0 as int] by {
                            assert(adj_p.contains((edges[e].0, e as usize)));
                            let t = choose|t: int| 0 <= t < adj_p.len() && adj_p[t] == (edges[e].0, e as usize);
                            assert(passable(state[adj_p[t].1 as int], false));
                        }
                    }
                }
            }
        }
        proof {
            if !found {
                let s = Set::new(|x: int| 0 <= x < nv && visited@[x]);
                assert(closed_set(s, edges, state, false)) by {
                    assert forall|e: int|
                        0 <= e < edges.len() && passable(state[e], false) implies (s.contains((#[trigger] edges[e]).0 as int) <==> s.contains(edges[e].1 as int)) by {
                        let a0 = edges[e].0 as int;
                        let b0 = edges[e].1 as int;
                        if visited@[a0] {
                            let j = choose|j: int| 0 <= j < queue@.len() && queue@[j] == a0 as usize;
                            assert(visited_closed(edges, state, false, visited@, queue@[j] as int));
                        }
                        if visited@[b0] {
                            let j = choose|j: int| 0 <= j < queue@.len() && queue@[j] == b0 as usize;
                            assert(visited_closed(edges, state, false, visited@, queue@[j] as int));
                        }
                    }
                }
                assert(s.contains(u as int));
            }
            assert(visited@[v as int]);
        }
        let mut ret: Vec<Lit> = Vec::new();
        let mut p = v;
        while p != u
            invariant
                self.wf(),
                nv == self.num_vertices,
                edges == self.edges@,
                state == self.edge_state@,
                p < nv,
                u < nv,
                visited@[p as int],
                prev@.len() == nv,
                visited@.len() == nv,
                pos.len() == nv,
                forall|j: int| 0 <= j < queue@.len() ==> (#[trigger] queue@[j]) < nv && visited@[queue@[j] as int] && pos[queue@[j] as int] == j,
                forall|x: int| 0 <= x < nv && #[trigger] visited@[x] ==> queue@.contains(x as usize),
                forall|x: int| 0 <= x < nv && #[trigger] visited@[x] && x != u ==> {
                    &&& prev@[x] matches Some((p, e))
                    &&& p < nv
                    &&& visited@[p as int]
                    &&& pos[p as int] < pos[x]
                    &&& e < edges.len()
                    &&& state[e as int] == EdgeState::Connected
                },
                forall|k: int| 0 <= k < ret@.len() ==> self.connected_edge_lit(#[trigger] ret@[k]),
            decreases pos[p as int],
        {
            proof {
                let j = choose|j: int| 0 <= j < queue@.len() && queue@[j] == p;
                assert(pos[p as int] == j);
            }
            match prev[p] {
                Some((q, e)) => {
                    let l = self.edge_lits[e].negate();
                    let ghost r0 = ret@;
                    ret.push(l);
                    proof {
                        assert(self.connected_edge_lit(l)) by {
                            assert(l == self.edge_lits@[e as int].spec_not());
                        }
                        assert forall|k: int| 0 <= k < ret@.len() implies self.connected_edge_lit(#[trigger] ret@[k]) by {
                            if k < r0.len() {
                                assert(ret@[k] == r0[k]);
                            }
                        }
                        let jq = choose|j: int| 0 <= j < queue@.len() && queue@[j] == q;
                        assert(pos[q as int] == jq);
                    }
                    p = q;
                }
                None => {
                    return ret;
                }
            }
        }
        ret
    }
}


impl GraphDivision {
    /// The joining edges of a spanning tree of the decided region of `u`, as
    /// the literals that say they join.
    fn reason_decided_region(&self, u: usize) -> (r: Vec<Lit>)
        requires
            self.wf(),
            u < self.num_vertices,
        ensures
            forall|k: int| 0 <= k < r@.len() ==> self.connected_edge_lit(#[trigger] r@[k]),
    {
        let nv = self.num_vertices;
        let mut visited: Vec<bool> = Vec::new();
        let mut a: usize = 0;
        while a < nv
            invariant
                a <= nv,
                visited@.len() == a,
                forall|x: int| 0 <= x < a ==> !#[trigger] visited@[x],
            decreases nv - a,
        {
            visited.push(false);
            a += 1;
        }
        visited.set(u, true);
        let mut queue: Vec<usize> = Vec::new();
        queue.push(u);
        let mut ret: Vec<Lit> = Vec::new();
        let mut head: usize = 0;
        while head < queue.len()
            invariant
                self.wf(),
                nv == self.num_vertices,
                visited@.len() == nv,
                head <= queue@.len(),
                queue@.len() <= nv,
                queue@.no_duplicates(),
                forall|j: int| 0 <= j < queue@.len() ==> (#[trigger] queue@[j]) < nv && visited@[queue@[j] as int],
                forall|k: int| 0 <= k < ret@.len() ==> self.connected_edge_lit(#[trigger] ret@[k]),
            decreases nv - head,
        {
            let p = queue[head];
            head += 1;
            let ghost adj_p = self.adj@[p as int]@;
            let mut k: usize = 0;
            while k < self.adj[p].len()
                invariant
                    self.wf(),
                    nv == self.num_vertices,
                    adj_p == self.adj@[p as int]@,
                    p < nv,
                    visited@.len() == nv,
                    head <= queue@.len(),
                    queue@.len() <= nv,
                    queue@.no_duplicates(),
                    k <= adj_p.len(),
                    forall|j: int| 0 <= j < queue@.len() ==> (#[trigger] queue@[j]) < nv && visited@[queue@[j] as int],
                    forall|k: int| 0 <= k < ret@.len() ==> self.connected_edge_lit(#[trigger] ret@[k]),
                decreases adj_p.len() - k,
            {
                let (q, e) = self.adj[p][k];
                assert(adj_p[k as int] == (q, e));
                let ghost r0 = ret@;
                if self.edge_state[e] == EdgeState::Connected && !visited[q] {
                    let ghost q0 = queue@;
                    proof {
                        assert(!queue@.contains(q));
                        let qp = queue@.push(q);
                        assert(qp.no_duplicates()) by {
                            assert forall|a: int, b: int| 0 <= a < qp.len() && 0 <= b < qp.len() && a != b implies qp[a] != qp[b] by {
                                if a < queue@.len() && b < queue@.len() {
                                    assert(qp[a] == queue@[a] && qp[b] == queue@[b]);
                                } else if a < queue@.len() {
                                    assert(qp[a] == queue@[a]);
                                } else {
                                    assert(qp[b] == queue@[b]);
                                }
                            }
                        }
                        assert forall|j: int| 0 <= j < qp.len() implies #[trigger] qp[j] < nv by {
                            if j < queue@.len() {
                                assert(qp[j] == queue@[j]);
                            }
                        }
                        lemma_distinct_bounded(qp, nv as nat);
                    }
                    visited.set(q, true);
                    let l = self.edge_lits[e].negate();
                    ret.push(l);
                    queue.push(q);
                    proof {
                        assert(self.connected_edge_lit(l)) by {
                            assert(l == self.edge_lits@[e as int].spec_not());
                        }
                        assert forall|k: int| 0 <= k < ret@.len() implies self.connected_edge_lit(#[trigger] ret@[k]) by {
                            if k < r0.len() {
                                assert(ret@[k] == r0[k]);
                            }
                        }
                        assert forall|j: int| 0 <= j < queue@.len() implies (#[trigger] queue@[j]) < nv && visited@[queue@[j] as int] by {
                            if j < q0.len() {
                                assert(queue@[j] == q0[j]);
                            }
                        }
                    }
                }
                k += 1;
            }
        }
        ret
    }

    /// The borders around the largest region `u` can still be in.
    fn reason_potential_region(&self, u: usize) -> (r: Vec<Lit>)
        requires
            self.wf(),
            u < self.num_vertices,
        ensures
            forall|k: int| 0 <= k < r@.len() ==> self.border_lit(#[trigger] r@[k]),
    {
        let nv = self.num_vertices;
        let mut visited: Vec<bool> = Vec::new();
        let mut a: usize = 0;
        while a < nv
            invariant
                a <= nv,
                visited@.len() == a,
                forall|x: int| 0 <= x < a ==> !#[trigger] visited@[x],
            decreases nv - a,
        {
            visited.push(false);
            a += 1;
        }
        visited.set(u, true);
        let mut queue: Vec<usize> = Vec::new();
        queue.push(u);
        let mut ret: Vec<Lit> = Vec::new();
        let mut head: usize = 0;
        while head < queue.len()
            invariant
                self.wf(),
                nv == self.num_vertices,
                visited@.len() == nv,
                head <= queue@.len(),
                queue@.len() <= nv,
                queue@.no_duplicates(),
                forall|j: int| 0 <= j < queue@.len() ==> (#[trigger] queue@[j]) < nv && visited@[queue@[j] as int],
                forall|k: int| 0 <= k < ret@.len() ==> self.border_lit(#[trigger] ret@[k]),
            decreases nv - head,
        {
            let p = queue[head];
            head += 1;
            let ghost adj_p = self.adj@[p as int]@;
            let mut k: usize = 0;
            while k < self.adj[p].len()
                invariant
                    self.wf(),
                    nv == self.num_vertices,
                    adj_p == self.adj@[p as int]@,
                    p < nv,
                    visited@.len() == nv,
                    head <= queue@.len(),
                    queue@.len() <= nv,
                    queue@.no_duplicates(),
                    k <= adj_p.len(),
                    forall|j: int| 0 <= j < queue@.len() ==> (#[trigger] queue@[j]) < nv && visited@[queue@[j] as int],
                    forall|k: int| 0 <= k < ret@.len() ==> self.border_lit(#[trigger] ret@[k]),
                decreases adj_p.len() - k,
            {
                let (q, e) = self.adj[p][k];
                assert(adj_p[k as int] == (q, e));
                let ghost r0 = ret@;
                if self.edge_state[e] == EdgeState::Disconnected {
                    let l = self.edge_lits[e];
                    ret.push(l);
                    proof {
                        assert(self.border_lit(l)) by {
                            assert(l == self.edge_lits@[e as int]);
                            assert(self.edge_state@[e as int] == EdgeState::Disconnected);
                        }
                        assert forall|k: int| 0 <= k < ret@.len() implies self.border_lit(#[trigger] ret@[k]) by {
                            if k < r0.len() {
                                assert(ret@[k] == r0[k]);
                            }
                        }
                    }
                } else if !visited[q] {
                    let ghost q0 = queue@;
                    proof {
                        assert(!queue@.contains(q));
                        let qp = queue@.push(q);
                        assert(qp.no_duplicates()) by {
                            assert forall|a: int, b: int| 0 <= a < qp.len() && 0 <= b < qp.len() && a != b implies qp[a] != qp[b] by {
                                if a < queue@.len() && b < queue@.len() {
                                    assert(qp[a] == queue@[a] && qp[b] == queue@[b]);
                                } else if a < queue@.len() {
                                    assert(qp[a] == queue@[a]);
                                } else {
                                    assert(qp[b] == queue@[b]);
                                }
                            }
                        }
                        assert forall|j: int| 0 <= j < qp.len() implies #[trigger] qp[j] < nv by {
                            if j < queue@.len() {
                                assert(qp[j] == queue@[j]);
                            }
                        }
                        lemma_distinct_bounded(qp, nv as nat);
                    }
                    visited.set(q, true);
                    queue.push(q);
                    proof {
                        assert forall|j: int| 0 <= j < queue@.len() implies (#[trigger] queue@[j]) < nv && visited@[queue@[j] as int] by {
                            if j < q0.len() {
                                assert(queue@[j] == q0[j]);
                            }
                        }
                    }
                }
                k += 1;
            }
        }
        ret
    }
}


/// `a` comes no later than `b` in lexicographic order.
spec fn pair_le(a: (usize, usize), b: (usize, usize)) -> bool {
    a.0 < b.0 || (a.0 == b.0 && a.1 <= b.1)
}

spec fn groups_sorted(g: Seq<((usize, usize), usize)>) -> bool {
    forall|a: int, b: int| 0 <= a <= b < g.len() ==> pair_le(g[a].0, g[b].0)
}

/// The pair of region numbers of the ends of edge `x`, smaller first.
spec fn region_pair(did: Seq<usize>, edges: Seq<(usize, usize)>, x: int) -> (usize, usize) {
    let a = did[edges[x].0 as int];
    let b = did[edges[x].1 as int];
    if a > b { (b, a) } else { (a, b) }
}

/// The entry names a border and the pair of regions it separates.
spec fn group_entry_ok(g: ((usize, usize), usize), did: Seq<usize>, edges: Seq<(usize, usize)>, state: Seq<EdgeState>) -> bool {
    &&& g.1 < edges.len()
    &&& state[g.1 as int] == EdgeState::Disconnected
    &&& g.0 == region_pair(did, edges, g.1 as int)
}

spec fn groups_ok(g: Seq<((usize, usize), usize)>, ne: nat) -> bool {
    forall|k: int| 0 <= k < g.len() ==> (#[trigger] g[k]).1 < ne
}

/// The entries in lexicographic order of their pairs, entries of one pair in
/// their first order.
fn sort_groups(es: Vec<((usize, usize), usize)>, Ghost(ne): Ghost<nat>) -> (r: Vec<((usize, usize), usize)>)
    requires
        groups_ok(es@, ne),
    ensures
        groups_ok(r@, ne),
        groups_sorted(r@),
        r@.len() == es@.len(),
        forall|k: int| 0 <= k < es@.len() ==> r@.contains(#[trigger] es@[k]),
        forall|k: int| 0 <= k < r@.len() ==> es@.contains(#[trigger] r@[k]),
{
    let mut out: Vec<((usize, usize), usize)> = Vec::new();
    let mut i: usize = 0;
    while i < es.len()
        invariant
            i <= es@.len(),
            out@.len() == i,
            groups_ok(es@, ne),
            groups_ok(out@, ne),
            groups_sorted(out@),
            forall|k: int| 0 <= k < i ==> out@.contains(#[trigger] es@[k]),
            forall|k: int| 0 <= k < out@.len() ==> es@.contains(#[trigger] out@[k]),
        decreases es@.len() - i,
    {
        let item = es[i];
        let mut pos = out.len();
        while pos > 0 && (item.0.0 < out[pos - 1].0.0 || (item.0.0 == out[pos - 1].0.0 && item.0.1 < out[pos - 1].0.1))
            invariant
                pos <= out@.len(),
                groups_sorted(out@),
                forall|k: int| pos <= k < out@.len() ==> !pair_le(#[trigger] out@[k].0, item.0),
            decreases pos,
        {
            pos -= 1;
        }
        let ghost prev = out@;
        out.insert(pos, item);
        proof {
            assert forall|k: int| 0 <= k < i + 1 implies out@.contains(#[trigger] es@[k]) by {
                if k < i {
                    let q = choose|q: int| 0 <= q < prev.len() && prev[q] == es@[k];
                    if q < pos {
                        assert(out@[q] == prev[q]);
                    } else {
                        assert(out@[q + 1] == prev[q]);
                    }
                } else {
                    assert(out@[pos as int] == es@[k]);
                }
            }
            assert forall|k: int| 0 <= k < out@.len() implies es@.contains(#[trigger] out@[k]) by {
                if k < pos {
                    assert(out@[k] == prev[k]);
                } else if k == pos {
                    assert(out@[k] == es@[i as int]);
                } else {
                    assert(out@[k] == prev[k - 1]);
                }
            }
            assert forall|k: int| 0 <= k < out@.len() implies (#[trigger] out@[k]).1 < ne by {
                if k < pos {
                    assert(out@[k] == prev[k]);
                } else if k == pos {
                    assert(out@[k] == es@[i as int]);
                } else {
                    assert(out@[k] == prev[k - 1]);
                }
            }
            assert forall|a: int, b: int| 0 <= a <= b < out@.len() implies pair_le(out@[a].0, out@[b].0) by {
                if b < pos {
                    assert(out@[a] == prev[a] && out@[b] == prev[b]);
                } else if b == pos {
                    if a < pos {
                        assert(out@[a] == prev[a]);
                        assert(pair_le(prev[a].0, prev[pos - 1].0));
                    }
                } else if a < pos {
                    assert(out@[a] == prev[a] && out@[b] == prev[b - 1]);
                } else if a == pos {
                    assert(out@[b] == prev[b - 1]);
                } else {
                    assert(out@[a] == prev[a - 1] && out@[b] == prev[b - 1]);
                }
            }
        }
        i += 1;
    }
    out
}

/// The first entry whose pair is not below `key`.
fn first_group(g: &Vec<((usize, usize), usize)>, key: (usize, usize)) -> (r: usize)
    requires
        groups_sorted(g@),
    ensures
        r <= g@.len(),
        forall|k: int| 0 <= k < r ==> !pair_le(key, #[trigger] g@[k].0),
        forall|k: int| r <= k < g@.len() ==> pair_le(key, #[trigger] g@[k].0),
{
    let mut lo: usize = 0;
    let mut hi: usize = g.len();
    while lo < hi
        invariant
            lo <= hi <= g@.len(),
            groups_sorted(g@),
            forall|k: int| 0 <= k < lo ==> !pair_le(key, #[trigger] g@[k].0),
            forall|k: int| hi <= k < g@.len() ==> pair_le(key, #[trigger] g@[k].0),
        decreases hi - lo,
    {
        let mid = lo + (hi - lo) / 2;
        let m = g[mid].0;
        if m.0 < key.0 || (m.0 == key.0 && m.1 < key.1) {
            proof {
                assert forall|k: int| 0 <= k < mid + 1 implies !pair_le(key, #[trigger] g@[k].0) by {
                    assert(pair_le(g@[k].0, g@[mid as int].0));
                }
            }
            lo = mid + 1;
        } else {
            proof {
                assert forall|k: int| mid <= k < g@.len() implies pair_le(key, #[trigger] g@[k].0) by {
                    assert(pair_le(g@[mid as int].0, g@[k].0));
                }
            }
            hi = mid;
        }
    }
    lo
}

/// The total weight of each region.
fn region_weights(w: &Vec<i32>, rid: &Vec<usize>, num_regions: usize) -> (r: Vec<i32>)
    requires
        w@.len() == rid@.len(),
        forall|j: int| 0 <= j < rid@.len() ==> #[trigger] rid@[j] < num_regions,
        forall|j: int| 0 <= j < w@.len() ==> #[trigger] w@[j] >= 0,
        weight_sum(w@) <= i32::MAX,
    ensures
        r@.len() == num_regions,
        forall|k: int| 0 <= k < num_regions ==> #[trigger] r@[k] == id_weight(w@, rid@, k, w@.len() as int),
{
    let mut r: Vec<i32> = Vec::new();
    let mut a: usize = 0;
    while a < num_regions
        invariant
            a <= num_regions,
            r@.len() == a,
            forall|k: int| 0 <= k < a ==> #[trigger] r@[k] == 0,
        decreases num_regions - a,
    {
        r.push(0);
        a += 1;
    }
    let mut j: usize = 0;
    while j < w.len()
        invariant
            j <= w@.len(),
            w@.len() == rid@.len(),
            r@.len() == num_regions,
            forall|j: int| 0 <= j < rid@.len() ==> #[trigger] rid@[j] < num_regions,
            forall|j: int| 0 <= j < w@.len() ==> #[trigger] w@[j] >= 0,
            weight_sum(w@) <= i32::MAX,
            forall|k: int| 0 <= k < num_regions ==> #[trigger] r@[k] == id_weight(w@, rid@, k, j as int),
        decreases w@.len() - j,
    {
        let k = rid[j];
        proof {
            lemma_id_weight_bounds(w@, rid@, k as int, j as int + 1);
            lemma_prefix_monotone(w@, j as int + 1, w@.len() as int);
            assert(id_weight(w@, rid@, k as int, j as int + 1) == r@[k as int] + w@[j as int]);
        }
        let ghost r0 = r@;
        r.set(k, r[k] + w[j]);
        proof {
            assert forall|kk: int| 0 <= kk < num_regions implies #[trigger] r@[kk] == id_weight(w@, rid@, kk, j as int + 1) by {
                assert(id_weight(w@, rid@, kk, j as int + 1) == id_weight(w@, rid@, kk, j as int) + if rid@[j as int] == kk { w@[j as int] as int } else { 0 });
                if kk != k {
                    assert(r@[kk] == r0[kk]);
                }
            }
        }
        j += 1;
    }
    r
}

/// Region numbers that agree with reachability.
spec fn ids_match_links(rid: Seq<usize>, edges: Seq<(usize, usize)>, state: Seq<EdgeState>, potential: bool, nv: nat) -> bool {
    &&& rid.len() == nv
    &&& forall|u: int, v: int| 0 <= u < nv && 0 <= v < nv ==> (rid[u] == rid[v] <==> #[trigger] linked(edges, state, potential, u, v))
}

/// Edge `e` is undecided and both its ends are in one decided region: it must join.
pub open spec fn join_forced(edges: Seq<(usize, usize)>, state: Seq<EdgeState>, e: int) -> bool {
    &&& 0 <= e < edges.len()
    &&& state[e] == EdgeState::Undecided
    &&& linked(edges, state, false, edges[e].0 as int, edges[e].1 as int)
}

/// The border `x` already separates the two decided regions of the ends of `e`.
pub open spec fn separated_at(edges: Seq<(usize, usize)>, state: Seq<EdgeState>, e: int, x: int) -> bool {
    let (a, b) = (edges[e].0 as int, edges[e].1 as int);
    &&& 0 <= x < edges.len()
    &&& state[x] == EdgeState::Disconnected
    &&& ((linked(edges, state, false, a, edges[x].0 as int) && linked(edges, state, false, b, edges[x].1 as int))
        || (linked(edges, state, false, a, edges[x].1 as int) && linked(edges, state, false, b, edges[x].0 as int)))
}

/// Vertex `x` lies in one of the two decided regions of the ends of `e`, and
/// its upper bound is below their total weight.
pub open spec fn heavy_at(nv: int, w: Seq<i32>, edges: Seq<(usize, usize)>, state: Seq<EdgeState>, up: Seq<i32>, e: int, x: int) -> bool {
    let (a, b) = (edges[e].0 as int, edges[e].1 as int);
    &&& 0 <= x < nv
    &&& (linked(edges, state, false, a, x) || linked(edges, state, false, b, x))
    &&& up[x] < linked_weight(w, edges, state, false, a, nv) + linked_weight(w, edges, state, false, b, nv)
}

/// Vertex `x` lies in the decided region of one end of `e` and `y` in that of
/// the other, and the lower bound of `x` is above the upper bound of `y`.
pub open spec fn clash_at(nv: int, edges: Seq<(usize, usize)>, state: Seq<EdgeState>, lo: Seq<i32>, up: Seq<i32>, e: int, x: int, y: int) -> bool {
    let (a, b) = (edges[e].0 as int, edges[e].1 as int);
    &&& 0 <= x < nv
    &&& 0 <= y < nv
    &&& ((linked(edges, state, false, a, x) && linked(edges, state, false, b, y))
        || (linked(edges, state, false, b, x) && linked(edges, state, false, a, y)))
    &&& lo[x] > up[y]
}

/// Edge `e` is undecided between two decided regions, and one of the rules
/// says it must be a border.
pub open spec fn border_forced(nv: int, w: Seq<i32>, edges: Seq<(usize, usize)>, state: Seq<EdgeState>, lo: Seq<i32>, up: Seq<i32>, e: int) -> bool {
    &&& 0 <= e < edges.len()
    &&& state[e] == EdgeState::Undecided
    &&& !linked(edges, state, false, edges[e].0 as int, edges[e].1 as int)
    &&& ((exists|x: int| #[trigger] separated_at(edges, state, e, x))
        || (exists|x: int| #[trigger] heavy_at(nv, w, edges, state, up, e, x))
        || (exists|x: int, y: int| #[trigger] clash_at(nv, edges, state, lo, up, e, x, y)))
}

/// The size of `i` is below the weight of its decided region, whose domain
/// has its first `c` values below that weight.
pub open spec fn large_forced(nv: int, w: Seq<i32>, dom: Seq<Vec<i32>>, edges: Seq<(usize, usize)>, state: Seq<EdgeState>, lo: Seq<i32>, i: int, c: int) -> bool {
    &&& 0 <= i < nv
    &&& dom[i]@.len() > 0
    &&& lo[i] < linked_weight(w, edges, state, false, i, nv)
    &&& split_at(dom[i]@, linked_weight(w, edges, state, false, i, nv), c)
}

/// The size of `i` may exceed the weight of the largest region `i` can still
/// be in, whose domain has its first `c` values up to that weight.
pub open spec fn small_forced(nv: int, w: Seq<i32>, dom: Seq<Vec<i32>>, edges: Seq<(usize, usize)>, state: Seq<EdgeState>, up: Seq<i32>, i: int, c: int) -> bool {
    &&& 0 <= i < nv
    &&& dom[i]@.len() > 0
    &&& up[i] > linked_weight(w, edges, state, true, i, nv)
    &&& split_at(dom[i]@, linked_weight(w, edges, state, true, i, nv) + 1, c)
}

/// `l` follows by one of the rules from the decided edges and the bounds.
pub open spec fn deduced_from(
    nv: int,
    w: Seq<i32>,
    dom: Seq<Vec<i32>>,
    dl: Seq<Vec<Lit>>,
    edges: Seq<(usize, usize)>,
    el: Seq<Lit>,
    state: Seq<EdgeState>,
    lo: Seq<i32>,
    up: Seq<i32>,
    l: Lit,
) -> bool {
    ||| exists|e: int| #[trigger] join_forced(edges, state, e) && l == el[e].spec_not()
    ||| exists|e: int| #[trigger] border_forced(nv, w, edges, state, lo, up, e) && l == el[e]
    ||| exists|i: int, c: int| #[trigger] large_forced(nv, w, dom, edges, state, lo, i, c) && l == dl[i]@[c - 1]
    ||| exists|i: int, c: int| #[trigger] small_forced(nv, w, dom, edges, state, up, i, c) && l == dl[i]@[c - 1].spec_not()
}

impl GraphDivision {
    /// The decided region of `i` weighs this much: the vertices reachable
    /// from `i` over joining edges.
    pub closed spec fn decided_weight(&self, i: int) -> int {
        linked_weight(self.vertex_weights@, self.edges@, self.edge_state@, false, i, self.num_vertices as int)
    }

    /// The largest region `i` can still be in weighs this much: the vertices
    /// reachable from `i` over edges that are not borders.
    pub closed spec fn potential_weight(&self, i: int) -> int {
        linked_weight(self.vertex_weights@, self.edges@, self.edge_state@, true, i, self.num_vertices as int)
    }

    /// The bounds on the sizes do not cross.
    pub closed spec fn bounds_ordered(&self) -> bool {
        forall|i: int| 0 <= i < self.num_vertices ==> #[trigger] self.lower_bound@[i] <= self.upper_bound@[i]
    }

    /// No border lies inside a decided region.
    pub closed spec fn borders_separate(&self) -> bool {
        forall|e: int|
            0 <= e < self.num_edges && #[trigger] self.edge_state@[e] == EdgeState::Disconnected ==> !linked(
                self.edges@,
                self.edge_state@,
                false,
                self.edges@[e].0 as int,
                self.edges@[e].1 as int,
            )
    }

    /// No decided region weighs more than a size allows.
    pub closed spec fn decided_fits(&self) -> bool {
        forall|i: int| 0 <= i < self.num_vertices ==> self.decided_weight(i) <= #[trigger] self.upper_bound@[i]
    }

    /// No size must exceed the largest region its vertex can still be in.
    pub closed spec fn potential_suffices(&self) -> bool {
        forall|i: int| 0 <= i < self.num_vertices && self.domains@[i]@.len() > 0 ==> #[trigger] self.lower_bound@[i] <= self.potential_weight(i)
    }

    /// Within a decided region, no vertex's lower bound exceeds another's upper bound.
    pub closed spec fn regions_agree(&self) -> bool {
        forall|i: int, j: int|
            0 <= i < self.num_vertices && 0 <= j < self.num_vertices && #[trigger] linked(self.edges@, self.edge_state@, false, i, j) ==> self.lower_bound@[i] <= self.upper_bound@[j]
    }

    /// What the constraint checks of the current state.
    pub closed spec fn consistent(&self) -> bool {
        &&& self.bounds_ordered()
        &&& self.borders_separate()
        &&& self.decided_fits()
        &&& self.potential_suffices()
        &&& self.regions_agree()
    }

    /// The literal fixes a bound of a size.
    pub closed spec fn bound_lit(&self, l: Lit) -> bool {
        exists|i: int|
            #![trigger self.lower_bound_lit@[i]]
            #![trigger self.upper_bound_lit@[i]]
            0 <= i < self.num_vertices && (self.lower_bound_lit@[i] == Some(l) || self.upper_bound_lit@[i] == Some(l))
    }

    /// The literal is true in the state: a joining edge, a border or a bound.
    pub closed spec fn true_lit(&self, l: Lit) -> bool {
        self.connected_edge_lit(l) || self.border_lit(l) || self.bound_lit(l)
    }

    pub closed spec fn reason_ok(&self) -> bool {
        forall|k: int| 0 <= k < self.inconsistency_reason@.len() ==> self.true_lit(#[trigger] self.inconsistency_reason@[k])
    }

    /// The decided edges and the bounds are those of `o`.
    /// Every undecided edge inside a decided region is deduced to join:
    /// the negation of its literal is among `props`.
    pub closed spec fn joins_deduced(&self, props: Seq<Lit>) -> bool {
        forall|e: int|
            0 <= e < self.num_edges && #[trigger] self.edge_state@[e] == EdgeState::Undecided && linked(
                self.edges@,
                self.edge_state@,
                false,
                self.edges@[e].0 as int,
                self.edges@[e].1 as int,
            ) ==> props.contains(self.edge_lits@[e].spec_not())
    }

    /// Every undecided edge between two decided regions that would together
    /// weigh more than a size of one of their vertices allows is deduced to
    /// be a border: its literal is among `props`.
    pub closed spec fn too_heavy_deduced(&self, props: Seq<Lit>) -> bool {
        forall|e: int, x: int|
            0 <= e < self.num_edges && #[trigger] self.edge_state@[e] == EdgeState::Undecided && !linked(
                self.edges@,
                self.edge_state@,
                false,
                self.edges@[e].0 as int,
                self.edges@[e].1 as int,
            ) && 0 <= x < self.num_vertices && (linked(self.edges@, self.edge_state@, false, self.edges@[e].0 as int, x)
                || linked(self.edges@, self.edge_state@, false, self.edges@[e].1 as int, x))
                && #[trigger] self.upper_bound@[x] < self.decided_weight(self.edges@[e].0 as int) + self.decided_weight(
                self.edges@[e].1 as int,
            ) ==> props.contains(self.edge_lits@[e])
    }

    /// Every undecided edge between two decided regions where a vertex of
    /// one has a size lower bound above the upper bound of a vertex of the
    /// other is deduced to be a border: its literal is among `props`.
    pub closed spec fn bounds_clash_deduced(&self, props: Seq<Lit>) -> bool {
        forall|e: int, x: int, y: int|
            0 <= e < self.num_edges && #[trigger] self.edge_state@[e] == EdgeState::Undecided && !linked(
                self.edges@,
                self.edge_state@,
                false,
                self.edges@[e].0 as int,
                self.edges@[e].1 as int,
            ) && 0 <= x < self.num_vertices && 0 <= y < self.num_vertices && ((linked(
                self.edges@,
                self.edge_state@,
                false,
                self.edges@[e].0 as int,
                x,
            ) && linked(self.edges@, self.edge_state@, false, self.edges@[e].1 as int, y)) || (linked(
                self.edges@,
                self.edge_state@,
                false,
                self.edges@[e].1 as int,
                x,
            ) && linked(self.edges@, self.edge_state@, false, self.edges@[e].0 as int, y)))
                && #[trigger] self.lower_bound@[x] > #[trigger] self.upper_bound@[y] ==> props.contains(self.edge_lits@[e])
    }


    /// `l` follows by one of the rules from the current state.
    pub closed spec fn deduced(&self, l: Lit) -> bool {
        deduced_from(
            self.num_vertices as int,
            self.vertex_weights@,
            self.domains@,
            self.dom_lits@,
            self.edges@,
            self.edge_lits@,
            self.edge_state@,
            self.lower_bound@,
            self.upper_bound@,
            l,
        )
    }

    /// The literals of `props` from position `from` on all follow by one of
    /// the rules.
    pub closed spec fn all_deduced(&self, props: Seq<Lit>, from: int) -> bool {
        forall|k: int| from <= k < props.len() ==> #[trigger] self.deduced(props[k])
    }

    /// The literals deduced by the last analysis are exactly the deductions
    /// of the edge rules and the size rules.
    pub closed spec fn deductions_made(&self) -> bool {
        &&& self.all_deduced(self.propagations@, 0)
        &&& self.joins_deduced(self.propagations@)
        &&& self.too_heavy_deduced(self.propagations@)
        &&& self.bounds_clash_deduced(self.propagations@)
        &&& self.separated_deduced(self.propagations@)
        &&& self.large_deduced(self.propagations@)
        &&& self.small_deduced(self.propagations@)
    }

    /// Each size must be at least the weight of its decided region: where
    /// its lower bound is less, the literal saying that the size exceeds
    /// the last domain value below that weight is among `props`.
    pub closed spec fn large_deduced(&self, props: Seq<Lit>) -> bool {
        forall|i: int|
            0 <= i < self.num_vertices && self.domains@[i]@.len() > 0 && #[trigger] self.lower_bound@[i] < self.decided_weight(i)
                ==> exists|c: int| #[trigger] split_at(self.domains@[i]@, self.decided_weight(i), c) && props.contains(self.dom_lits@[i]@[c - 1])
    }

    /// Each size is at most the weight of the largest region its vertex can
    /// still be in: where its upper bound is more, the literal saying that
    /// the size does not exceed the last domain value up to that weight is
    /// among `props`.
    pub closed spec fn small_deduced(&self, props: Seq<Lit>) -> bool {
        forall|i: int|
            0 <= i < self.num_vertices && self.domains@[i]@.len() > 0 && #[trigger] self.upper_bound@[i] > self.potential_weight(i)
                ==> exists|c: int| #[trigger] split_at(self.domains@[i]@, self.potential_weight(i) + 1, c) && props.contains(self.dom_lits@[i]@[c - 1].spec_not())
    }

    /// Every undecided edge between two decided regions that a border
    /// already separates is deduced to be a border: its literal is among
    /// `props`.
    pub closed spec fn separated_deduced(&self, props: Seq<Lit>) -> bool {
        forall|e: int, x: int|
            0 <= e < self.num_edges && #[trigger] self.edge_state@[e] == EdgeState::Undecided && !linked(
                self.edges@,
                self.edge_state@,
                false,
                self.edges@[e].0 as int,
                self.edges@[e].1 as int,
            ) && 0 <= x < self.num_edges && #[trigger] self.edge_state@[x] == EdgeState::Disconnected && ((linked(
                self.edges@,
                self.edge_state@,
                false,
                self.edges@[e].0 as int,
                self.edges@[x].0 as int,
            ) && linked(self.edges@, self.edge_state@, false, self.edges@[e].1 as int, self.edges@[x].1 as int)) || (
            linked(self.edges@, self.edge_state@, false, self.edges@[e].0 as int, self.edges@[x].1 as int) && linked(
                self.edges@,
                self.edge_state@,
                false,
                self.edges@[e].1 as int,
                self.edges@[x].0 as int,
            ))) ==> props.contains(self.edge_lits@[e])
    }

    /// The deductions stay true of a longer list.
    proof fn lemma_deduced_grow(&self, a: Seq<Lit>, b: Seq<Lit>)
        requires
            a.is_prefix_of(b),
        ensures
            self.joins_deduced(a) ==> self.joins_deduced(b),
            self.too_heavy_deduced(a) ==> self.too_heavy_deduced(b),
            self.bounds_clash_deduced(a) ==> self.bounds_clash_deduced(b),
            self.separated_deduced(a) ==> self.separated_deduced(b),
            self.large_deduced(a) ==> self.large_deduced(b),
            self.small_deduced(a) ==> self.small_deduced(b),
    {
        assert forall|l: Lit| a.contains(l) implies b.contains(l) by {
            let k = choose|k: int| 0 <= k < a.len() && a[k] == l;
            assert(b[k] == l);
        }
        if self.large_deduced(a) {
            assert forall|i: int|
                0 <= i < self.num_vertices && self.domains@[i]@.len() > 0 && #[trigger] self.lower_bound@[i] < self.decided_weight(i)
                    implies exists|c: int| #[trigger] split_at(self.domains@[i]@, self.decided_weight(i), c) && b.contains(self.dom_lits@[i]@[c - 1]) by {
                let c = choose|c: int| #[trigger] split_at(self.domains@[i]@, self.decided_weight(i), c) && a.contains(self.dom_lits@[i]@[c - 1]);
                assert(b.contains(self.dom_lits@[i]@[c - 1]));
            }
        }
        if self.small_deduced(a) {
            assert forall|i: int|
                0 <= i < self.num_vertices && self.domains@[i]@.len() > 0 && #[trigger] self.upper_bound@[i] > self.potential_weight(i)
                    implies exists|c: int| #[trigger] split_at(self.domains@[i]@, self.potential_weight(i) + 1, c) && b.contains(self.dom_lits@[i]@[c - 1].spec_not()) by {
                let c = choose|c: int| #[trigger] split_at(self.domains@[i]@, self.potential_weight(i) + 1, c) && a.contains(self.dom_lits@[i]@[c - 1].spec_not());
                assert(b.contains(self.dom_lits@[i]@[c - 1].spec_not()));
            }
        }
    }

    pub closed spec fn same_state(&self, o: &Self) -> bool {
        &&& self.edge_state@ == o.edge_state@
        &&& self.lower_bound@ == o.lower_bound@
        &&& self.upper_bound@ == o.upper_bound@
        &&& self.lower_bound_lit@ == o.lower_bound_lit@
        &&& self.upper_bound_lit@ == o.upper_bound_lit@
    }

    /// Checks that no size has crossing bounds.
    fn check_bound_order(&mut self) -> (r: bool)
        requires
            old(self).wf(),
        ensures
            final(self).wf(),
            final(self).same_graph(old(self)),
            final(self).same_state(old(self)),
            final(self).propagations@ == old(self).propagations@,
            r == old(self).bounds_ordered(),
            !r ==> final(self).reason_ok(),
    {
        let nv = self.num_vertices;
        let mut i: usize = 0;
        while i < nv
            invariant
                self.wf(),
                self.same_graph(old(self)),
                self.same_state(old(self)),
                self.propagations@ == old(self).propagations@,
                nv == self.num_vertices,
                i <= nv,
                forall|x: int| 0 <= x < i ==> #[trigger] self.lower_bound@[x] <= self.upper_bound@[x],
            decreases nv - i,
        {
            if self.lower_bound[i] > self.upper_bound[i] {
                let mut reason: Vec<Lit> = Vec::new();
                match self.lower_bound_lit[i] {
                    Some(l) => {
                        reason.push(l);
                    }
                    None => {}
                }
                match self.upper_bound_lit[i] {
                    Some(l) => {
                        reason.push(l);
                    }
                    None => {}
                }
                self.inconsistency_reason = reason;
                proof {
                    assert forall|k: int| 0 <= k < self.inconsistency_reason@.len() implies self.true_lit(#[trigger] self.inconsistency_reason@[k]) by {
                        assert(self.bound_lit(self.inconsistency_reason@[k])) by {
                            assert(self.lower_bound_lit@[i as int] == Some(self.inconsistency_reason@[k]) || self.upper_bound_lit@[i as int] == Some(self.inconsistency_reason@[k]));
                        }
                    }
                }
                return false;
            }
            i += 1;
        }
        true
    }

    /// Part one of the analysis: a border between two vertices of one decided
    /// region is a conflict; an undecided edge inside a decided region must
    /// join, and one between two regions that a border separates must be a
    /// border.
    fn check_edges(&mut self, did: &Vec<usize>) -> (r: bool)
        requires
            old(self).wf(),
            ids_match_links(did@, old(self).edges@, old(self).edge_state@, false, old(self).num_vertices as nat),
        ensures
            final(self).wf(),
            final(self).same_graph(old(self)),
            final(self).same_state(old(self)),
            old(self).propagations@.is_prefix_of(final(self).propagations@),
            r ==> final(self).joins_deduced(final(self).propagations@),
            r ==> final(self).separated_deduced(final(self).propagations@),
            r ==> final(self).all_deduced(final(self).propagations@, old(self).propagations@.len() as int),
            r == old(self).borders_separate(),
            !r ==> final(self).reason_ok(),
    {
        let ne = self.num_edges;
        let ghost nv = self.num_vertices as nat;
        let mut groups: Vec<((usize, usize), usize)> = Vec::new();
        let mut e: usize = 0;
        while e < ne
            invariant
                self.wf(),
                self.same_graph(old(self)),
                self.same_state(old(self)),
                old(self).propagations@.is_prefix_of(self.propagations@),
                ne == self.num_edges,
                nv == self.num_vertices,
                ids_match_links(did@, self.edges@, self.edge_state@, false, nv),
                e <= ne,
                groups_ok(groups@, ne as nat),
                forall|k: int| 0 <= k < groups@.len() ==> group_entry_ok(#[trigger] groups@[k], did@, self.edges@, self.edge_state@),
                self.all_deduced(self.propagations@, old(self).propagations@.len() as int),
                forall|x: int|
                    0 <= x < e && #[trigger] self.edge_state@[x] == EdgeState::Disconnected && did@[self.edges@[x].0 as int] != did@[self.edges@[x].1 as int]
                        ==> groups@.contains(
                        (
                            if did@[self.edges@[x].0 as int] > did@[self.edges@[x].1 as int] {
                                (did@[self.edges@[x].1 as int], did@[self.edges@[x].0 as int])
                            } else {
                                (did@[self.edges@[x].0 as int], did@[self.edges@[x].1 as int])
                            },
                            x as usize,
                        ),
                    ),
                forall|x: int|
                    0 <= x < e && #[trigger] self.edge_state@[x] == EdgeState::Undecided && linked(
                        self.edges@,
                        self.edge_state@,
                        false,
                        self.edges@[x].0 as int,
                        self.edges@[x].1 as int,
                    ) ==> self.propagations@.contains(self.edge_lits@[x].spec_not()),
                forall|x: int|
                    0 <= x < e && #[trigger] self.edge_state@[x] == EdgeState::Disconnected ==> !linked(
                        self.edges@,
                        self.edge_state@,
                        false,
                        self.edges@[x].0 as int,
                        self.edges@[x].1 as int,
                    ),
            decreases ne - e,
        {
            let (u, v) = self.edges[e];
            let st = self.edge_state[e];
            assert(linked(self.edges@, self.edge_state@, false, u as int, v as int) <==> did@[u as int] == did@[v as int]);
            if did[u] == did[v] {
                if st == EdgeState::Disconnected {
                    let mut reason = self.reason_connected_path(u, v);
                    let l = self.edge_lits[e];
                    let ghost r0 = reason@;
                    reason.push(l);
                    self.inconsistency_reason = reason;
                    proof {
                        assert(self.border_lit(l)) by {
                            assert(l == self.edge_lits@[e as int]);
                            assert(self.edge_state@[e as int] == EdgeState::Disconnected);
                        }
                        assert forall|k: int| 0 <= k < self.inconsistency_reason@.len() implies self.true_lit(#[trigger] self.inconsistency_reason@[k]) by {
                            if k < r0.len() {
                                assert(self.inconsistency_reason@[k] == r0[k]);
                            }
                        }
                    }
                    return false;
                } else if st == EdgeState::Undecided {
                    let l = self.edge_lits[e].negate();
                    let ghost p0 = self.propagations@;
                    let ghost s0 = *self;
                    self.register_propagation(l, Reason::EdgeInSameGroup { edge_idx: e });
                    proof {
                        assert(self.propagations@[p0.len() as int] == l);
                        assert(join_forced(self.edges@, self.edge_state@, e as int));
                        assert(self.deduced(l));
                        lemma_all_deduced_push(&s0, self, old(self).propagations@.len() as int);
                        assert forall|x: int|
                            0 <= x < e && #[trigger] self.edge_state@[x] == EdgeState::Undecided && linked(
                                self.edges@,
                                self.edge_state@,
                                false,
                                self.edges@[x].0 as int,
                                self.edges@[x].1 as int,
                            ) implies self.propagations@.contains(self.edge_lits@[x].spec_not()) by {
                            let k = choose|k: int| 0 <= k < p0.len() && p0[k] == self.edge_lits@[x].spec_not();
                            assert(self.propagations@[k] == p0[k]);
                        }
                    }
                }
            } else if st == EdgeState::Disconnected {
                let ui = did[u];
                let vi = did[v];
                let ghost g0 = groups@;
                if ui > vi {
                    groups.push(((vi, ui), e));
                } else {
                    groups.push(((ui, vi), e));
                }
                proof {
                    assert forall|k: int| 0 <= k < groups@.len() implies (#[trigger] groups@[k]).1 < ne
                        && group_entry_ok(groups@[k], did@, self.edges@, self.edge_state@) by {
                        if k < g0.len() {
                            assert(groups@[k] == g0[k]);
                        }
                    }
                    assert(groups@[g0.len() as int].1 == e);
                    assert forall|l: ((usize, usize), usize)| g0.contains(l) implies groups@.contains(l) by {
                        let q = choose|q: int| 0 <= q < g0.len() && g0[q] == l;
                        assert(groups@[q] == l);
                    }
                }
            }
            e += 1;
        }
        let ghost g_unsorted = groups@;
        let groups = sort_groups(groups, Ghost(ne as nat));
        proof {
            assert forall|l: ((usize, usize), usize)| g_unsorted.contains(l) implies groups@.contains(l) by {
                let q = choose|q: int| 0 <= q < g_unsorted.len() && g_unsorted[q] == l;
                assert(groups@.contains(g_unsorted[q]));
            }
            assert forall|k: int| 0 <= k < groups@.len() implies group_entry_ok(#[trigger] groups@[k], did@, self.edges@, self.edge_state@) by {
                assert(g_unsorted.contains(groups@[k]));
                let q = choose|q: int| 0 <= q < g_unsorted.len() && g_unsorted[q] == groups@[k];
                assert(group_entry_ok(g_unsorted[q], did@, self.edges@, self.edge_state@));
            }
        }
        let mut e: usize = 0;
        while e < ne
            invariant
                self.wf(),
                self.same_graph(old(self)),
                self.same_state(old(self)),
                old(self).propagations@.is_prefix_of(self.propagations@),
                ne == self.num_edges,
                nv == self.num_vertices,
                ids_match_links(did@, self.edges@, self.edge_state@, false, nv),
                e <= ne,
                groups_ok(groups@, ne as nat),
                groups_sorted(groups@),
                forall|k: int| 0 <= k < groups@.len() ==> group_entry_ok(#[trigger] groups@[k], did@, self.edges@, self.edge_state@),
                self.all_deduced(self.propagations@, old(self).propagations@.len() as int),
                self.joins_deduced(self.propagations@),
                forall|x: int|
                    0 <= x < ne && #[trigger] self.edge_state@[x] == EdgeState::Disconnected && did@[self.edges@[x].0 as int] != did@[self.edges@[x].1 as int]
                        ==> groups@.contains(
                        (
                            if did@[self.edges@[x].0 as int] > did@[self.edges@[x].1 as int] {
                                (did@[self.edges@[x].1 as int], did@[self.edges@[x].0 as int])
                            } else {
                                (did@[self.edges@[x].0 as int], did@[self.edges@[x].1 as int])
                            },
                            x as usize,
                        ),
                    ),
                forall|e2: int, x: int|
                    0 <= e2 < e && #[trigger] self.edge_state@[e2] == EdgeState::Undecided && !linked(
                        self.edges@,
                        self.edge_state@,
                        false,
                        self.edges@[e2].0 as int,
                        self.edges@[e2].1 as int,
                    ) && 0 <= x < self.num_edges && #[trigger] self.edge_state@[x] == EdgeState::Disconnected && ((linked(
                        self.edges@,
                        self.edge_state@,
                        false,
                        self.edges@[e2].0 as int,
                        self.edges@[x].0 as int,
                    ) && linked(self.edges@, self.edge_state@, false, self.edges@[e2].1 as int, self.edges@[x].1 as int)) || (
                    linked(self.edges@, self.edge_state@, false, self.edges@[e2].0 as int, self.edges@[x].1 as int) && linked(
                        self.edges@,
                        self.edge_state@,
                        false,
                        self.edges@[e2].1 as int,
                        self.edges@[x].0 as int,
                    ))) ==> self.propagations@.contains(self.edge_lits@[e2]),
            decreases ne - e,
        {
            let (u, v) = self.edges[e];
            let ui = did[u];
            let vi = did[v];
            let ghost p_before = self.propagations@;
            if ui != vi && self.edge_state[e] == EdgeState::Undecided {
                let pair = if ui > vi { (vi, ui) } else { (ui, vi) };
                let idx = first_group(&groups, pair);
                proof {
                    if exists|q: int| 0 <= q < groups@.len() && groups@[q].0 == pair {
                        let q = choose|q: int| 0 <= q < groups@.len() && groups@[q].0 == pair;
                        assert(pair_le(pair, groups@[q].0));
                        assert(idx <= q);
                        assert(idx < groups@.len());
                        assert(pair_le(groups@[idx as int].0, groups@[q].0));
                        assert(pair_le(pair, groups@[idx as int].0));
                        assert(groups@[idx as int].0 == pair);
                    }
                }
                if idx < groups.len() && groups[idx].0.0 == pair.0 && groups[idx].0.1 == pair.1 {
                    let edge_idx = groups[idx].1;
                    let (_eu, ev) = self.edges[edge_idx];
                    let l = self.edge_lits[e];
                    let ghost p0 = self.propagations@;
                    let ghost s0 = *self;
                    proof {
                        let x = edge_idx as int;
                        assert(group_entry_ok(groups@[idx as int], did@, self.edges@, self.edge_state@));
                        let a = self.edges@[x].0 as int;
                        let b = self.edges@[x].1 as int;
                        assert((did@[a] == ui && did@[b] == vi) || (did@[a] == vi && did@[b] == ui));
                        assert(separated_at(self.edges@, self.edge_state@, e as int, x));
                        assert(!linked(self.edges@, self.edge_state@, false, u as int, v as int));
                        assert(border_forced(
                            self.num_vertices as int,
                            self.vertex_weights@,
                            self.edges@,
                            self.edge_state@,
                            self.lower_bound@,
                            self.upper_bound@,
                            e as int,
                        ));
                        assert(self.deduced(l));
                    }
                    self.register_propagation(
                        l,
                        Reason::EdgeBetweenDifferentGroups {
                            disconnected_edge_idx: edge_idx,
                            newly_decided_edge_idx: e,
                            flip: ui == did[ev],
                        },
                    );
                    proof {
                        self.lemma_deduced_grow(p0, self.propagations@);
                        assert(self.propagations@[p0.len() as int] == l);
                        lemma_deduced_frame(&s0, self, l);
                        lemma_all_deduced_push(&s0, self, old(self).propagations@.len() as int);
                    }
                }
            }
            proof {
                assert forall|l2: Lit| p_before.contains(l2) implies self.propagations@.contains(l2) by {
                    let k = choose|k: int| 0 <= k < p_before.len() && p_before[k] == l2;
                    assert(self.propagations@[k] == l2);
                }
                assert forall|x: int|
                    0 <= x < self.num_edges && #[trigger] self.edge_state@[x] == EdgeState::Disconnected && ((linked(
                        self.edges@,
                        self.edge_state@,
                        false,
                        u as int,
                        self.edges@[x].0 as int,
                    ) && linked(self.edges@, self.edge_state@, false, v as int, self.edges@[x].1 as int)) || (
                    linked(self.edges@, self.edge_state@, false, u as int, self.edges@[x].1 as int) && linked(
                        self.edges@,
                        self.edge_state@,
                        false,
                        v as int,
                        self.edges@[x].0 as int,
                    ))) && self.edge_state@[e as int] == EdgeState::Undecided && ui != vi
                    implies self.propagations@.contains(self.edge_lits@[e as int]) by {
                    let a = self.edges@[x].0 as int;
                    let b = self.edges@[x].1 as int;
                    assert(did@[a] != did@[b]);
                    let key = if did@[a] > did@[b] { (did@[b], did@[a]) } else { (did@[a], did@[b]) };
                    assert(groups@.contains((key, x as usize)));
                    let q = choose|q: int| 0 <= q < groups@.len() && groups@[q] == (key, x as usize);
                    assert(groups@[q].0 == key);
                }
            }
            e += 1;
        }
        true
    }
}


proof fn lemma_two_regions_fit(w: Seq<i32>, rid: Seq<usize>, k1: int, k2: int, n: int)
    requires
        0 <= n <= w.len(),
        k1 != k2,
        forall|j: int| 0 <= j < w.len() ==> #[trigger] w[j] >= 0,
    ensures
        id_weight(w, rid, k1, n) + id_weight(w, rid, k2, n) <= prefix_weight(w, n),
    decreases n,
{
    if n > 0 {
        lemma_two_regions_fit(w, rid, k1, k2, n - 1);
    }
}

/// The first `c` values of `d` are below `t` and the others are not.
pub open spec fn split_at(d: Seq<i32>, t: int, c: int) -> bool {
    &&& 0 <= c <= d.len()
    &&& forall|k: int| 0 <= k < c ==> #[trigger] d[k] < t
    &&& forall|k: int| c <= k < d.len() ==> #[trigger] d[k] >= t
}

/// The number of values below `t` in the sorted `d`.
fn count_below(d: &Vec<i32>, t: i32) -> (r: usize)
    requires
        non_decreasing(d@),
    ensures
        r <= d@.len(),
        forall|k: int| 0 <= k < r ==> #[trigger] d@[k] < t,
        forall|k: int| r <= k < d@.len() ==> #[trigger] d@[k] >= t,
{
    let mut lo: usize = 0;
    let mut hi: usize = d.len();
    while lo < hi
        invariant
            lo <= hi <= d@.len(),
            non_decreasing(d@),
            forall|k: int| 0 <= k < lo ==> #[trigger] d@[k] < t,
            forall|k: int| hi <= k < d@.len() ==> #[trigger] d@[k] >= t,
        decreases hi - lo,
    {
        let mid = lo + (hi - lo) / 2;
        if d[mid] < t {
            proof {
                assert forall|k: int| 0 <= k < mid + 1 implies #[trigger] d@[k] < t by {
                    assert(d@[k] <= d@[mid as int]);
                }
            }
            lo = mid + 1;
        } else {
            proof {
                assert forall|k: int| mid <= k < d@.len() implies #[trigger] d@[k] >= t by {
                    assert(d@[mid as int] <= d@[k]);
                }
            }
            hi = mid;
        }
    }
    lo
}

/// The number of values at most `t` in the sorted `d`.
fn count_at_most(d: &Vec<i32>, t: i32) -> (r: usize)
    requires
        non_decreasing(d@),
    ensures
        r <= d@.len(),
        forall|k: int| 0 <= k < r ==> #[trigger] d@[k] <= t,
        forall|k: int| r <= k < d@.len() ==> #[trigger] d@[k] > t,
{
    let mut lo: usize = 0;
    let mut hi: usize = d.len();
    while lo < hi
        invariant
            lo <= hi <= d@.len(),
            non_decreasing(d@),
            forall|k: int| 0 <= k < lo ==> #[trigger] d@[k] <= t,
            forall|k: int| hi <= k < d@.len() ==> #[trigger] d@[k] > t,
        decreases hi - lo,
    {
        let mid = lo + (hi - lo) / 2;
        if d[mid] <= t {
            proof {
                assert forall|k: int| 0 <= k < mid + 1 implies #[trigger] d@[k] <= t by {
                    assert(d@[k] <= d@[mid as int]);
                }
            }
            lo = mid + 1;
        } else {
            proof {
                assert forall|k: int| mid <= k < d@.len() implies #[trigger] d@[k] > t by {
                    assert(d@[mid as int] <= d@[k]);
                }
            }
            hi = mid;
        }
    }
    lo
}

/// Per region: the least upper bound and the greatest lower bound (at least
/// 0) of its vertices, with a vertex that has each.
struct RegionBounds {
    upper: Vec<i32>,
    upper_idx: Vec<usize>,
    lower: Vec<i32>,
    lower_idx: Vec<usize>,
}

impl GraphDivision {
    /// The bounds of the sizes in each region numbered by `rid`.
    fn region_bounds(&self, rid: &Vec<usize>, nr: usize) -> (r: RegionBounds)
        requires
            self.wf(),
            rid@.len() == self.num_vertices,
            forall|j: int| 0 <= j < rid@.len() ==> #[trigger] rid@[j] < nr,
        ensures
            r.upper@.len() == nr,
            r.upper_idx@.len() == nr,
            r.lower@.len() == nr,
            r.lower_idx@.len() == nr,
            forall|k: int| 0 <= k < nr && #[trigger] r.upper@[k] != i32::MAX ==> r.upper_idx@[k] < self.num_vertices
                && rid@[r.upper_idx@[k] as int] == k && self.upper_bound@[r.upper_idx@[k] as int] == r.upper@[k],
            forall|k: int| 0 <= k < nr && #[trigger] r.lower@[k] > 0 ==> r.lower_idx@[k] < self.num_vertices
                && rid@[r.lower_idx@[k] as int] == k && self.lower_bound@[r.lower_idx@[k] as int] == r.lower@[k],
            forall|j: int| 0 <= j < self.num_vertices ==> r.upper@[#[trigger] rid@[j] as int] <= self.upper_bound@[j]
                && r.lower@[rid@[j] as int] >= self.lower_bound@[j],
    {
        let nv = self.num_vertices;
        let mut upper: Vec<i32> = Vec::new();
        let mut upper_idx: Vec<usize> = Vec::new();
        let mut lower: Vec<i32> = Vec::new();
        let mut lower_idx: Vec<usize> = Vec::new();
        let mut a: usize = 0;
        while a < nr
            invariant
                a <= nr,
                upper@.len() == a,
                upper_idx@.len() == a,
                lower@.len() == a,
                lower_idx@.len() == a,
                forall|k: int| 0 <= k < a ==> #[trigger] upper@[k] == i32::MAX,
                forall|k: int| 0 <= k < a ==> #[trigger] lower@[k] == 0,
            decreases nr - a,
        {
            upper.push(i32::MAX);
            upper_idx.push(usize::MAX);
            lower.push(0);
            lower_idx.push(usize::MAX);
            a += 1;
        }
        let mut i: usize = 0;
        while i < nv
            invariant
                self.wf(),
                nv == self.num_vertices,
                rid@.len() == nv,
                forall|j: int| 0 <= j < rid@.len() ==> #[trigger] rid@[j] < nr,
                i <= nv,
                upper@.len() == nr,
                upper_idx@.len() == nr,
                lower@.len() == nr,
                lower_idx@.len() == nr,
                forall|k: int| 0 <= k < nr && #[trigger] upper@[k] != i32::MAX ==> upper_idx@[k] < nv
                    && rid@[upper_idx@[k] as int] == k && self.upper_bound@[upper_idx@[k] as int] == upper@[k],
                forall|k: int| 0 <= k < nr && #[trigger] lower@[k] > 0 ==> lower_idx@[k] < nv
                    && rid@[lower_idx@[k] as int] == k && self.lower_bound@[lower_idx@[k] as int] == lower@[k],
                forall|j: int| 0 <= j < i ==> upper@[#[trigger] rid@[j] as int] <= self.upper_bound@[j]
                    && lower@[rid@[j] as int] >= self.lower_bound@[j],
            decreases nv - i,
        {
            let k = rid[i];
            if self.upper_bound[i] < upper[k] {
                upper.set(k, self.upper_bound[i]);
                upper_idx.set(k, i);
            }
            if self.lower_bound[i] > lower[k] {
                lower.set(k, self.lower_bound[i]);
                lower_idx.set(k, i);
            }
            i += 1;
        }
        RegionBounds { upper, upper_idx, lower, lower_idx }
    }

    /// Part two of the analysis: a decided region weighing more than a size of
    /// one of its vertices allows is a conflict; a size must be at least the
    /// weight of its decided region; an undecided edge whose two regions
    /// together would weigh too much must be a border.
    fn check_decided_weights(&mut self, did: &Vec<usize>, nr: usize, dw: &Vec<i32>, rb: &RegionBounds) -> (r: bool)
        requires
            old(self).wf(),
            old(self).bounds_ordered(),
            ids_match_links(did@, old(self).edges@, old(self).edge_state@, false, old(self).num_vertices as nat),
            forall|j: int| 0 <= j < did@.len() ==> #[trigger] did@[j] < nr,
            dw@.len() == nr,
            forall|k: int| 0 <= k < nr ==> #[trigger] dw@[k] == id_weight(old(self).vertex_weights@, did@, k, old(self).num_vertices as int),
            rb.upper@.len() == nr,
            rb.upper_idx@.len() == nr,
            forall|k: int| 0 <= k < nr && #[trigger] rb.upper@[k] != i32::MAX ==> rb.upper_idx@[k] < old(self).num_vertices
                && did@[rb.upper_idx@[k] as int] == k && old(self).upper_bound@[rb.upper_idx@[k] as int] == rb.upper@[k],
            forall|j: int| 0 <= j < old(self).num_vertices ==> rb.upper@[#[trigger] did@[j] as int] <= old(self).upper_bound@[j],
        ensures
            final(self).wf(),
            final(self).same_graph(old(self)),
            final(self).same_state(old(self)),
            old(self).propagations@.is_prefix_of(final(self).propagations@),
            r ==> final(self).too_heavy_deduced(final(self).propagations@),
            r ==> final(self).large_deduced(final(self).propagations@),
            r ==> final(self).all_deduced(final(self).propagations@, old(self).propagations@.len() as int),
            r == old(self).decided_fits(),
            !r ==> final(self).reason_ok(),
    {
        let nv = self.num_vertices;
        let ne = self.num_edges;
        let ghost w = self.vertex_weights@;
        proof {
            assert forall|i: int| 0 <= i < nv implies #[trigger] dw@[did@[i] as int] == self.decided_weight(i) by {
                assert forall|j: int| 0 <= j < nv implies (did@[j] == did@[i] <==> #[trigger] linked(self.edges@, self.edge_state@, false, i, j)) by {
                    assert(did@[i] == did@[j] <==> linked(self.edges@, self.edge_state@, false, i, j));
                }
                lemma_weights_agree(w, did@, self.edges@, self.edge_state@, false, i, nv as int);
            }
        }
        let mut i: usize = 0;
        while i < nv
            invariant
                self.wf(),
                self.same_graph(old(self)),
                self.same_state(old(self)),
                old(self).propagations@.is_prefix_of(self.propagations@),
                nv == self.num_vertices,
                did@.len() == nv,
                forall|j: int| 0 <= j < did@.len() ==> #[trigger] did@[j] < nr,
                dw@.len() == nr,
                forall|i: int| 0 <= i < nv ==> #[trigger] dw@[did@[i] as int] == self.decided_weight(i),
                i <= nv,
                self.propagations@ == old(self).propagations@,
                forall|x: int| 0 <= x < i ==> self.decided_weight(x) <= #[trigger] self.upper_bound@[x],
            decreases nv - i,
        {
            if self.upper_bound[i] < dw[did[i]] {
                let mut reason = self.reason_decided_region(i);
                let ghost r0 = reason@;
                match self.upper_bound_lit[i] {
                    Some(l) => {
                        reason.push(l);
                        proof {
                            assert(self.bound_lit(l)) by {
                                assert(self.lower_bound_lit@[i as int] == Some(l) || self.upper_bound_lit@[i as int] == Some(l));
                            }
                        }
                    }
                    None => {}
                }
                let ghost s1 = *self;
                self.inconsistency_reason = reason;
                proof {
                    assert forall|k: int| 0 <= k < self.inconsistency_reason@.len() implies self.true_lit(#[trigger] self.inconsistency_reason@[k]) by {
                        if k < r0.len() {
                            assert(self.inconsistency_reason@[k] == r0[k]);
                        }
                        assert(s1.true_lit(self.inconsistency_reason@[k]));
                        lemma_true_lit_frame(&s1, self, self.inconsistency_reason@[k]);
                    }
                }
                return false;
            }
            i += 1;
        }
        let mut i: usize = 0;
        while i < nv
            invariant
                self.wf(),
                self.same_graph(old(self)),
                self.same_state(old(self)),
                old(self).propagations@.is_prefix_of(self.propagations@),
                nv == self.num_vertices,
                did@.len() == nv,
                forall|j: int| 0 <= j < did@.len() ==> #[trigger] did@[j] < nr,
                dw@.len() == nr,
                forall|i: int| 0 <= i < nv ==> #[trigger] dw@[did@[i] as int] == self.decided_weight(i),
                forall|x: int| 0 <= x < nv ==> self.decided_weight(x) <= #[trigger] self.upper_bound@[x],
                i <= nv,
                self.all_deduced(self.propagations@, old(self).propagations@.len() as int),
                forall|x: int|
                    0 <= x < i && self.domains@[x]@.len() > 0 && #[trigger] self.lower_bound@[x] < self.decided_weight(x)
                        ==> exists|c: int| #[trigger] split_at(self.domains@[x]@, self.decided_weight(x), c) && self.propagations@.contains(self.dom_lits@[x]@[c - 1]),
            decreases nv - i,
        {
            if self.domains[i].len() > 0 {
                let weight = dw[did[i]];
                if self.lower_bound[i] < weight {
                    let ghost d = self.domains@[i as int]@;
                    let idx = count_below(&self.domains[i], weight);
                    proof {
                        let kl = choose|k: int| 0 <= k < d.len() && d[k] == self.lower_bound@[i as int];
                        assert(d[0] <= d[kl]);
                        assert(d[0] < weight);
                        let ku = choose|k: int| 0 <= k < d.len() && d[k] == self.upper_bound@[i as int];
                        assert(d[ku] >= weight);
                        assert(idx > 0);
                        assert(idx <= ku);
                    }
                    let l = self.dom_lits[i][idx - 1];
                    let ghost p0 = self.propagations@;
                    let ghost s0 = *self;
                    self.register_propagation(l, Reason::RegionAlreadyLarge { vertex_idx: i });
                    proof {
                        assert(self.propagations@[p0.len() as int] == l);
                        assert(split_at(self.domains@[i as int]@, self.decided_weight(i as int), idx as int));
                        assert(large_forced(
                            self.num_vertices as int,
                            self.vertex_weights@,
                            self.domains@,
                            self.edges@,
                            self.edge_state@,
                            self.lower_bound@,
                            i as int,
                            idx as int,
                        ));
                        assert(self.deduced(l));
                        lemma_all_deduced_push(&s0, self, old(self).propagations@.len() as int);
                        assert forall|x: int|
                            0 <= x < i && self.domains@[x]@.len() > 0 && #[trigger] self.lower_bound@[x] < self.decided_weight(x)
                                implies exists|c: int| #[trigger] split_at(self.domains@[x]@, self.decided_weight(x), c) && self.propagations@.contains(self.dom_lits@[x]@[c - 1]) by {
                            let c = choose|c: int| #[trigger] split_at(self.domains@[x]@, self.decided_weight(x), c) && p0.contains(self.dom_lits@[x]@[c - 1]);
                            let k = choose|k: int| 0 <= k < p0.len() && p0[k] == self.dom_lits@[x]@[c - 1];
                            assert(self.propagations@[k] == p0[k]);
                        }
                    }
                }
            }
            i += 1;
        }
        let mut e: usize = 0;
        while e < ne
            invariant
                self.wf(),
                self.same_graph(old(self)),
                self.same_state(old(self)),
                old(self).propagations@.is_prefix_of(self.propagations@),
                nv == self.num_vertices,
                ne == self.num_edges,
                did@.len() == nv,
                forall|j: int| 0 <= j < did@.len() ==> #[trigger] did@[j] < nr,
                dw@.len() == nr,
                forall|k: int| 0 <= k < nr ==> #[trigger] dw@[k] == id_weight(w, did@, k, nv as int),
                w == self.vertex_weights@,
                rb.upper@.len() == nr,
                rb.upper_idx@.len() == nr,
                forall|k: int| 0 <= k < nr && #[trigger] rb.upper@[k] != i32::MAX ==> rb.upper_idx@[k] < nv
                    && did@[rb.upper_idx@[k] as int] == k && self.upper_bound@[rb.upper_idx@[k] as int] == rb.upper@[k],
                e <= ne,
                self.all_deduced(self.propagations@, old(self).propagations@.len() as int),
                forall|x: int| 0 <= x < nv ==> self.decided_weight(x) <= #[trigger] self.upper_bound@[x],
                forall|i: int| 0 <= i < nv ==> #[trigger] dw@[did@[i] as int] == self.decided_weight(i),
                ids_match_links(did@, self.edges@, self.edge_state@, false, nv as nat),
                self.large_deduced(self.propagations@),
                forall|j: int| 0 <= j < nv ==> rb.upper@[#[trigger] did@[j] as int] <= self.upper_bound@[j],
                forall|e2: int, x: int|
                    0 <= e2 < e && #[trigger] self.edge_state@[e2] == EdgeState::Undecided && !linked(
                        self.edges@,
                        self.edge_state@,
                        false,
                        self.edges@[e2].0 as int,
                        self.edges@[e2].1 as int,
                    ) && 0 <= x < self.num_vertices && (linked(self.edges@, self.edge_state@, false, self.edges@[e2].0 as int, x)
                        || linked(self.edges@, self.edge_state@, false, self.edges@[e2].1 as int, x))
                        && #[trigger] self.upper_bound@[x] < self.decided_weight(self.edges@[e2].0 as int) + self.decided_weight(
                        self.edges@[e2].1 as int,
                    ) ==> self.propagations@.contains(self.edge_lits@[e2]),
            decreases ne - e,
        {
            let (u, v) = self.edges[e];
            let ui = did[u];
            let vi = did[v];
            if ui != vi && self.edge_state[e] == EdgeState::Undecided {
                let ub_u = rb.upper[ui];
                let ub_v = rb.upper[vi];
                let least = if ub_u < ub_v { ub_u } else { ub_v };
                proof {
                    lemma_two_regions_fit(w, did@, ui as int, vi as int, nv as int);
                    lemma_id_weight_bounds(w, did@, ui as int, nv as int);
                    lemma_id_weight_bounds(w, did@, vi as int, nv as int);
                }
                let total = dw[ui] + dw[vi];
                if least < total {
                    let idx = if ub_u < ub_v { rb.upper_idx[ui] } else { rb.upper_idx[vi] };
                    let ub_lit = self.upper_bound_lit[idx];
                    let l = self.edge_lits[e];
                    let ghost p0 = self.propagations@;
                    let ghost s0 = *self;
                    proof {
                        assert(least != i32::MAX);
                        assert(did@[idx as int] == ui || did@[idx as int] == vi);
                        assert(self.upper_bound@[idx as int] == least);
                        assert(dw@[did@[u as int] as int] == self.decided_weight(u as int));
                        assert(dw@[did@[v as int] as int] == self.decided_weight(v as int));
                        assert(linked(self.edges@, self.edge_state@, false, u as int, idx as int)
                            || linked(self.edges@, self.edge_state@, false, v as int, idx as int));
                        assert(heavy_at(
                            self.num_vertices as int,
                            self.vertex_weights@,
                            self.edges@,
                            self.edge_state@,
                            self.upper_bound@,
                            e as int,
                            idx as int,
                        ));
                        assert(!linked(self.edges@, self.edge_state@, false, u as int, v as int));
                        assert(border_forced(
                            self.num_vertices as int,
                            self.vertex_weights@,
                            self.edges@,
                            self.edge_state@,
                            self.lower_bound@,
                            self.upper_bound@,
                            e as int,
                        ));
                        assert(self.deduced(l));
                    }
                    self.register_propagation(
                        l,
                        Reason::TooLargeIfRegionsAreMerged { disconnected_edge_idx: e, upper_bound_lit: ub_lit },
                    );
                    proof {
                        assert(self.propagations@[p0.len() as int] == l);
                        lemma_deduced_frame(&s0, self, l);
                        lemma_all_deduced_push(&s0, self, old(self).propagations@.len() as int);
                        self.lemma_deduced_grow(p0, self.propagations@);
                        assert forall|l2: Lit| p0.contains(l2) implies self.propagations@.contains(l2) by {
                            let k = choose|k: int| 0 <= k < p0.len() && p0[k] == l2;
                            assert(self.propagations@[k] == l2);
                        }
                    }
                } else {
                    proof {
                        assert forall|x: int| 0 <= x < nv && (linked(self.edges@, self.edge_state@, false, u as int, x)
                            || linked(self.edges@, self.edge_state@, false, v as int, x))
                            implies !(self.upper_bound@[x] < self.decided_weight(u as int) + self.decided_weight(v as int)) by {
                            assert(did@[x] == did@[u as int] || did@[x] == did@[v as int]);
                            assert(rb.upper@[did@[x] as int] <= self.upper_bound@[x]);
                            assert(dw@[did@[u as int] as int] == self.decided_weight(u as int));
                            assert(dw@[did@[v as int] as int] == self.decided_weight(v as int));
                        }
                    }
                }
            }
            e += 1;
        }
        true
    }

    /// Part three of the analysis: a size whose lower bound exceeds the weight of
    /// the largest region its vertex can still be in is a conflict; otherwise
    /// the size is at most that weight.
    fn check_potential_weights(&mut self, pid: &Vec<usize>, nr: usize, pw: &Vec<i32>) -> (r: bool)
        requires
            old(self).wf(),
            ids_match_links(pid@, old(self).edges@, old(self).edge_state@, true, old(self).num_vertices as nat),
            forall|j: int| 0 <= j < pid@.len() ==> #[trigger] pid@[j] < nr,
            pw@.len() == nr,
            forall|k: int| 0 <= k < nr ==> #[trigger] pw@[k] == id_weight(old(self).vertex_weights@, pid@, k, old(self).num_vertices as int),
        ensures
            final(self).wf(),
            final(self).same_graph(old(self)),
            final(self).same_state(old(self)),
            old(self).propagations@.is_prefix_of(final(self).propagations@),
            r == old(self).potential_suffices(),
            r ==> final(self).small_deduced(final(self).propagations@),
            r ==> final(self).all_deduced(final(self).propagations@, old(self).propagations@.len() as int),
            !r ==> final(self).reason_ok(),
    {
        let nv = self.num_vertices;
        let ghost w = self.vertex_weights@;
        proof {
            assert forall|i: int| 0 <= i < nv implies #[trigger] pw@[pid@[i] as int] == self.potential_weight(i) by {
                assert forall|j: int| 0 <= j < nv implies (pid@[j] == pid@[i] <==> #[trigger] linked(self.edges@, self.edge_state@, true, i, j)) by {
                    assert(pid@[i] == pid@[j] <==> linked(self.edges@, self.edge_state@, true, i, j));
                }
                lemma_weights_agree(w, pid@, self.edges@, self.edge_state@, true, i, nv as int);
            }
        }
        let mut i: usize = 0;
        while i < nv
            invariant
                self.wf(),
                self.same_graph(old(self)),
                self.same_state(old(self)),
                old(self).propagations@.is_prefix_of(self.propagations@),
                nv == self.num_vertices,
                pid@.len() == nv,
                forall|j: int| 0 <= j < pid@.len() ==> #[trigger] pid@[j] < nr,
                pw@.len() == nr,
                forall|i: int| 0 <= i < nv ==> #[trigger] pw@[pid@[i] as int] == self.potential_weight(i),
                i <= nv,
                self.all_deduced(self.propagations@, old(self).propagations@.len() as int),
                forall|x: int| 0 <= x < i && self.domains@[x]@.len() > 0 ==> #[trigger] self.lower_bound@[x] <= self.potential_weight(x),
                forall|x: int|
                    0 <= x < i && self.domains@[x]@.len() > 0 && #[trigger] self.upper_bound@[x] > self.potential_weight(x)
                        ==> exists|c: int| #[trigger] split_at(self.domains@[x]@, self.potential_weight(x) + 1, c) && self.propagations@.contains(self.dom_lits@[x]@[c - 1].spec_not()),
            decreases nv - i,
        {
            if self.domains[i].len() > 0 {
                let weight = pw[pid[i]];
                if self.lower_bound[i] > weight {
                    let mut reason = self.reason_potential_region(i);
                    let ghost r0 = reason@;
                    match self.lower_bound_lit[i] {
                        Some(l) => {
                            reason.push(l);
                            proof {
                                assert(self.bound_lit(l)) by {
                                    assert(self.lower_bound_lit@[i as int] == Some(l) || self.upper_bound_lit@[i as int] == Some(l));
                                }
                            }
                        }
                        None => {}
                    }
                    let ghost s1 = *self;
                    self.inconsistency_reason = reason;
                    proof {
                        assert forall|k: int| 0 <= k < self.inconsistency_reason@.len() implies self.true_lit(#[trigger] self.inconsistency_reason@[k]) by {
                            if k < r0.len() {
                                assert(self.inconsistency_reason@[k] == r0[k]);
                            }
                            assert(s1.true_lit(self.inconsistency_reason@[k]));
                            lemma_true_lit_frame(&s1, self, self.inconsistency_reason@[k]);
                        }
                    }
                    return false;
                }
                if self.upper_bound[i] > weight {
                    let ghost d = self.domains@[i as int]@;
                    let idx = count_at_most(&self.domains[i], weight);
                    proof {
                        let kl = choose|k: int| 0 <= k < d.len() && d[k] == self.lower_bound@[i as int];
                        assert(d[0] <= d[kl]);
                        assert(d[0] <= weight);
                        let ku = choose|k: int| 0 <= k < d.len() && d[k] == self.upper_bound@[i as int];
                        assert(d[ku] > weight);
                        assert(idx > 0);
                        assert(idx <= ku);
                    }
                    let l = self.dom_lits[i][idx - 1].negate();
                    let ghost p0 = self.propagations@;
                    let ghost s0 = *self;
                    self.register_propagation(l, Reason::RegionAlreadySmall { vertex_idx: i });
                    proof {
                        assert(self.propagations@[p0.len() as int] == l);
                        assert(split_at(self.domains@[i as int]@, self.potential_weight(i as int) + 1, idx as int));
                        assert(small_forced(
                            self.num_vertices as int,
                            self.vertex_weights@,
                            self.domains@,
                            self.edges@,
                            self.edge_state@,
                            self.upper_bound@,
                            i as int,
                            idx as int,
                        ));
                        assert(self.deduced(l));
                        lemma_all_deduced_push(&s0, self, old(self).propagations@.len() as int);
                        assert forall|x: int|
                            0 <= x < i && self.domains@[x]@.len() > 0 && #[trigger] self.upper_bound@[x] > self.potential_weight(x)
                                implies exists|c: int| #[trigger] split_at(self.domains@[x]@, self.potential_weight(x) + 1, c) && self.propagations@.contains(self.dom_lits@[x]@[c - 1].spec_not()) by {
                            let c = choose|c: int| #[trigger] split_at(self.domains@[x]@, self.potential_weight(x) + 1, c) && p0.contains(self.dom_lits@[x]@[c - 1].spec_not());
                            let k = choose|k: int| 0 <= k < p0.len() && p0[k] == self.dom_lits@[x]@[c - 1].spec_not();
                            assert(self.propagations@[k] == p0[k]);
                        }
                    }
                }
            }
            i += 1;
        }
        true
    }
}



impl GraphDivision {
    /// Part four of the analysis: inside a decided region all sizes are equal, so
    /// a lower bound above another vertex's upper bound is a conflict; an
    /// undecided edge whose two regions have such bounds must be a border.
    /// An undecided edge between decided regions `a` and `b` (those of its
    /// two ends) must be a border when the greatest lower bound in `a` is above
    /// the least upper bound in `b`.
    proof fn lemma_clash_deduced(
        &self,
        did: Seq<usize>,
        nr: int,
        upper: Seq<i32>,
        upper_idx: Seq<usize>,
        lower: Seq<i32>,
        lower_idx: Seq<usize>,
        e: int,
        a: int,
        b: int,
    )
        requires
            self.wf(),
            ids_match_links(did, self.edges@, self.edge_state@, false, self.num_vertices as nat),
            upper.len() == nr,
            upper_idx.len() == nr,
            lower.len() == nr,
            lower_idx.len() == nr,
            forall|k: int| 0 <= k < nr && #[trigger] upper[k] != i32::MAX ==> upper_idx[k] < self.num_vertices
                && did[upper_idx[k] as int] == k && self.upper_bound@[upper_idx[k] as int] == upper[k],
            forall|k: int| 0 <= k < nr && #[trigger] lower[k] > 0 ==> lower_idx[k] < self.num_vertices
                && did[lower_idx[k] as int] == k && self.lower_bound@[lower_idx[k] as int] == lower[k],
            forall|y: int| 0 <= y < self.num_vertices ==> #[trigger] self.upper_bound@[y] >= 0,
            0 <= e < self.num_edges,
            self.edge_state@[e] == EdgeState::Undecided,
            0 <= a < nr,
            0 <= b < nr,
            a != b,
            (a == did[self.edges@[e].0 as int] && b == did[self.edges@[e].1 as int])
                || (a == did[self.edges@[e].1 as int] && b == did[self.edges@[e].0 as int]),
            lower[a] > upper[b],
        ensures
            self.deduced(self.edge_lits@[e]),
    {
        let nv = self.num_vertices as int;
        let u = self.edges@[e].0 as int;
        let v = self.edges@[e].1 as int;
        assert(u < nv && v < nv);
        assert(upper[b] != i32::MAX);
        let y = upper_idx[b] as int;
        assert(self.upper_bound@[y] >= 0);
        assert(lower[a] > 0);
        let x = lower_idx[a] as int;
        assert(did[x] == a && did[y] == b);
        assert(!linked(self.edges@, self.edge_state@, false, u, v));
        if a == did[u] {
            assert(linked(self.edges@, self.edge_state@, false, u, x));
            assert(linked(self.edges@, self.edge_state@, false, v, y));
        } else {
            assert(linked(self.edges@, self.edge_state@, false, v, x));
            assert(linked(self.edges@, self.edge_state@, false, u, y));
        }
        assert(clash_at(nv, self.edges@, self.edge_state@, self.lower_bound@, self.upper_bound@, e, x, y));
        assert(border_forced(nv, self.vertex_weights@, self.edges@, self.edge_state@, self.lower_bound@, self.upper_bound@, e));
    }

    fn check_regions_agree(&mut self, did: &Vec<usize>, dregions: &Vec<Vec<usize>>, rb: &RegionBounds) -> (r: bool)
        requires
            old(self).wf(),
            regions_ok(old(self).num_vertices as nat, old(self).edges@, old(self).edge_state@, false, did@, dregions@),
            ids_match_links(did@, old(self).edges@, old(self).edge_state@, false, old(self).num_vertices as nat),
            rb.upper@.len() == dregions@.len(),
            rb.upper_idx@.len() == dregions@.len(),
            rb.lower@.len() == dregions@.len(),
            rb.lower_idx@.len() == dregions@.len(),
            forall|j: int| 0 <= j < old(self).num_vertices ==> rb.upper@[#[trigger] did@[j] as int] <= old(self).upper_bound@[j]
                && rb.lower@[did@[j] as int] >= old(self).lower_bound@[j],
            forall|k: int| 0 <= k < dregions@.len() && #[trigger] rb.upper@[k] != i32::MAX ==> rb.upper_idx@[k] < old(self).num_vertices
                && did@[rb.upper_idx@[k] as int] == k && old(self).upper_bound@[rb.upper_idx@[k] as int] == rb.upper@[k],
            forall|k: int| 0 <= k < dregions@.len() && #[trigger] rb.lower@[k] > 0 ==> rb.lower_idx@[k] < old(self).num_vertices
                && did@[rb.lower_idx@[k] as int] == k && old(self).lower_bound@[rb.lower_idx@[k] as int] == rb.lower@[k],
            old(self).decided_fits(),
        ensures
            final(self).wf(),
            final(self).same_graph(old(self)),
            final(self).same_state(old(self)),
            old(self).propagations@.is_prefix_of(final(self).propagations@),
            r == old(self).regions_agree(),
            r ==> final(self).bounds_clash_deduced(final(self).propagations@),
            r ==> final(self).all_deduced(final(self).propagations@, old(self).propagations@.len() as int),
            !r ==> final(self).reason_ok(),
    {
        let nv = self.num_vertices;
        let ne = self.num_edges;
        let nr = dregions.len();
        let ghost edges = self.edges@;
        let ghost state = self.edge_state@;
        let mut k: usize = 0;
        while k < nr
            invariant
                self.wf(),
                self.same_graph(old(self)),
                self.same_state(old(self)),
                old(self).propagations@.is_prefix_of(self.propagations@),
                nv == self.num_vertices,
                nr == dregions@.len(),
                edges == self.edges@,
                state == self.edge_state@,
                regions_ok(nv as nat, edges, state, false, did@, dregions@),
                ids_match_links(did@, edges, state, false, nv as nat),
                k <= nr,
                self.propagations@ == old(self).propagations@,
                forall|kk: int, a: int, b: int|
                    0 <= kk < k && 0 <= a < dregions@[kk]@.len() && 0 <= b < dregions@[kk]@.len() ==>
                        self.lower_bound@[#[trigger] dregions@[kk]@[a] as int] <= self.upper_bound@[#[trigger] dregions@[kk]@[b] as int],
            decreases nr - k,
        {
            let region = &dregions[k];
            assert(region@.len() > 0);
            let first = region[0];
            let mut lb = self.lower_bound[first];
            let mut ub = self.upper_bound[first];
            let mut lbi = first;
            let mut ubi = first;
            let mut t: usize = 0;
            while t < region.len()
                invariant
                    self.wf(),
                    nv == self.num_vertices,
                    region@ == dregions@[k as int]@,
                    regions_ok(nv as nat, edges, state, false, did@, dregions@),
                    k < nr,
                    nr == dregions@.len(),
                    t <= region@.len(),
                    lbi < nv,
                    ubi < nv,
                    did@[lbi as int] == k,
                    did@[ubi as int] == k,
                    lb == self.lower_bound@[lbi as int],
                    ub == self.upper_bound@[ubi as int],
                    forall|a: int| 0 <= a < t ==> self.lower_bound@[#[trigger] region@[a] as int] <= lb,
                    forall|a: int| 0 <= a < t ==> self.upper_bound@[#[trigger] region@[a] as int] >= ub,
                decreases region@.len() - t,
            {
                let c = region[t];
                assert(c < nv && did@[c as int] == k);
                if self.lower_bound[c] > lb {
                    lb = self.lower_bound[c];
                    lbi = c;
                }
                if self.upper_bound[c] < ub {
                    ub = self.upper_bound[c];
                    ubi = c;
                }
                t += 1;
            }
            if lb > ub {
                proof {
                    assert(linked(edges, state, false, lbi as int, ubi as int));
                }
                let mut reason = self.reason_connected_path(lbi, ubi);
                let ghost r0 = reason@;
                match self.lower_bound_lit[lbi] {
                    Some(l) => {
                        reason.push(l);
                        proof {
                            assert(self.bound_lit(l)) by {
                                assert(self.lower_bound_lit@[lbi as int] == Some(l) || self.upper_bound_lit@[lbi as int] == Some(l));
                            }
                        }
                    }
                    None => {}
                }
                let ghost r1 = reason@;
                match self.upper_bound_lit[ubi] {
                    Some(l) => {
                        reason.push(l);
                        proof {
                            assert(self.bound_lit(l)) by {
                                assert(self.lower_bound_lit@[ubi as int] == Some(l) || self.upper_bound_lit@[ubi as int] == Some(l));
                            }
                        }
                    }
                    None => {}
                }
                proof {
                    assert forall|q: int| 0 <= q < reason@.len() implies self.true_lit(#[trigger] reason@[q]) by {
                        if q < r1.len() {
                            assert(reason@[q] == r1[q]);
                            if q < r0.len() {
                                assert(r1[q] == r0[q]);
                            }
                        }
                    }
                }
                let ghost s1 = *self;
                self.inconsistency_reason = reason;
                proof {
                    assert forall|q: int| 0 <= q < self.inconsistency_reason@.len() implies self.true_lit(#[trigger] self.inconsistency_reason@[q]) by {
                        assert(s1.true_lit(self.inconsistency_reason@[q]));
                        lemma_true_lit_frame(&s1, self, self.inconsistency_reason@[q]);
                    }
                    assert(!old(self).regions_agree()) by {
                        assert(linked(edges, state, false, lbi as int, ubi as int));
                        assert(old(self).lower_bound@[lbi as int] > old(self).upper_bound@[ubi as int]);
                    }
                }
                return false;
            }
            proof {
                assert forall|kk: int, a: int, b: int|
                    0 <= kk < k + 1 && 0 <= a < dregions@[kk]@.len() && 0 <= b < dregions@[kk]@.len() implies
                        self.lower_bound@[#[trigger] dregions@[kk]@[a] as int] <= self.upper_bound@[#[trigger] dregions@[kk]@[b] as int] by {
                    if kk == k {
                        assert(self.lower_bound@[region@[a] as int] <= lb);
                        assert(self.upper_bound@[region@[b] as int] >= ub);
                    }
                }
            }
            k += 1;
        }
        proof {
            assert forall|i: int, j: int|
                0 <= i < nv && 0 <= j < nv && #[trigger] linked(edges, state, false, i, j) implies self.lower_bound@[i] <= self.upper_bound@[j] by {
                let kk = did@[i] as int;
                assert(did@[j] == did@[i]);
                assert(dregions@[kk]@.contains(i as usize));
                assert(dregions@[did@[j] as int]@.contains(j as usize));
                let a = choose|a: int| 0 <= a < dregions@[kk]@.len() && dregions@[kk]@[a] == i as usize;
                let b = choose|b: int| 0 <= b < dregions@[kk]@.len() && dregions@[kk]@[b] == j as usize;
                assert(self.lower_bound@[dregions@[kk]@[a] as int] <= self.upper_bound@[dregions@[kk]@[b] as int]);
            }
        }
        proof {
            assert forall|y: int| 0 <= y < nv implies #[trigger] self.upper_bound@[y] >= 0 by {
                assert(old(self).decided_weight(y) <= old(self).upper_bound@[y]);
                lemma_linked_weight_nonneg(self.vertex_weights@, self.edges@, self.edge_state@, false, y, nv as int);
            }
        }
        let mut e: usize = 0;
        while e < ne
            invariant
                self.wf(),
                self.same_graph(old(self)),
                self.same_state(old(self)),
                old(self).propagations@.is_prefix_of(self.propagations@),
                nv == self.num_vertices,
                ne == self.num_edges,
                nr == dregions@.len(),
                regions_ok(nv as nat, self.edges@, self.edge_state@, false, did@, dregions@),
                rb.upper@.len() == nr,
                rb.upper_idx@.len() == nr,
                rb.lower@.len() == nr,
                rb.lower_idx@.len() == nr,
                e <= ne,
                ids_match_links(did@, self.edges@, self.edge_state@, false, nv as nat),
                forall|j: int| 0 <= j < nv ==> rb.upper@[#[trigger] did@[j] as int] <= self.upper_bound@[j]
                    && rb.lower@[did@[j] as int] >= self.lower_bound@[j],
                forall|k: int| 0 <= k < nr && #[trigger] rb.upper@[k] != i32::MAX ==> rb.upper_idx@[k] < nv
                    && did@[rb.upper_idx@[k] as int] == k && self.upper_bound@[rb.upper_idx@[k] as int] == rb.upper@[k],
                forall|k: int| 0 <= k < nr && #[trigger] rb.lower@[k] > 0 ==> rb.lower_idx@[k] < nv
                    && did@[rb.lower_idx@[k] as int] == k && self.lower_bound@[rb.lower_idx@[k] as int] == rb.lower@[k],
                forall|y: int| 0 <= y < nv ==> #[trigger] self.upper_bound@[y] >= 0,
                self.all_deduced(self.propagations@, old(self).propagations@.len() as int),
                forall|e2: int, x: int, y: int|
                    0 <= e2 < e && #[trigger] self.edge_state@[e2] == EdgeState::Undecided && !linked(
                        self.edges@,
                        self.edge_state@,
                        false,
                        self.edges@[e2].0 as int,
                        self.edges@[e2].1 as int,
                    ) && 0 <= x < self.num_vertices && 0 <= y < self.num_vertices && ((linked(
                        self.edges@,
                        self.edge_state@,
                        false,
                        self.edges@[e2].0 as int,
                        x,
                    ) && linked(self.edges@, self.edge_state@, false, self.edges@[e2].1 as int, y)) || (linked(
                        self.edges@,
                        self.edge_state@,
                        false,
                        self.edges@[e2].1 as int,
                        x,
                    ) && linked(self.edges@, self.edge_state@, false, self.edges@[e2].0 as int, y)))
                        && #[trigger] self.lower_bound@[x] > #[trigger] self.upper_bound@[y] ==> self.propagations@.contains(self.edge_lits@[e2]),
            decreases ne - e,
        {
            let (u, v) = self.edges[e];
            let ui = did[u];
            let vi = did[v];
            let ghost p0 = self.propagations@;
            if ui != vi && self.edge_state[e] == EdgeState::Undecided {
                if rb.lower[ui] > rb.upper[vi] {
                    let l = self.edge_lits[e];
                    let ghost s0 = *self;
                    proof {
                        self.lemma_clash_deduced(did@, nr as int, rb.upper@, rb.upper_idx@, rb.lower@, rb.lower_idx@, e as int, ui as int, vi as int);
                    }
                    self.register_propagation(
                        l,
                        Reason::InconsistentBoundsIfRegionsAreMerged {
                            disconnected_edge_idx: e,
                            upper_bound_vertex_idx: rb.upper_idx[vi],
                            lower_bound_vertex_idx: rb.lower_idx[ui],
                            flip: true,
                        },
                    );
                    proof {
                        lemma_deduced_frame(&s0, self, l);
                        lemma_all_deduced_push(&s0, self, old(self).propagations@.len() as int);
                    }
                }
                if rb.lower[vi] > rb.upper[ui] {
                    let l = self.edge_lits[e];
                    let ghost s0 = *self;
                    proof {
                        self.lemma_clash_deduced(did@, nr as int, rb.upper@, rb.upper_idx@, rb.lower@, rb.lower_idx@, e as int, vi as int, ui as int);
                    }
                    self.register_propagation(
                        l,
                        Reason::InconsistentBoundsIfRegionsAreMerged {
                            disconnected_edge_idx: e,
                            upper_bound_vertex_idx: rb.upper_idx[ui],
                            lower_bound_vertex_idx: rb.lower_idx[vi],
                            flip: false,
                        },
                    );
                    proof {
                        lemma_deduced_frame(&s0, self, l);
                        lemma_all_deduced_push(&s0, self, old(self).propagations@.len() as int);
                    }
                }
            }
            proof {
                assert forall|l2: Lit| p0.contains(l2) implies self.propagations@.contains(l2) by {
                    let k = choose|k: int| 0 <= k < p0.len() && p0[k] == l2;
                    assert(self.propagations@[k] == l2);
                }
                if ui != vi && self.edge_state@[e as int] == EdgeState::Undecided {
                    if rb.lower@[ui as int] > rb.upper@[vi as int] || rb.lower@[vi as int] > rb.upper@[ui as int] {
                        assert(self.propagations@.contains(self.edge_lits@[e as int])) by {
                            if rb.lower@[ui as int] > rb.upper@[vi as int] {
                                assert(self.propagations@[p0.len() as int] == self.edge_lits@[e as int]);
                            } else {
                                assert(self.propagations@[self.propagations@.len() - 1] == self.edge_lits@[e as int]);
                            }
                        }
                    } else {
                        assert forall|x: int, y: int| 0 <= x < nv && 0 <= y < nv && ((linked(self.edges@, self.edge_state@, false, u as int, x)
                            && linked(self.edges@, self.edge_state@, false, v as int, y)) || (linked(self.edges@, self.edge_state@, false, v as int, x)
                            && linked(self.edges@, self.edge_state@, false, u as int, y)))
                            implies !(self.lower_bound@[x] > self.upper_bound@[y]) by {
                            assert(rb.upper@[did@[y] as int] <= self.upper_bound@[y]);
                            assert(rb.lower@[did@[x] as int] >= self.lower_bound@[x]);
                        }
                    }
                }
            }
            e += 1;
        }
        true
    }
}


impl GraphDivision {
    /// Checks the current state: returns whether it is consistent; when it is
    /// not, `inconsistency_reason` holds true literals that explain why; the
    /// literals that follow are added to `propagations`, each with its reason.
    #[verifier::rlimit(60)]
    fn analyze(&mut self) -> (r: bool)
        requires
            old(self).wf(),
        ensures
            final(self).wf(),
            final(self).same_graph(old(self)),
            final(self).same_state(old(self)),
            r == old(self).consistent(),
            !r ==> final(self).reason_ok(),
            old(self).propagations@.is_prefix_of(final(self).propagations@),
            r ==> final(self).joins_deduced(final(self).propagations@),
            r ==> final(self).separated_deduced(final(self).propagations@),
            r ==> final(self).too_heavy_deduced(final(self).propagations@),
            r ==> final(self).bounds_clash_deduced(final(self).propagations@),
            r ==> final(self).large_deduced(final(self).propagations@),
            r ==> final(self).small_deduced(final(self).propagations@),
            r ==> final(self).all_deduced(final(self).propagations@, old(self).propagations@.len() as int),
    {
        let (did, dregions) = self.compute_regions(false);
        let (pid, pregions) = self.compute_regions(true);
        let ghost nv = self.num_vertices as nat;
        proof {
            assert forall|u: int, v: int| 0 <= u < nv && 0 <= v < nv implies (did@[u] == did@[v] <==> #[trigger] linked(self.edges@, self.edge_state@, false, u, v)) by {
                lemma_regions_linked(nv, self.edges@, self.edge_state@, false, did@, dregions@, u, v);
            }
            assert forall|u: int, v: int| 0 <= u < nv && 0 <= v < nv implies (pid@[u] == pid@[v] <==> #[trigger] linked(self.edges@, self.edge_state@, true, u, v)) by {
                lemma_regions_linked(nv, self.edges@, self.edge_state@, true, pid@, pregions@, u, v);
            }
        }
        let ghost s0 = *self;
        let ghost base = old(self).propagations@.len() as int;
        if !self.check_edges(&did) {
            return false;
        }
        let ghost p1 = self.propagations@;
        let ghost s1 = *self;
        if !self.check_bound_order() {
            return false;
        }
        let dw = region_weights(&self.vertex_weights, &did, dregions.len());
        let rb = self.region_bounds(&did, dregions.len());
        let ghost s2 = *self;
        if !self.check_decided_weights(&did, dregions.len(), &dw, &rb) {
            return false;
        }
        let ghost p3 = self.propagations@;
        let ghost s3 = *self;
        let pw = region_weights(&self.vertex_weights, &pid, pregions.len());
        if !self.check_potential_weights(&pid, pregions.len(), &pw) {
            return false;
        }
        let ghost p4 = self.propagations@;
        let ghost s4 = *self;
        assert(self.decided_fits()) by {
            assert forall|i: int| 0 <= i < self.num_vertices implies self.decided_weight(i) <= #[trigger] self.upper_bound@[i] by {
                assert(s2.decided_weight(i) <= s2.upper_bound@[i]);
            }
        }
        if !self.check_regions_agree(&did, &dregions, &rb) {
            return false;
        }
        proof {
            self.lemma_deduced_grow(p1, self.propagations@);
            self.lemma_deduced_grow(p3, self.propagations@);
            self.lemma_deduced_grow(p4, self.propagations@);
        }
        assert(self.all_deduced(self.propagations@, base)) by {
            assert(s0.all_deduced(s0.propagations@, base));
            lemma_all_deduced_chain(&s0, &s1, base);
            lemma_all_deduced_chain(&s1, &s2, base);
            lemma_all_deduced_chain(&s2, &s3, base);
            lemma_all_deduced_chain(&s3, &s4, base);
            lemma_all_deduced_chain(&s4, self, base);
        }
        true
    }
}


impl GraphDivision {
    /// The reason still explains its deduction in the current state.
    spec fn reason_valid(&self, r: Reason) -> bool {
        let ne = self.num_edges;
        let nv = self.num_vertices;
        let edges = self.edges@;
        let state = self.edge_state@;
        match r {
            Reason::NotPropagated => false,
            Reason::EdgeInSameGroup { edge_idx } => edge_idx < ne && linked(
                edges,
                state,
                false,
                edges[edge_idx as int].0 as int,
                edges[edge_idx as int].1 as int,
            ),
            Reason::EdgeBetweenDifferentGroups { disconnected_edge_idx, newly_decided_edge_idx, flip } => {
                &&& disconnected_edge_idx < ne
                &&& newly_decided_edge_idx < ne
                &&& state[disconnected_edge_idx as int] == EdgeState::Disconnected
                &&& {
                    let (u1, v1) = edges[disconnected_edge_idx as int];
                    let (a, b) = edges[newly_decided_edge_idx as int];
                    let (u2, v2) = if flip { (b, a) } else { (a, b) };
                    linked(edges, state, false, u1 as int, u2 as int) && linked(edges, state, false, v1 as int, v2 as int)
                }
            },
            Reason::TooLargeIfRegionsAreMerged { disconnected_edge_idx, upper_bound_lit } => {
                &&& disconnected_edge_idx < ne
                &&& upper_bound_lit matches Some(l) ==> self.bound_lit(l)
            },
            Reason::RegionAlreadyLarge { vertex_idx } => vertex_idx < nv,
            Reason::RegionAlreadySmall { vertex_idx } => vertex_idx < nv,
            Reason::InconsistentBoundsIfRegionsAreMerged {
                disconnected_edge_idx,
                upper_bound_vertex_idx,
                lower_bound_vertex_idx,
                flip,
            } => {
                &&& disconnected_edge_idx < ne
                &&& upper_bound_vertex_idx < nv
                &&& lower_bound_vertex_idx < nv
                &&& {
                    let (a, b) = edges[disconnected_edge_idx as int];
                    let (u1, v1) = if flip { (b, a) } else { (a, b) };
                    linked(edges, state, false, u1 as int, upper_bound_vertex_idx as int) && linked(
                        edges,
                        state,
                        false,
                        v1 as int,
                        lower_bound_vertex_idx as int,
                    )
                }
            },
        }
    }

    /// The question can be answered: about the last conflict, whose reason is
    /// made of true literals, or about a deduced literal whose reason still
    /// holds.
    pub closed spec fn explainable(&self, p: Option<Lit>, extra: Option<Lit>) -> bool {
        &&& extra is None
        &&& p is None ==> self.propagation_failure_lit is None && self.reason_ok()
        &&& p matches Some(q) ==> exists|k: int|
            0 <= k < self.unique_lits@.len() && #[trigger] self.unique_lits@[k] == q && self.reason_valid(self.propagation_reasons@[k])
    }

    /// The literal that the solver refused, if any.
    pub closed spec fn spec_failure_lit(&self) -> Option<Lit> {
        self.propagation_failure_lit
    }

    /// The literals that explain the last conflict or a deduction.
    fn explain(&self, p: Option<Lit>) -> (r: Vec<Lit>)
        requires
            self.wf(),
            self.explainable(p, None),
        ensures
            forall|k: int| 0 <= k < r@.len() ==> self.true_lit(#[trigger] r@[k]) || Some(r@[k]) == self.propagation_failure_lit,
            p is None ==> r@ == self.inconsistency_reason@,
    {
        let nv = self.num_vertices;
        let q = match p {
            None => {
                let r = copy_slice(self.inconsistency_reason.as_slice());
                return r;
            }
            Some(q) => q,
        };
        let idx = match lit_index(&self.unique_lits, q) {
            Some(idx) => idx,
            None => {
                proof {
                    let k = choose|k: int| 0 <= k < self.unique_lits@.len() && #[trigger] self.unique_lits@[k] == q && self.reason_valid(self.propagation_reasons@[k]);
                    assert(self.unique_lits@.contains(q));
                }
                return Vec::new();
            }
        };
        proof {
            let k = choose|k: int| 0 <= k < self.unique_lits@.len() && #[trigger] self.unique_lits@[k] == q && self.reason_valid(self.propagation_reasons@[k]);
            if k != idx {
                if k < idx {
                    assert(self.unique_lits@[k].0 < self.unique_lits@[idx as int].0);
                } else {
                    assert(self.unique_lits@[idx as int].0 < self.unique_lits@[k].0);
                }
            }
        }
        let reason = self.propagation_reasons[idx];
        assert(self.reason_valid(reason));
        let mut res: Vec<Lit> = match reason {
            Reason::NotPropagated => Vec::new(),
            Reason::EdgeInSameGroup { edge_idx } => {
                let (u, v) = self.edges[edge_idx];
                self.reason_connected_path(u, v)
            },
            Reason::EdgeBetweenDifferentGroups { disconnected_edge_idx, newly_decided_edge_idx, flip } => {
                let (u1, v1) = self.edges[disconnected_edge_idx];
                let (a, b) = self.edges[newly_decided_edge_idx];
                let (u2, v2) = if flip { (b, a) } else { (a, b) };
                let mut ret = self.reason_connected_path(u1, u2);
                let path = self.reason_connected_path(v1, v2);
                let ghost r0 = ret@;
                let mut t: usize = 0;
                while t < path.len()
                    invariant
                        t <= path@.len(),
                        ret@.len() == r0.len() + t,
                        forall|k: int| 0 <= k < ret@.len() ==> self.true_lit(#[trigger] ret@[k]),
                        forall|k: int| 0 <= k < path@.len() ==> self.connected_edge_lit(#[trigger] path@[k]),
                    decreases path@.len() - t,
                {
                    let ghost r1 = ret@;
                    ret.push(path[t]);
                    proof {
                        assert forall|k: int| 0 <= k < ret@.len() implies self.true_lit(#[trigger] ret@[k]) by {
                            if k < r1.len() {
                                assert(ret@[k] == r1[k]);
                            }
                        }
                    }
                    t += 1;
                }
                let l = self.edge_lits[disconnected_edge_idx];
                let ghost r2 = ret@;
                ret.push(l);
                proof {
                    assert(self.border_lit(l)) by {
                        assert(l == self.edge_lits@[disconnected_edge_idx as int]);
                    }
                    assert forall|k: int| 0 <= k < ret@.len() implies self.true_lit(#[trigger] ret@[k]) by {
                        if k < r2.len() {
                            assert(ret@[k] == r2[k]);
                        }
                    }
                }
                ret
            },
            Reason::TooLargeIfRegionsAreMerged { disconnected_edge_idx, upper_bound_lit } => {
                let (u, v) = self.edges[disconnected_edge_idx];
                let mut ret = self.reason_decided_region(u);
                let other = self.reason_decided_region(v);
                let mut t: usize = 0;
                while t < other.len()
                    invariant
                        t <= other@.len(),
                        forall|k: int| 0 <= k < ret@.len() ==> self.true_lit(#[trigger] ret@[k]),
                        forall|k: int| 0 <= k < other@.len() ==> self.connected_edge_lit(#[trigger] other@[k]),
                    decreases other@.len() - t,
                {
                    let ghost r1 = ret@;
                    ret.push(other[t]);
                    proof {
                        assert forall|k: int| 0 <= k < ret@.len() implies self.true_lit(#[trigger] ret@[k]) by {
                            if k < r1.len() {
                                assert(ret@[k] == r1[k]);
                            }
                        }
                    }
                    t += 1;
                }
                match upper_bound_lit {
                    Some(l) => {
                        let ghost r2 = ret@;
                        ret.push(l);
                        proof {
                            assert forall|k: int| 0 <= k < ret@.len() implies self.true_lit(#[trigger] ret@[k]) by {
                                if k < r2.len() {
                                    assert(ret@[k] == r2[k]);
                                }
                            }
                        }
                    },
                    None => {},
                }
                ret
            },
            Reason::RegionAlreadyLarge { vertex_idx } => self.reason_decided_region(vertex_idx),
            Reason::RegionAlreadySmall { vertex_idx } => self.reason_potential_region(vertex_idx),
            Reason::InconsistentBoundsIfRegionsAreMerged {
                disconnected_edge_idx,
                upper_bound_vertex_idx,
                lower_bound_vertex_idx,
                flip,
            } => {
                let (a, b) = self.edges[disconnected_edge_idx];
                let (u1, v1) = if flip { (b, a) } else { (a, b) };
                let mut ret = self.reason_connected_path(u1, upper_bound_vertex_idx);
                let path = self.reason_connected_path(v1, lower_bound_vertex_idx);
                let mut t: usize = 0;
                while t < path.len()
                    invariant
                        t <= path@.len(),
                        forall|k: int| 0 <= k < ret@.len() ==> self.true_lit(#[trigger] ret@[k]),
                        forall|k: int| 0 <= k < path@.len() ==> self.connected_edge_lit(#[trigger] path@[k]),
                    decreases path@.len() - t,
                {
                    let ghost r1 = ret@;
                    ret.push(path[t]);
                    proof {
                        assert forall|k: int| 0 <= k < ret@.len() implies self.true_lit(#[trigger] ret@[k]) by {
                            if k < r1.len() {
                                assert(ret@[k] == r1[k]);
                            }
                        }
                    }
                    t += 1;
                }
                match self.upper_bound_lit[upper_bound_vertex_idx] {
                    Some(l) => {
                        let ghost r2 = ret@;
                        ret.push(l);
                        proof {
                            assert(self.bound_lit(l)) by {
                                assert(self.lower_bound_lit@[upper_bound_vertex_idx as int] == Some(l) || self.upper_bound_lit@[upper_bound_vertex_idx as int] == Some(l));
                            }
                            assert forall|k: int| 0 <= k < ret@.len() implies self.true_lit(#[trigger] ret@[k]) by {
                                if k < r2.len() {
                                    assert(ret@[k] == r2[k]);
                                }
                            }
                        }
                    },
                    None => {},
                }
                match self.lower_bound_lit[lower_bound_vertex_idx] {
                    Some(l) => {
                        let ghost r2 = ret@;
                        ret.push(l);
                        proof {
                            assert(self.bound_lit(l)) by {
                                assert(self.lower_bound_lit@[lower_bound_vertex_idx as int] == Some(l) || self.upper_bound_lit@[lower_bound_vertex_idx as int] == Some(l));
                            }
                            assert forall|k: int| 0 <= k < ret@.len() implies self.true_lit(#[trigger] ret@[k]) by {
                                if k < r2.len() {
                                    assert(ret@[k] == r2[k]);
                                }
                            }
                        }
                    },
                    None => {},
                }
                ret
            },
        };
        match self.propagation_failure_lit {
            Some(f) => {
                let ghost r2 = res@;
                res.push(f);
                proof {
                    assert forall|k: int| 0 <= k < res@.len() implies self.true_lit(#[trigger] res@[k]) || Some(res@[k]) == self.propagation_failure_lit by {
                        if k < r2.len() {
                            assert(res@[k] == r2[k]);
                        }
                    }
                }
            },
            None => {},
        }
        res
    }
}


impl<T: SolverManipulator> CustomPropagator<T> for GraphDivision {
    closed spec fn inv(&self) -> bool {
        self.wf()
    }

    closed spec fn watches(&self, p: Lit) -> bool {
        self.known(p)
    }

    closed spec fn can_explain(&self, p: Option<Lit>, extra: Option<Lit>) -> bool {
        self.explainable(p, extra)
    }

    fn initialize(&mut self, solver: &mut T) -> (r: bool)
        ensures
            final(self).spec_edges() == old(self).spec_edges(),
            final(self).spec_edge_lits() == old(self).spec_edge_lits(),
            !r && final(self).spec_failure_lit() is None ==> final(self).explainable(None, None),
    {
        let n = self.unique_lits.len();
        let mut k: usize = 0;
        while k < n
            invariant
                n == self.unique_lits@.len(),
                k <= n,
            decreases n - k,
        {
            solver.add_watch(self.unique_lits[k]);
            k += 1;
        }
        let unique_lits = copy_slice(self.unique_lits.as_slice());
        let mut k: usize = 0;
        while k < n
            invariant
                self.wf(),
                self.same_graph(old(self)),
                unique_lits@ == self.unique_lits@,
                n == self.unique_lits@.len(),
                k <= n,
            decreases n - k,
        {
            let p = unique_lits[k];
            proof {
                assert(self.unique_lits@[k as int] == p);
            }
            match solver.value(p) {
                Some(true) => {
                    if !self.propagate(solver, p, 0) {
                        return false;
                    }
                },
                _ => {},
            }
            k += 1;
        }
        true
    }

    fn propagate(&mut self, solver: &mut T, p: Lit, num_pending_propagations: i32) -> (r: bool)
        ensures
            final(self).same_graph(old(self)),
            num_pending_propagations == 0 && r ==> final(self).consistent(),
            num_pending_propagations == 0 && r ==> final(self).deductions_made(),
            num_pending_propagations == 0 && !r && final(self).spec_failure_lit() is None ==> final(self).explainable(None, None),
    {
        self.notify(p);
        if num_pending_propagations != 0 {
            return true;
        }
        self.propagation_failure_lit = None;
        self.inconsistency_reason.clear();
        self.propagations.clear();
        if !self.analyze() {
            return false;
        }
        let n = self.propagations.len();
        let mut k: usize = 0;
        while k < n
            invariant
                self.wf(),
                self.same_graph(old(self)),
                self.consistent(),
                self.joins_deduced(self.propagations@),
                self.too_heavy_deduced(self.propagations@),
                self.bounds_clash_deduced(self.propagations@),
                self.separated_deduced(self.propagations@),
                self.large_deduced(self.propagations@),
                self.small_deduced(self.propagations@),
                self.all_deduced(self.propagations@, 0),
                n == self.propagations@.len(),
                k <= n,
            decreases n - k,
        {
            let q = self.propagations[k];
            match solver.value(q) {
                Some(false) => {
                    self.propagation_failure_lit = Some(q);
                    return false;
                },
                _ => {},
            }
            if !solver.enqueue(q) {
                self.propagation_failure_lit = Some(q);
                return false;
            }
            k += 1;
        }
        true
    }

    fn calc_reason(&mut self, solver: &mut T, p: Option<Lit>, extra: Option<Lit>) -> (r: Vec<Lit>)
        ensures
            forall|k: int| 0 <= k < r@.len() ==> old(self).true_lit(#[trigger] r@[k]) || Some(r@[k]) == old(self).spec_failure_lit(),
    {
        self.explain(p)
    }

    fn undo(&mut self, solver: &mut T, p: Lit) {
        self.undo_internal();
    }
}

/// Whether a literal is true depends on the decided edges and the bounds only.
proof fn lemma_true_lit_frame(a: &GraphDivision, b: &GraphDivision, l: Lit)
    requires
        b.same_graph(a),
        b.same_state(a),
    ensures
        a.true_lit(l) == b.true_lit(l),
{
    if a.connected_edge_lit(l) {
        let e = choose|e: int| 0 <= e < a.num_edges && a.edge_state@[e] == EdgeState::Connected && l == (#[trigger] a.edge_lits@[e]).spec_not();
        assert(b.edge_lits@[e] == a.edge_lits@[e]);
    }
    if b.connected_edge_lit(l) {
        let e = choose|e: int| 0 <= e < b.num_edges && b.edge_state@[e] == EdgeState::Connected && l == (#[trigger] b.edge_lits@[e]).spec_not();
        assert(b.edge_lits@[e] == a.edge_lits@[e]);
    }
    if a.border_lit(l) {
        let e = choose|e: int| 0 <= e < a.num_edges && a.edge_state@[e] == EdgeState::Disconnected && l == #[trigger] a.edge_lits@[e];
        assert(b.edge_lits@[e] == a.edge_lits@[e]);
    }
    if b.border_lit(l) {
        let e = choose|e: int| 0 <= e < b.num_edges && b.edge_state@[e] == EdgeState::Disconnected && l == #[trigger] b.edge_lits@[e];
        assert(b.edge_lits@[e] == a.edge_lits@[e]);
    }
    if a.bound_lit(l) {
        let i = choose|i: int|
            #![trigger a.lower_bound_lit@[i]]
            #![trigger a.upper_bound_lit@[i]]
            0 <= i < a.num_vertices && (a.lower_bound_lit@[i] == Some(l) || a.upper_bound_lit@[i] == Some(l));
        assert(b.lower_bound_lit@[i] == a.lower_bound_lit@[i]);
    }
    if b.bound_lit(l) {
        let i = choose|i: int|
            #![trigger b.lower_bound_lit@[i]]
            #![trigger b.upper_bound_lit@[i]]
            0 <= i < b.num_vertices && (b.lower_bound_lit@[i] == Some(l) || b.upper_bound_lit@[i] == Some(l));
        assert(b.lower_bound_lit@[i] == a.lower_bound_lit@[i]);
    }
}


/// Whether a literal follows by the rules depends on the decided edges and
/// the bounds only.
proof fn lemma_deduced_frame(a: &GraphDivision, b: &GraphDivision, l: Lit)
    requires
        b.same_graph(a),
        b.same_state(a),
    ensures
        a.deduced(l) == b.deduced(l),
{
}

/// Pushing a literal that follows keeps every literal from `from` on following.
proof fn lemma_all_deduced_push(a: &GraphDivision, b: &GraphDivision, from: int)
    requires
        0 <= from,
        b.same_graph(a),
        b.same_state(a),
        b.propagations@ == a.propagations@.push(b.propagations@.last()),
        a.all_deduced(a.propagations@, from),
        b.deduced(b.propagations@.last()),
    ensures
        b.all_deduced(b.propagations@, from),
{
    assert forall|k: int| from <= k < b.propagations@.len() implies #[trigger] b.deduced(b.propagations@[k]) by {
        if k < a.propagations@.len() {
            assert(b.propagations@[k] == a.propagations@[k]);
            assert(a.deduced(a.propagations@[k]));
            lemma_deduced_frame(a, b, a.propagations@[k]);
        }
    }
}

/// Two stretches that each follow make one.
proof fn lemma_all_deduced_chain(a: &GraphDivision, b: &GraphDivision, from: int)
    requires
        0 <= from,
        b.same_graph(a),
        b.same_state(a),
        a.propagations@.is_prefix_of(b.propagations@),
        a.all_deduced(a.propagations@, from),
        b.all_deduced(b.propagations@, a.propagations@.len() as int),
    ensures
        b.all_deduced(b.propagations@, from),
{
    assert forall|k: int| from <= k < b.propagations@.len() implies #[trigger] b.deduced(b.propagations@[k]) by {
        if k < a.propagations@.len() {
            assert(b.propagations@[k] == a.propagations@[k]);
            assert(a.deduced(a.propagations@[k]));
            lemma_deduced_frame(a, b, a.propagations@[k]);
        }
    }
}

/// A region weighs nothing below zero.
proof fn lemma_linked_weight_nonneg(w: Seq<i32>, edges: Seq<(usize, usize)>, state: Seq<EdgeState>, potential: bool, i: int, n: int)
    requires
        n <= w.len(),
        forall|j: int| 0 <= j < w.len() ==> #[trigger] w[j] >= 0,
    ensures
        linked_weight(w, edges, state, potential, i, n) >= 0,
    decreases n,
{
    if n > 0 {
        lemma_linked_weight_nonneg(w, edges, state, potential, i, n - 1);
    }
}

} // verus!
