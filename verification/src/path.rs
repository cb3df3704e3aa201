//! Breadth-first pathfinding over grid cells: from the cell of a
//! source position toward the cell of a target position, 4-connected,
//! through traversable cells.  Returns the direction from the exact
//! source position to the center of the first cell along a path.

use vstd::prelude::*;
use crate::grid::Cell;
use crate::grid::Grid;

verus! {

/// Two cells share an edge (4-connectivity).
pub open spec fn adjacent(a: (int, int), b: (int, int)) -> bool {
    ||| (a.0 == b.0 + 1 && a.1 == b.1)
    ||| (a.0 + 1 == b.0 && a.1 == b.1)
    ||| (a.0 == b.0 && a.1 == b.1 + 1)
    ||| (a.0 == b.0 && a.1 + 1 == b.1)
}

/// Cell `c` can be reached from cell `s` in at most `n` steps over
/// traversable cells (the last step comes from one of the four
/// neighbours of `c`).
pub open spec fn reaches_in(g: Grid, s: (int, int), c: (int, int), n: nat) -> bool
    decreases n,
{
    if n == 0 {
        c == s && g.traversable(s.0, s.1)
    } else {
        ||| reaches_in(g, s, c, (n - 1) as nat)
        ||| (g.traversable(c.0, c.1) && {
            ||| reaches_in(g, s, (c.0 + 1, c.1), (n - 1) as nat)
            ||| reaches_in(g, s, (c.0 - 1, c.1), (n - 1) as nat)
            ||| reaches_in(g, s, (c.0, c.1 + 1), (n - 1) as nat)
            ||| reaches_in(g, s, (c.0, c.1 - 1), (n - 1) as nat)
        })
    }
}

/// Cell `c` can be reached from cell `s` over traversable cells.
pub open spec fn reachable(g: Grid, s: (int, int), c: (int, int)) -> bool {
    exists|n: nat| reaches_in(g, s, c, n)
}

/// Both endpoints of a reaching chain are traversable.
pub proof fn lemma_reaches_trav(g: Grid, s: (int, int), c: (int, int), n: nat)
    requires
        reaches_in(g, s, c, n),
    ensures
        g.traversable(s.0, s.1),
        g.traversable(c.0, c.1),
    decreases n,
{
    if n > 0 {
        let m = (n - 1) as nat;
        if reaches_in(g, s, c, m) {
            lemma_reaches_trav(g, s, c, m);
        } else if reaches_in(g, s, (c.0 + 1, c.1), m) {
            lemma_reaches_trav(g, s, (c.0 + 1, c.1), m);
        } else if reaches_in(g, s, (c.0 - 1, c.1), m) {
            lemma_reaches_trav(g, s, (c.0 - 1, c.1), m);
        } else if reaches_in(g, s, (c.0, c.1 + 1), m) {
            lemma_reaches_trav(g, s, (c.0, c.1 + 1), m);
        } else {
            lemma_reaches_trav(g, s, (c.0, c.1 - 1), m);
        }
    }
}

/// Reaching within `n` steps also counts within any larger bound.
pub proof fn lemma_reaches_mono(g: Grid, s: (int, int), c: (int, int), n: nat, m: nat)
    requires
        reaches_in(g, s, c, n),
        n <= m,
    ensures
        reaches_in(g, s, c, m),
    decreases m,
{
    if m > n {
        lemma_reaches_mono(g, s, c, n, (m - 1) as nat);
    }
}

/// Extending a reaching chain by one adjacent traversable cell.
pub proof fn lemma_reaches_step(g: Grid, s: (int, int), p: (int, int), c: (int, int), n: nat)
    requires
        reaches_in(g, s, p, n),
        adjacent(p, c),
        g.traversable(c.0, c.1),
    ensures
        reaches_in(g, s, c, n + 1),
{
    let m = (n + 1) as nat;
    assert((m - 1) as nat == n);
    if p == (c.0 + 1, c.1) {
        assert(reaches_in(g, s, (c.0 + 1, c.1), (m - 1) as nat));
    } else if p == (c.0 - 1, c.1) {
        assert(reaches_in(g, s, (c.0 - 1, c.1), (m - 1) as nat));
    } else if p == (c.0, c.1 + 1) {
        assert(reaches_in(g, s, (c.0, c.1 + 1), (m - 1) as nat));
    } else {
        assert(p == (c.0, c.1 - 1));
        assert(reaches_in(g, s, (c.0, c.1 - 1), (m - 1) as nat));
    }
    assert(reaches_in(g, s, c, m));
}

/// Reaching chains concatenate: a way from `a` to `b` and a way from
/// `b` to `c` give a way from `a` to `c`.
pub proof fn lemma_reaches_concat(
    g: Grid,
    a: (int, int),
    b: (int, int),
    c: (int, int),
    n: nat,
    m: nat,
)
    requires
        reaches_in(g, a, b, n),
        reaches_in(g, b, c, m),
    ensures
        reaches_in(g, a, c, n + m),
    decreases m,
{
    if m == 0 {
        assert(c == b);
        lemma_reaches_mono(g, a, b, n, n + m);
    } else {
        let k = (m - 1) as nat;
        if reaches_in(g, b, c, k) {
            lemma_reaches_concat(g, a, b, c, n, k);
            lemma_reaches_mono(g, a, c, (n + k) as nat, n + m);
        } else {
            let p: (int, int) = if reaches_in(g, b, (c.0 + 1, c.1), k) {
                (c.0 + 1, c.1)
            } else if reaches_in(g, b, (c.0 - 1, c.1), k) {
                (c.0 - 1, c.1)
            } else if reaches_in(g, b, (c.0, c.1 + 1), k) {
                (c.0, c.1 + 1)
            } else {
                (c.0, c.1 - 1)
            };
            assert(reaches_in(g, b, p, k) && adjacent(p, c));
            lemma_reaches_concat(g, a, b, p, n, k);
            lemma_reaches_step(g, a, p, c, (n + k) as nat);
            assert((n + k) as nat + 1 == n + m);
        }
    }
}

/// The flat index of a cell in the row-major mark array.
pub open spec fn idx_of_cell(g: Grid, c: (int, int)) -> int {
    c.1 * g.width + c.0
}

/// The cell of a flat index.
pub open spec fn cell_of_idx(g: Grid, idx: int) -> (int, int) {
    (idx % (g.width as int), idx / (g.width as int))
}

pub proof fn lemma_cell_idx_bijective(g: Grid, c: (int, int))
    requires
        g.wf(),
        g.in_bounds(c.0, c.1),
    ensures
        0 <= idx_of_cell(g, c) < g.width * g.height,
        cell_of_idx(g, idx_of_cell(g, c)) == c,
{
    let w = g.width as int;
    let h = g.height as int;
    assert(0 <= c.1 * w + c.0 < h * w) by (nonlinear_arith)
        requires
            0 <= c.0 < w,
            0 <= c.1 < h,
    ;
    assert((g.width as int) * (g.height as int) == h * w) by (nonlinear_arith)
        requires
            w == g.width as int,
            h == g.height as int,
    ;
    vstd::arithmetic::div_mod::lemma_fundamental_div_mod_converse_mod(c.1 * w + c.0, w, c.1, c.0);
    vstd::arithmetic::div_mod::lemma_fundamental_div_mod_converse_div(c.1 * w + c.0, w, c.1, c.0);
}

pub proof fn lemma_idx_cell_bijective(g: Grid, idx: int)
    requires
        g.wf(),
        0 <= idx < g.width * g.height,
    ensures
        g.in_bounds(cell_of_idx(g, idx).0, cell_of_idx(g, idx).1),
        idx_of_cell(g, cell_of_idx(g, idx)) == idx,
{
    let w = g.width as int;
    let h = g.height as int;
    vstd::arithmetic::div_mod::lemma_fundamental_div_mod(idx, w);
    vstd::arithmetic::div_mod::lemma_mod_division_less_than_divisor(idx, w);
    assert((g.width as int) * (g.height as int) == w * h) by (nonlinear_arith)
        requires
            w == g.width as int,
            h == g.height as int,
    ;
    assert(0 <= idx / w < h) by (nonlinear_arith)
        requires
            idx == w * (idx / w) + idx % w,
            0 <= idx % w < w,
            0 <= idx < w * h,
            1 <= w,
            1 <= h,
    ;
    assert((idx / w) * w + idx % w == idx) by (nonlinear_arith)
        requires
            idx == w * (idx / w) + idx % w,
    ;
}

/// Whether the mark array `p` marks the cell `c` as discovered (the
/// sentinel `usize::MAX` means undiscovered).
pub open spec fn marked_at(g: Grid, p: Seq<usize>, c: (int, int)) -> bool {
    p[idx_of_cell(g, c)] != usize::MAX
}

/// All traversable neighbours of `c` are marked.
pub open spec fn nbrs_marked(g: Grid, p: Seq<usize>, c: (int, int)) -> bool {
    &&& (g.traversable(c.0 + 1, c.1) ==> marked_at(g, p, (c.0 + 1, c.1)))
    &&& (g.traversable(c.0 - 1, c.1) ==> marked_at(g, p, (c.0 - 1, c.1)))
    &&& (g.traversable(c.0, c.1 + 1) ==> marked_at(g, p, (c.0, c.1 + 1)))
    &&& (g.traversable(c.0, c.1 - 1) ==> marked_at(g, p, (c.0, c.1 - 1)))
}

/// All traversable neighbours of `c` are marked with discovery depth
/// at most `d + 1` (the depth-bounded closure of an expanded cell of
/// depth `d`).
pub open spec fn nbrs_done(
    g: Grid,
    pv: Seq<usize>,
    dm: Map<int, nat>,
    c: (int, int),
    d: int,
) -> bool {
    &&& (g.traversable(c.0 + 1, c.1) ==> marked_at(g, pv, (c.0 + 1, c.1)) && dm[idx_of_cell(
        g,
        (c.0 + 1, c.1),
    )] <= d + 1)
    &&& (g.traversable(c.0 - 1, c.1) ==> marked_at(g, pv, (c.0 - 1, c.1)) && dm[idx_of_cell(
        g,
        (c.0 - 1, c.1),
    )] <= d + 1)
    &&& (g.traversable(c.0, c.1 + 1) ==> marked_at(g, pv, (c.0, c.1 + 1)) && dm[idx_of_cell(
        g,
        (c.0, c.1 + 1),
    )] <= d + 1)
    &&& (g.traversable(c.0, c.1 - 1) ==> marked_at(g, pv, (c.0, c.1 - 1)) && dm[idx_of_cell(
        g,
        (c.0, c.1 - 1),
    )] <= d + 1)
}

/// Level completeness: every cell within fewer than `bound` steps of
/// the source is already discovered, at a depth no more than its
/// distance.
pub open spec fn level_done(
    g: Grid,
    pv: Seq<usize>,
    dm: Map<int, nat>,
    sc: (int, int),
    bound: int,
) -> bool {
    forall|c: (int, int), n: nat|
        #[trigger] reaches_in(g, sc, c, n) && n < bound ==> marked_at(g, pv, c) && dm[idx_of_cell(
            g,
            c,
        )] <= n
}

/// Once the discovered set is closed under taking traversable
/// neighbours, it holds every cell reachable from the (marked) source.
pub proof fn lemma_bfs_complete(g: Grid, p: Seq<usize>, s: (int, int), c: (int, int), n: nat)
    requires
        g.wf(),
        marked_at(g, p, s),
        forall|a: (int, int)|
            g.in_bounds(a.0, a.1) && g.traversable(a.0, a.1) && #[trigger] marked_at(g, p, a)
                ==> nbrs_marked(g, p, a),
        reaches_in(g, s, c, n),
    ensures
        marked_at(g, p, c),
    decreases n,
{
    if n == 0 {
        assert(c == s);
    } else {
        let m = (n - 1) as nat;
        if reaches_in(g, s, c, m) {
            lemma_bfs_complete(g, p, s, c, m);
        } else {
            let q: (int, int) = if reaches_in(g, s, (c.0 + 1, c.1), m) {
                (c.0 + 1, c.1)
            } else if reaches_in(g, s, (c.0 - 1, c.1), m) {
                (c.0 - 1, c.1)
            } else if reaches_in(g, s, (c.0, c.1 + 1), m) {
                (c.0, c.1 + 1)
            } else {
                (c.0, c.1 - 1)
            };
            assert(reaches_in(g, s, q, m));
            lemma_bfs_complete(g, p, s, q, m);
            lemma_reaches_trav(g, s, q, m);
            assert(nbrs_marked(g, p, q));
            assert(g.traversable(c.0, c.1));
            if q == (c.0 + 1, c.1) {
                assert(c == (q.0 - 1, q.1));
            } else if q == (c.0 - 1, c.1) {
                assert(c == (q.0 + 1, q.1));
            } else if q == (c.0, c.1 + 1) {
                assert(c == (q.0, q.1 - 1));
            } else {
                assert(c == (q.0, q.1 + 1));
            }
        }
    }
}

/// A sequence of distinct values below `n` has at most `n` entries.
proof fn lemma_distinct_bounded_len(q: Seq<usize>, n: int)
    requires
        forall|k1: int, k2: int| 0 <= k1 < k2 < q.len() ==> q[k1] != q[k2],
        forall|k: int| 0 <= k < q.len() ==> ((#[trigger] q[k]) as int) < n,
        0 <= n,
    ensures
        q.len() <= n,
{
    let qi = q.map_values(|u: usize| u as int);
    assert(qi.no_duplicates()) by {
        assert forall|k1: int, k2: int|
            0 <= k1 < qi.len() && 0 <= k2 < qi.len() && k1 != k2 implies qi[k1] != qi[k2] by {
            if k1 < k2 {
                assert(q[k1] != q[k2]);
            } else {
                assert(q[k2] != q[k1]);
            }
        }
    }
    qi.unique_seq_to_set();
    let range = vstd::set_lib::set_int_range(0, n);
    vstd::set_lib::lemma_int_range(0, n);
    assert(qi.to_set().subset_of(range)) by {
        assert forall|x: int| qi.to_set().contains(x) implies range.contains(x) by {
            assert(qi.contains(x));
            let k = choose|k: int| 0 <= k < qi.len() && qi[k] == x;
            assert(q[k] as int == x);
        }
    }
    vstd::set_lib::lemma_len_subset(qi.to_set(), range);
}

/// One search node is sound: its cell is traversable and reachable
/// from the source, and (except at the source) its predecessor is a
/// discovered adjacent cell one step closer to the source.
pub open spec fn bfs_node_ok(
    g: Grid,
    pv: Seq<usize>,
    dm: Map<int, nat>,
    sc: (int, int),
    idx: int,
) -> bool {
    let c = cell_of_idx(g, idx);
    let sidx = idx_of_cell(g, sc);
    &&& g.traversable(c.0, c.1)
    &&& dm.contains_key(idx)
    &&& reaches_in(g, sc, c, dm[idx])
    &&& (pv[idx] as int) < pv.len()
    &&& (idx == sidx <==> dm[idx] == 0)
    &&& (idx != sidx ==> {
        let pidx = pv[idx] as int;
        &&& pv[pidx] != usize::MAX
        &&& adjacent(cell_of_idx(g, pidx), c)
        &&& dm.contains_key(pidx)
        &&& dm[pidx] + 1 == dm[idx]
    })
}

/// The breadth-first search state invariant: `pv` is the row-major
/// predecessor array (sentinel `usize::MAX` = undiscovered), `qv` the
/// discovery queue, `head` how many queue entries are fully expanded,
/// `dm` the ghost discovery depths and `sc` the source cell.
pub open spec fn bfs_inv(
    g: Grid,
    pv: Seq<usize>,
    qv: Seq<usize>,
    head: int,
    dm: Map<int, nat>,
    sc: (int, int),
) -> bool {
    let n = (g.width * g.height) as int;
    let sidx = idx_of_cell(g, sc);
    &&& pv.len() == n
    &&& qv.len() <= n
    &&& 0 <= head <= qv.len()
    &&& g.in_bounds(sc.0, sc.1)
    &&& g.traversable(sc.0, sc.1)
    &&& pv[sidx] != usize::MAX
    &&& forall|k: int|
        0 <= k < qv.len() ==> ((#[trigger] qv[k]) as int) < n && pv[qv[k] as int] != usize::MAX
    &&& forall|k1: int, k2: int| 0 <= k1 < k2 < qv.len() ==> qv[k1] != qv[k2]
    &&& forall|idx: int|
        0 <= idx < n && (#[trigger] pv[idx]) != usize::MAX ==> exists|k: int|
            0 <= k < qv.len() && (#[trigger] qv[k]) as int == idx
    &&& forall|idx: int|
        0 <= idx < n && pv[idx] != usize::MAX ==> #[trigger] bfs_node_ok(g, pv, dm, sc, idx)
    &&& forall|k: int|
        0 <= k < head ==> #[trigger] nbrs_done(
            g,
            pv,
            dm,
            cell_of_idx(g, qv[k] as int),
            dm[qv[k] as int] as int,
        )
    &&& forall|k1: int, k2: int|
        #![trigger qv[k1], qv[k2]]
        0 <= k1 <= k2 < qv.len() ==> dm[qv[k1] as int] <= dm[qv[k2] as int]
    &&& (head < qv.len() ==> forall|k: int|
        head <= k < qv.len() ==> dm[(#[trigger] qv[k]) as int] <= dm[qv[head] as int] + 1)
    &&& (head < qv.len() ==> level_done(g, pv, dm, sc, dm[qv[head] as int] as int))
}

/// Expand one edge of the search: discover the in-bounds neighbour
/// (ni, nj) of the queue entry `cur` if it is traversable and new.
#[verifier::rlimit(100)]
#[verifier::spinoff_prover]
fn bfs_visit(
    g: &Grid,
    prev: &mut Vec<usize>,
    queue: &mut Vec<usize>,
    head: usize,
    cur: usize,
    ni: usize,
    nj: usize,
    dm: Ghost<Map<int, nat>>,
    sc: Ghost<(int, int)>,
) -> (dm2: Ghost<Map<int, nat>>)
    requires
        g.wf(),
        bfs_inv(*g, old(prev)@, old(queue)@, head as int, dm@, sc@),
        (head as int) < old(queue)@.len(),
        old(queue)@[head as int] == cur,
        old(prev)@[cur as int] != usize::MAX,
        g.in_bounds(ni as int, nj as int),
        adjacent(cell_of_idx(*g, cur as int), (ni as int, nj as int)),
    ensures
        bfs_inv(*g, final(prev)@, final(queue)@, head as int, dm2@, sc@),
        final(prev)@.len() == old(prev)@.len(),
        old(queue)@.len() <= final(queue)@.len(),
        forall|k: int| 0 <= k < old(queue)@.len() ==> final(queue)@[k] == old(queue)@[k],
        forall|idx: int|
            0 <= idx < old(prev)@.len() && (#[trigger] old(prev)@[idx]) != usize::MAX
                ==> final(prev)@[idx] == old(prev)@[idx],
        forall|idx: int|
            0 <= idx < old(prev)@.len() && (#[trigger] old(prev)@[idx]) != usize::MAX
                && dm@.contains_key(idx) ==> dm2@.contains_key(idx) && dm2@[idx] == dm@[idx],
        g.traversable(ni as int, nj as int) ==> marked_at(*g, final(prev)@, (ni as int, nj as int))
            && dm2@[idx_of_cell(*g, (ni as int, nj as int))] <= dm@[cur as int] + 1,
{
    proof {
        lemma_cell_idx_bijective(*g, (ni as int, nj as int));
        assert((nj as int) * (g.width as int) + (ni as int) < 1_000_000 && (g.width as int) * (
        g.height as int) <= 1_000_000) by (nonlinear_arith)
            requires
                0 <= (ni as int) < (g.width as int) <= 1000,
                0 <= (nj as int) < (g.height as int) <= 1000,
        ;
    }
    let w = g.width;
    let nidx = nj * w + ni;
    let ghost nc: (int, int) = (ni as int, nj as int);
    let ghost n = (g.width * g.height) as int;
    let ghost sidx = idx_of_cell(*g, sc@);
    if prev[nidx] != usize::MAX {
        proof {
            // an already-discovered neighbour sits in the queue, so the
            // depth ordering bounds its depth by the frontier's plus one
            let qv = queue@;
            let kn = choose|kn: int|
                0 <= kn < qv.len() && (#[trigger] qv[kn]) as int == nidx as int;
            if kn <= head as int {
                assert(dm@[qv[kn] as int] <= dm@[qv[head as int] as int]);
            } else {
                assert(dm@[qv[kn] as int] <= dm@[qv[head as int] as int] + 1);
            }
        }
        return dm;
    }
    if g.cell_at(ni, nj) == Cell::Wall {
        return dm;
    }
    let ghost pv0 = prev@;
    let ghost qv0 = queue@;
    prev.set(nidx, cur);
    queue.push(nidx);
    let ghost dmn = dm@.insert(nidx as int, (dm@[cur as int] + 1) as nat);
    proof {
        assert(mark_frame(*g, pv0, qv0, prev@, queue@, dm@, dmn, sc@, cur, nidx, nc));
        lemma_bfs_mark(*g, pv0, qv0, prev@, queue@, head as int, dm@, dmn, sc@, cur, nidx, nc);
    }
    Ghost(dmn)
}

/// The shared frame of the marking lemmas: one fresh traversable cell
/// `nc` (flat index `nidx`) becomes marked with predecessor `cur` and
/// depth one past `cur`'s.
pub open spec fn mark_frame(
    g: Grid,
    pv0: Seq<usize>,
    qv0: Seq<usize>,
    pv: Seq<usize>,
    qv: Seq<usize>,
    dm0: Map<int, nat>,
    dmn: Map<int, nat>,
    sc: (int, int),
    cur: usize,
    nidx: usize,
    nc: (int, int),
) -> bool {
    &&& g.wf()
    &&& (cur as int) < g.width * g.height
    &&& pv0[cur as int] != usize::MAX
    &&& g.in_bounds(nc.0, nc.1)
    &&& g.traversable(nc.0, nc.1)
    &&& nidx as int == idx_of_cell(g, nc)
    &&& cell_of_idx(g, nidx as int) == nc
    &&& adjacent(cell_of_idx(g, cur as int), nc)
    &&& pv0[nidx as int] == usize::MAX
    &&& pv == pv0.update(nidx as int, cur)
    &&& qv == qv0.push(nidx)
    &&& dmn == dm0.insert(nidx as int, (dm0[cur as int] + 1) as nat)
}

/// After marking, every discovered node is still sound.
#[verifier::spinoff_prover]
proof fn lemma_mark_nodes_ok(
    g: Grid,
    pv0: Seq<usize>,
    qv0: Seq<usize>,
    pv: Seq<usize>,
    qv: Seq<usize>,
    head: int,
    dm0: Map<int, nat>,
    dmn: Map<int, nat>,
    sc: (int, int),
    cur: usize,
    nidx: usize,
    nc: (int, int),
)
    requires
        bfs_inv(g, pv0, qv0, head, dm0, sc),
        mark_frame(g, pv0, qv0, pv, qv, dm0, dmn, sc, cur, nidx, nc),
    ensures
        forall|idx: int|
            0 <= idx < (g.width * g.height) as int && pv[idx] != usize::MAX
                ==> #[trigger] bfs_node_ok(g, pv, dmn, sc, idx),
{
    let n = (g.width * g.height) as int;
    let sidx = idx_of_cell(g, sc);
    let cc = cell_of_idx(g, cur as int);
    lemma_cell_idx_bijective(g, nc);
    assert(bfs_node_ok(g, pv0, dm0, sc, cur as int));
    assert(reachable(g, sc, cc));
    let k0 = choose|k0: nat| reaches_in(g, sc, cc, k0);
    lemma_reaches_step(g, sc, cc, nc, k0);
    assert(reaches_in(g, sc, nc, k0 + 1));
    assert(reachable(g, sc, nc));
    assert(cur != nidx);
    assert(sidx != nidx as int);
    assert forall|idx: int|
        0 <= idx < n && pv[idx] != usize::MAX implies #[trigger] bfs_node_ok(
        g,
        pv,
        dmn,
        sc,
        idx,
    ) by {
        if idx == nidx as int {
            assert(dmn[idx] == dm0[cur as int] + 1);
            assert(dmn.contains_key(cur as int) && dmn[cur as int] == dm0[cur as int]);
            assert(pv[pv[idx] as int] != usize::MAX);
            assert(cell_of_idx(g, idx) == nc);
            assert(adjacent(cell_of_idx(g, cur as int), nc));
        } else {
            assert(pv0[idx] != usize::MAX);
            assert(bfs_node_ok(g, pv0, dm0, sc, idx));
            let pidx = pv0[idx] as int;
            if idx != sidx {
                assert(pv0[pidx] != usize::MAX);
                assert(pidx != nidx as int);
                assert(pv[pidx] == pv0[pidx]);
                assert(dmn.contains_key(pidx) && dmn[pidx] == dm0[pidx]);
            }
            assert(dmn.contains_key(idx) && dmn[idx] == dm0[idx]);
        }
    }
}

/// After marking, the queue is still distinct and mirrors the marks.
#[verifier::spinoff_prover]
proof fn lemma_mark_queue_ok(
    g: Grid,
    pv0: Seq<usize>,
    qv0: Seq<usize>,
    pv: Seq<usize>,
    qv: Seq<usize>,
    head: int,
    dm0: Map<int, nat>,
    dmn: Map<int, nat>,
    sc: (int, int),
    cur: usize,
    nidx: usize,
    nc: (int, int),
)
    requires
        bfs_inv(g, pv0, qv0, head, dm0, sc),
        mark_frame(g, pv0, qv0, pv, qv, dm0, dmn, sc, cur, nidx, nc),
    ensures
        forall|k1: int, k2: int| 0 <= k1 < k2 < qv.len() ==> qv[k1] != qv[k2],
        forall|idx: int|
            0 <= idx < (g.width * g.height) as int && (#[trigger] pv[idx]) != usize::MAX
                ==> exists|k: int| 0 <= k < qv.len() && (#[trigger] qv[k]) as int == idx,
        forall|k: int|
            0 <= k < qv.len() ==> ((#[trigger] qv[k]) as int) < (g.width * g.height) as int
                && pv[qv[k] as int] != usize::MAX,
        qv.len() <= (g.width * g.height) as int,
{
    let n = (g.width * g.height) as int;
    lemma_cell_idx_bijective(g, nc);
    assert((g.width as int) * (g.height as int) <= 1_000_000) by (nonlinear_arith)
        requires
            g.width <= 1000,
            g.height <= 1000,
    ;
    assert((cur as int) < 1_000_000);
    assert(cur != usize::MAX);
    assert(cur != nidx);
    assert forall|k1: int, k2: int| 0 <= k1 < k2 < qv.len() implies qv[k1] != qv[k2] by {
        if k2 == qv.len() - 1 {
            assert(pv0[qv0[k1] as int] != usize::MAX);
            assert(pv0[nidx as int] == usize::MAX);
        }
    }
    assert forall|idx: int|
        0 <= idx < n && (#[trigger] pv[idx]) != usize::MAX implies exists|k: int|
        0 <= k < qv.len() && (#[trigger] qv[k]) as int == idx by {
        if idx == nidx as int {
            assert(qv[qv.len() - 1] as int == idx);
        } else {
            assert(pv0[idx] != usize::MAX);
            let k = choose|k: int| 0 <= k < qv0.len() && (#[trigger] qv0[k]) as int == idx;
            assert(qv[k] as int == idx);
        }
    }
    assert forall|k: int| 0 <= k < qv.len() implies ((#[trigger] qv[k]) as int) < n && pv[qv[k]
        as int] != usize::MAX by {
        if k < qv.len() - 1 {
            assert(qv[k] == qv0[k]);
            assert(pv0[qv0[k] as int] != usize::MAX);
            assert(qv0[k] as int != nidx as int);
        } else {
            assert(qv[k] == nidx);
            assert(pv[nidx as int] == cur);
        }
    }
    lemma_distinct_bounded_len(qv, n);
}

/// After marking, the depth-bounded closure of the expanded queue
/// entries still holds.
#[verifier::spinoff_prover]
proof fn lemma_mark_closure_ok(
    g: Grid,
    pv0: Seq<usize>,
    qv0: Seq<usize>,
    pv: Seq<usize>,
    qv: Seq<usize>,
    head: int,
    dm0: Map<int, nat>,
    dmn: Map<int, nat>,
    sc: (int, int),
    cur: usize,
    nidx: usize,
    nc: (int, int),
)
    requires
        bfs_inv(g, pv0, qv0, head, dm0, sc),
        mark_frame(g, pv0, qv0, pv, qv, dm0, dmn, sc, cur, nidx, nc),
    ensures
        forall|k: int|
            0 <= k < head ==> #[trigger] nbrs_done(
                g,
                pv,
                dmn,
                cell_of_idx(g, qv[k] as int),
                dmn[qv[k] as int] as int,
            ),
{
    let n = (g.width * g.height) as int;
    lemma_cell_idx_bijective(g, nc);
    assert((g.width as int) * (g.height as int) <= 1_000_000) by (nonlinear_arith)
        requires
            g.width <= 1000,
            g.height <= 1000,
    ;
    assert((cur as int) < 1_000_000);
    assert forall|k: int| 0 <= k < head implies #[trigger] nbrs_done(
        g,
        pv,
        dmn,
        cell_of_idx(g, qv[k] as int),
        dmn[qv[k] as int] as int,
    ) by {
        assert(nbrs_done(g, pv0, dm0, cell_of_idx(g, qv0[k] as int), dm0[qv0[k] as int] as int));
        assert(qv[k] == qv0[k]);
        assert(qv0[k] as int != nidx as int);
        assert(dmn[qv0[k] as int] == dm0[qv0[k] as int]);
        let c = cell_of_idx(g, qv0[k] as int);
        if g.traversable(c.0 + 1, c.1) {
            lemma_cell_idx_bijective(g, (c.0 + 1, c.1));
            assert(pv0[idx_of_cell(g, (c.0 + 1, c.1))] != usize::MAX);
            assert(pv[idx_of_cell(g, (c.0 + 1, c.1))] != usize::MAX);
            assert(idx_of_cell(g, (c.0 + 1, c.1)) != nidx as int);
            assert(dmn[idx_of_cell(g, (c.0 + 1, c.1))] == dm0[idx_of_cell(g, (c.0 + 1, c.1))]);
        }
        if g.traversable(c.0 - 1, c.1) {
            lemma_cell_idx_bijective(g, (c.0 - 1, c.1));
            assert(pv0[idx_of_cell(g, (c.0 - 1, c.1))] != usize::MAX);
            assert(pv[idx_of_cell(g, (c.0 - 1, c.1))] != usize::MAX);
            assert(idx_of_cell(g, (c.0 - 1, c.1)) != nidx as int);
            assert(dmn[idx_of_cell(g, (c.0 - 1, c.1))] == dm0[idx_of_cell(g, (c.0 - 1, c.1))]);
        }
        if g.traversable(c.0, c.1 + 1) {
            lemma_cell_idx_bijective(g, (c.0, c.1 + 1));
            assert(pv0[idx_of_cell(g, (c.0, c.1 + 1))] != usize::MAX);
            assert(pv[idx_of_cell(g, (c.0, c.1 + 1))] != usize::MAX);
            assert(idx_of_cell(g, (c.0, c.1 + 1)) != nidx as int);
            assert(dmn[idx_of_cell(g, (c.0, c.1 + 1))] == dm0[idx_of_cell(g, (c.0, c.1 + 1))]);
        }
        if g.traversable(c.0, c.1 - 1) {
            lemma_cell_idx_bijective(g, (c.0, c.1 - 1));
            assert(pv0[idx_of_cell(g, (c.0, c.1 - 1))] != usize::MAX);
            assert(pv[idx_of_cell(g, (c.0, c.1 - 1))] != usize::MAX);
            assert(idx_of_cell(g, (c.0, c.1 - 1)) != nidx as int);
            assert(dmn[idx_of_cell(g, (c.0, c.1 - 1))] == dm0[idx_of_cell(g, (c.0, c.1 - 1))]);
        }
    }
}

/// After marking at the frontier, the queue depths stay sorted, the
/// pending band stays within one of the frontier depth, and level
/// completeness is untouched.
#[verifier::spinoff_prover]
proof fn lemma_mark_order_ok(
    g: Grid,
    pv0: Seq<usize>,
    qv0: Seq<usize>,
    pv: Seq<usize>,
    qv: Seq<usize>,
    head: int,
    dm0: Map<int, nat>,
    dmn: Map<int, nat>,
    sc: (int, int),
    cur: usize,
    nidx: usize,
    nc: (int, int),
)
    requires
        bfs_inv(g, pv0, qv0, head, dm0, sc),
        mark_frame(g, pv0, qv0, pv, qv, dm0, dmn, sc, cur, nidx, nc),
        0 <= head < qv0.len(),
        qv0[head] == cur,
    ensures
        forall|k1: int, k2: int|
            #![trigger qv[k1], qv[k2]]
            0 <= k1 <= k2 < qv.len() ==> dmn[qv[k1] as int] <= dmn[qv[k2] as int],
        head < qv.len() ==> forall|k: int|
            head <= k < qv.len() ==> dmn[(#[trigger] qv[k]) as int] <= dmn[qv[head] as int] + 1,
        head < qv.len() ==> level_done(g, pv, dmn, sc, dmn[qv[head] as int] as int),
{
    let n = (g.width * g.height) as int;
    lemma_cell_idx_bijective(g, nc);
    // old queue entries keep their depths; the pushed entry is one
    // past the frontier depth
    assert(forall|k: int|
        0 <= k < qv0.len() ==> qv[k] == qv0[k] && (#[trigger] qv0[k]) as int != nidx as int);
    assert(forall|k: int|
        0 <= k < qv0.len() ==> dmn[(#[trigger] qv0[k]) as int] == dm0[qv0[k] as int]);
    assert(qv[qv.len() - 1] == nidx);
    assert(dmn[nidx as int] == dm0[cur as int] + 1);
    assert forall|k1: int, k2: int|
        #![trigger qv[k1], qv[k2]]
        0 <= k1 <= k2 < qv.len() implies dmn[qv[k1] as int] <= dmn[qv[k2] as int] by {
        if k2 == qv.len() - 1 {
            if k1 < qv.len() - 1 {
                if k1 <= head {
                    assert(dm0[qv0[k1] as int] <= dm0[qv0[head] as int]);
                } else {
                    assert(dm0[qv0[k1] as int] <= dm0[qv0[head] as int] + 1);
                }
            }
        } else {
            assert(dm0[qv0[k1] as int] <= dm0[qv0[k2] as int]);
        }
    }
    assert forall|k: int| head <= k < qv.len() implies dmn[(#[trigger] qv[k]) as int]
        <= dmn[qv[head] as int] + 1 by {
        assert(qv[head] == qv0[head]);
        if k == qv.len() - 1 {
            assert(dmn[nidx as int] == dm0[cur as int] + 1);
        } else {
            assert(dm0[qv0[k] as int] <= dm0[qv0[head] as int] + 1);
        }
    }
    assert(qv[head] == qv0[head]);
    assert(dmn[qv[head] as int] == dm0[qv0[head] as int]);
    let bound = dmn[qv[head] as int] as int;
    assert(level_done(g, pv0, dm0, sc, bound));
    assert forall|c: (int, int), m: nat|
        #[trigger] reaches_in(g, sc, c, m) && m < bound implies marked_at(g, pv, c)
        && dmn[idx_of_cell(g, c)] <= m by {
        assert(marked_at(g, pv0, c) && dm0[idx_of_cell(g, c)] <= m);
        lemma_reaches_trav(g, sc, c, m);
        lemma_cell_idx_bijective(g, c);
        assert(idx_of_cell(g, c) != nidx as int);
        assert(pv[idx_of_cell(g, c)] == pv0[idx_of_cell(g, c)]);
        assert(dmn[idx_of_cell(g, c)] == dm0[idx_of_cell(g, c)]);
    }
}

/// When the frontier depth rises by one, level completeness follows
/// it: every cell within the old frontier depth of the source has a
/// discovered predecessor whose expansion discovered it in time.
#[verifier::rlimit(100)]
#[verifier::spinoff_prover]
proof fn lemma_advance_level(
    g: Grid,
    pv: Seq<usize>,
    qv: Seq<usize>,
    dm: Map<int, nat>,
    sc: (int, int),
    h: int,
    d: int,
)
    requires
        g.wf(),
        g.in_bounds(sc.0, sc.1),
        pv[idx_of_cell(g, sc)] != usize::MAX,
        dm[idx_of_cell(g, sc)] == 0,
        level_done(g, pv, dm, sc, d),
        0 <= h < qv.len(),
        dm[qv[h] as int] == d + 1,
        forall|k1: int, k2: int|
            #![trigger qv[k1], qv[k2]]
            0 <= k1 <= k2 < qv.len() ==> dm[qv[k1] as int] <= dm[qv[k2] as int],
        forall|idx: int|
            0 <= idx < (g.width * g.height) as int && (#[trigger] pv[idx]) != usize::MAX
                ==> exists|k: int| 0 <= k < qv.len() && (#[trigger] qv[k]) as int == idx,
        forall|k: int|
            0 <= k < h ==> #[trigger] nbrs_done(
                g,
                pv,
                dm,
                cell_of_idx(g, qv[k] as int),
                dm[qv[k] as int] as int,
            ),
    ensures
        level_done(g, pv, dm, sc, d + 1),
{
    let n = (g.width * g.height) as int;
    lemma_cell_idx_bijective(g, sc);
    assert forall|c: (int, int), m: nat|
        #[trigger] reaches_in(g, sc, c, m) && m < d + 1 implies marked_at(g, pv, c)
        && dm[idx_of_cell(g, c)] <= m by {
        if m < d {
            assert(marked_at(g, pv, c) && dm[idx_of_cell(g, c)] <= m);
        } else {
            // m == d
            if m == 0 {
                assert(c == sc);
            } else {
                let m1 = (m - 1) as nat;
                if reaches_in(g, sc, c, m1) {
                    assert(marked_at(g, pv, c) && dm[idx_of_cell(g, c)] <= m1);
                } else {
                    let p: (int, int) = if reaches_in(g, sc, (c.0 + 1, c.1), m1) {
                        (c.0 + 1, c.1)
                    } else if reaches_in(g, sc, (c.0 - 1, c.1), m1) {
                        (c.0 - 1, c.1)
                    } else if reaches_in(g, sc, (c.0, c.1 + 1), m1) {
                        (c.0, c.1 + 1)
                    } else {
                        (c.0, c.1 - 1)
                    };
                    assert(reaches_in(g, sc, p, m1));
                    lemma_reaches_trav(g, sc, p, m1);
                    assert(marked_at(g, pv, p) && dm[idx_of_cell(g, p)] <= m1);
                    lemma_cell_idx_bijective(g, p);
                    let pidx = idx_of_cell(g, p);
                    let kp = choose|kp: int|
                        0 <= kp < qv.len() && (#[trigger] qv[kp]) as int == pidx;
                    if kp >= h {
                        assert(dm[qv[h] as int] <= dm[qv[kp] as int]);
                        assert(false);
                    }
                    assert(nbrs_done(g, pv, dm, cell_of_idx(g, qv[kp] as int), dm[qv[kp] as int] as int));
                    assert(cell_of_idx(g, qv[kp] as int) == p);
                    assert(g.traversable(c.0, c.1));
                    if p == (c.0 + 1, c.1) {
                        assert(c == (p.0 - 1, p.1));
                    } else if p == (c.0 - 1, c.1) {
                        assert(c == (p.0 + 1, p.1));
                    } else if p == (c.0, c.1 + 1) {
                        assert(c == (p.0, p.1 - 1));
                    } else {
                        assert(c == (p.0, p.1 + 1));
                    }
                    assert(marked_at(g, pv, c));
                    assert(dm[idx_of_cell(g, c)] <= dm[pidx] + 1);
                }
            }
        }
    }
}

/// Marking one newly discovered traversable cell, with its
/// predecessor and depth recorded, restores the search invariant.
#[verifier::spinoff_prover]
proof fn lemma_bfs_mark(
    g: Grid,
    pv0: Seq<usize>,
    qv0: Seq<usize>,
    pv: Seq<usize>,
    qv: Seq<usize>,
    head: int,
    dm0: Map<int, nat>,
    dmn: Map<int, nat>,
    sc: (int, int),
    cur: usize,
    nidx: usize,
    nc: (int, int),
)
    requires
        bfs_inv(g, pv0, qv0, head, dm0, sc),
        mark_frame(g, pv0, qv0, pv, qv, dm0, dmn, sc, cur, nidx, nc),
        0 <= head < qv0.len(),
        qv0[head] == cur,
    ensures
        bfs_inv(g, pv, qv, head, dmn, sc),
{
    let n = (g.width * g.height) as int;
    let sidx = idx_of_cell(g, sc);
    lemma_cell_idx_bijective(g, nc);
    lemma_cell_idx_bijective(g, sc);
    assert(sidx != nidx as int);
    assert(pv[sidx] == pv0[sidx]);
    lemma_mark_nodes_ok(g, pv0, qv0, pv, qv, head, dm0, dmn, sc, cur, nidx, nc);
    lemma_mark_queue_ok(g, pv0, qv0, pv, qv, head, dm0, dmn, sc, cur, nidx, nc);
    lemma_mark_closure_ok(g, pv0, qv0, pv, qv, head, dm0, dmn, sc, cur, nidx, nc);
    lemma_mark_order_ok(g, pv0, qv0, pv, qv, head, dm0, dmn, sc, cur, nidx, nc);
}

/// Advancing the queue head past a fully expanded entry keeps the
/// search invariant: the closure now covers the expanded entry, the
/// pending band follows the frontier, and level completeness extends
/// when the frontier deepens.
#[verifier::rlimit(100)]
#[verifier::spinoff_prover]
proof fn lemma_head_advance(
    g: Grid,
    pv: Seq<usize>,
    qv: Seq<usize>,
    dm: Map<int, nat>,
    sc: (int, int),
    h0: int,
    cur: usize,
)
    requires
        g.wf(),
        bfs_inv(g, pv, qv, h0, dm, sc),
        0 <= h0 < qv.len(),
        qv[h0] == cur,
        nbrs_done(g, pv, dm, cell_of_idx(g, cur as int), dm[cur as int] as int),
    ensures
        bfs_inv(g, pv, qv, h0 + 1, dm, sc),
{
    let hd = h0 + 1;
    let d = dm[cur as int] as int;
    assert forall|k: int| 0 <= k < hd implies #[trigger] nbrs_done(
        g,
        pv,
        dm,
        cell_of_idx(g, qv[k] as int),
        dm[qv[k] as int] as int,
    ) by {
        if k < h0 {
            assert(nbrs_done(g, pv, dm, cell_of_idx(g, qv[k] as int), dm[qv[k] as int] as int));
        } else {
            assert(qv[k] == cur);
        }
    }
    if hd < qv.len() {
        assert(dm[qv[hd] as int] <= d + 1);
        assert(dm[qv[h0] as int] <= dm[qv[hd] as int]);
        assert forall|k: int| hd <= k < qv.len() implies dm[(#[trigger] qv[k]) as int] <= dm[qv[hd] as int]
            + 1 by {
            assert(dm[qv[k] as int] <= dm[qv[h0] as int] + 1);
        }
        if dm[qv[hd] as int] == d + 1 {
            lemma_cell_idx_bijective(g, sc);
            assert(bfs_node_ok(g, pv, dm, sc, idx_of_cell(g, sc)));
            lemma_advance_level(g, pv, qv, dm, sc, hd, d);
        } else {
            assert(dm[qv[hd] as int] == d);
            assert(level_done(g, pv, dm, sc, dm[qv[hd] as int] as int));
        }
    }
    assert(bfs_inv(g, pv, qv, hd, dm, sc));
}

/// The grid cell of a world position with non-negative coordinates.
pub open spec fn cell_of_pos(g: Grid, x: int, y: int) -> (int, int) {
    (g.col_of(x), g.row_of(y))
}

/// Pathfinding is attempted only between world positions that both lie
/// in traversable cells of the grid.
pub open spec fn nav_endpoints_ok(g: Grid, sx: int, sy: int, tx: int, ty: int) -> bool {
    &&& 0 <= sx && 0 <= sy && 0 <= tx && 0 <= ty
    &&& g.traversable(cell_of_pos(g, sx, sy).0, cell_of_pos(g, sx, sy).1)
    &&& g.traversable(cell_of_pos(g, tx, ty).0, cell_of_pos(g, tx, ty).1)
}

/// What a returned step vector means: it points from the exact source
/// position to the center of a traversable cell from which the target
/// cell is still reachable — the source cell itself when source and
/// target share a cell, otherwise a cell adjacent to the source cell.
pub open spec fn is_step_toward(
    g: Grid,
    sx: int,
    sy: int,
    tx: int,
    ty: int,
    vx: int,
    vy: int,
) -> bool {
    let sc = cell_of_pos(g, sx, sy);
    let tc = cell_of_pos(g, tx, ty);
    exists|ci: int, cj: int|
        {
            &&& #[trigger] g.traversable(ci, cj)
            &&& reachable(g, (ci, cj), tc)
            &&& (sc == tc ==> (ci, cj) == sc)
            &&& (sc != tc ==> adjacent(sc, (ci, cj)) && on_shortest_path(g, sc, tc, (ci, cj)))
            &&& vx == g.center_x(ci) - sx
            &&& vy == g.center_y(cj) - sy
        }
}

/// Cell `c` is the next cell of a shortest path from `sc` to `tc`:
/// for the exact number of steps `dd` that `tc` needs from `sc` — no
/// fewer suffice — the cell `c` needs exactly one step fewer.
pub open spec fn on_shortest_path(g: Grid, sc: (int, int), tc: (int, int), c: (int, int)) -> bool {
    exists|dd: nat|
        {
            &&& dd >= 1
            &&& #[trigger] reaches_in(g, sc, tc, dd)
            &&& !reaches_in(g, sc, tc, (dd - 1) as nat)
            &&& reaches_in(g, c, tc, (dd - 1) as nat)
            &&& (dd >= 2 ==> !reaches_in(g, c, tc, (dd - 2) as nat))
        }
}

/// Breadth-first search from the cell of (sx, sy) toward the cell of
/// (tx, ty).  Returns the vector from the exact source position to the
/// center of the first cell along a path found, or nothing when either
/// endpoint is out of bounds or in a wall, or no path exists.
#[verifier::rlimit(100)]
#[verifier::spinoff_prover]
pub fn next_step_towards(g: &Grid, sx: i64, sy: i64, tx: i64, ty: i64) -> (r: Option<(i64, i64)>)
    requires
        g.wf(),
        -1_000_000_000 <= sx <= 1_000_000_000,
        -1_000_000_000 <= sy <= 1_000_000_000,
        -1_000_000_000 <= tx <= 1_000_000_000,
        -1_000_000_000 <= ty <= 1_000_000_000,
    ensures
        r is Some <==> (nav_endpoints_ok(*g, sx as int, sy as int, tx as int, ty as int)
            && reachable(
            *g,
            cell_of_pos(*g, sx as int, sy as int),
            cell_of_pos(*g, tx as int, ty as int),
        )),
        r matches Some(v) ==> is_step_toward(
            *g,
            sx as int,
            sy as int,
            tx as int,
            ty as int,
            v.0 as int,
            v.1 as int,
        ),
{
    if sx < 0 || sy < 0 || tx < 0 || ty < 0 {
        return None;
    }
    let span: i64 = g.block * 1000;
    let si64: i64 = sx / span;
    let sj64: i64 = sy / span;
    let ti64: i64 = tx / span;
    let tj64: i64 = ty / span;
    proof {
        vstd::arithmetic::div_mod::lemma_div_pos_is_pos(sx as int, span as int);
        vstd::arithmetic::div_mod::lemma_div_pos_is_pos(sy as int, span as int);
        vstd::arithmetic::div_mod::lemma_div_pos_is_pos(tx as int, span as int);
        vstd::arithmetic::div_mod::lemma_div_pos_is_pos(ty as int, span as int);
    }
    if si64 >= g.width as i64 || sj64 >= g.height as i64 || ti64 >= g.width as i64 || tj64
        >= g.height as i64 {
        return None;
    }
    let si = si64 as usize;
    let sj = sj64 as usize;
    let ti = ti64 as usize;
    let tj = tj64 as usize;
    if g.cell_at(si, sj) == Cell::Wall {
        return None;
    }
    if g.cell_at(ti, tj) == Cell::Wall {
        return None;
    }
    let ghost sc: (int, int) = (si as int, sj as int);
    let ghost tc: (int, int) = (ti as int, tj as int);
    let w = g.width;
    let h = g.height;
    proof {
        assert((w as int) * (h as int) <= 1_000_000) by (nonlinear_arith)
            requires
                w <= 1000,
                h <= 1000,
        ;
        lemma_cell_idx_bijective(*g, sc);
        lemma_cell_idx_bijective(*g, tc);
    }
    let n: usize = w * h;
    let sidx: usize = sj * w + si;
    let gidx: usize = tj * w + ti;
    let mut prev: Vec<usize> = Vec::new();
    while prev.len() < n
        invariant
            prev@.len() <= n,
            forall|k: int| 0 <= k < prev@.len() ==> (#[trigger] prev@[k]) == usize::MAX,
        decreases n - prev.len(),
    {
        prev.push(usize::MAX);
    }
    prev.set(sidx, sidx);
    let mut queue: Vec<usize> = Vec::new();
    queue.push(sidx);
    let mut head: usize = 0;
    let mut dmg: Ghost<Map<int, nat>> = Ghost(Map::empty().insert(sidx as int, 0nat));
    proof {
        assert(reaches_in(*g, sc, sc, 0));
        assert(reachable(*g, sc, sc));
        assert(cell_of_idx(*g, sidx as int) == sc);
        assert forall|idx: int|
            0 <= idx < n && prev@[idx] != usize::MAX implies #[trigger] bfs_node_ok(
            *g,
            prev@,
            dmg@,
            sc,
            idx,
        ) by {
            assert(idx == sidx as int);
        }
        assert forall|idx: int|
            0 <= idx < n && (#[trigger] prev@[idx]) != usize::MAX implies exists|k: int|
            0 <= k < queue@.len() && (#[trigger] queue@[k]) as int == idx by {
            assert(queue@[0] as int == idx);
        }
        assert(bfs_inv(*g, prev@, queue@, head as int, dmg@, sc));
    }
    while head < queue.len()
        invariant
            g.wf(),
            w == g.width,
            h == g.height,
            n == (g.width * g.height) as int,
            sidx as int == idx_of_cell(*g, sc),
            gidx as int == idx_of_cell(*g, tc),
            (sidx as int) < n,
            (gidx as int) < n,
            sc == (si as int, sj as int),
            tc == (ti as int, tj as int),
            cell_of_idx(*g, sidx as int) == sc,
            cell_of_idx(*g, gidx as int) == tc,
            g.traversable(tc.0, tc.1),
            forall|k: int| 0 <= k < head ==> (#[trigger] queue@[k]) != gidx,
            bfs_inv(*g, prev@, queue@, head as int, dmg@, sc),
        ensures
            bfs_inv(*g, prev@, queue@, head as int, dmg@, sc),
            (prev@[gidx as int] != usize::MAX && (head as int) < queue@.len() && queue@[head as int]
                == gidx) || (head == queue@.len() && prev@[gidx as int] == usize::MAX),
        decreases n - head,
    {
        let cur = queue[head];
        if cur == gidx {
            break ;
        }
        proof {
            lemma_idx_cell_bijective(*g, cur as int);
        }
        let ci = cur % w;
        let cj = cur / w;
        let ghost cc = cell_of_idx(*g, cur as int);
        let ghost dm0i = dmg@;
        let ghost d = dmg@[cur as int];
        let ghost pv_a = prev@;
        proof {
            assert(bfs_node_ok(*g, prev@, dmg@, sc, cur as int));
        }
        if ci + 1 < w {
            dmg = bfs_visit(g, &mut prev, &mut queue, head, cur, ci + 1, cj, dmg, Ghost(sc));
        }
        let ghost pv_b = prev@;
        proof {
            assert(bfs_node_ok(*g, prev@, dmg@, sc, cur as int));
        }
        if ci > 0 {
            dmg = bfs_visit(g, &mut prev, &mut queue, head, cur, ci - 1, cj, dmg, Ghost(sc));
        }
        let ghost pv_c = prev@;
        proof {
            assert(bfs_node_ok(*g, prev@, dmg@, sc, cur as int));
        }
        if cj + 1 < h {
            dmg = bfs_visit(g, &mut prev, &mut queue, head, cur, ci, cj + 1, dmg, Ghost(sc));
        }
        let ghost pv_d = prev@;
        proof {
            assert(bfs_node_ok(*g, prev@, dmg@, sc, cur as int));
        }
        if cj > 0 {
            dmg = bfs_visit(g, &mut prev, &mut queue, head, cur, ci, cj - 1, dmg, Ghost(sc));
        }
        proof {
            // the expanded cell keeps its depth, and each traversable
            // neighbour is now marked at most one level deeper
            assert(dmg@[cur as int] == d);
            assert(queue@[head as int] == cur);
            assert(nbrs_done(*g, prev@, dmg@, cc, d as int)) by {
                if g.traversable(cc.0 + 1, cc.1) {
                    lemma_cell_idx_bijective(*g, (cc.0 + 1, cc.1));
                    assert(marked_at(*g, pv_b, (cc.0 + 1, cc.1)));
                    assert(marked_at(*g, prev@, (cc.0 + 1, cc.1)));
                }
                if g.traversable(cc.0 - 1, cc.1) {
                    lemma_cell_idx_bijective(*g, (cc.0 - 1, cc.1));
                    assert(marked_at(*g, pv_c, (cc.0 - 1, cc.1)));
                    assert(marked_at(*g, prev@, (cc.0 - 1, cc.1)));
                }
                if g.traversable(cc.0, cc.1 + 1) {
                    lemma_cell_idx_bijective(*g, (cc.0, cc.1 + 1));
                    assert(marked_at(*g, pv_d, (cc.0, cc.1 + 1)));
                    assert(marked_at(*g, prev@, (cc.0, cc.1 + 1)));
                }
                if g.traversable(cc.0, cc.1 - 1) {
                    lemma_cell_idx_bijective(*g, (cc.0, cc.1 - 1));
                    assert(marked_at(*g, prev@, (cc.0, cc.1 - 1)));
                }
            }
        }
        head = head + 1;
        proof {
            lemma_head_advance(*g, prev@, queue@, dmg@, sc, head as int - 1, cur);
        }
    }
    if prev[gidx] == usize::MAX {
        proof {
            if reachable(*g, sc, tc) {
                assert forall|a: (int, int)|
                    g.in_bounds(a.0, a.1) && g.traversable(a.0, a.1) && #[trigger] marked_at(
                        *g,
                        prev@,
                        a,
                    ) implies nbrs_marked(*g, prev@, a) by {
                    lemma_cell_idx_bijective(*g, a);
                    let idx = idx_of_cell(*g, a);
                    let k = choose|k: int|
                        0 <= k < queue@.len() && (#[trigger] queue@[k]) as int == idx;
                    assert(nbrs_done(
                        *g,
                        prev@,
                        dmg@,
                        cell_of_idx(*g, queue@[k] as int),
                        dmg@[queue@[k] as int] as int,
                    ));
                }
                let nn = choose|nn: nat| reaches_in(*g, sc, tc, nn);
                lemma_bfs_complete(*g, prev@, sc, tc, nn);
                assert(false);
            }
        }
        return None;
    }
    let mut cur: usize = gidx;
    let mut stepc: usize = gidx;
    proof {
        assert(bfs_node_ok(*g, prev@, dmg@, sc, gidx as int));
        assert(reaches_in(*g, tc, tc, 0));
        assert(reachable(*g, tc, tc));
    }
    while cur != sidx
        invariant
            g.wf(),
            n == (g.width * g.height) as int,
            sidx as int == idx_of_cell(*g, sc),
            gidx as int == idx_of_cell(*g, tc),
            (sidx as int) < n,
            (gidx as int) < n,
            cell_of_idx(*g, sidx as int) == sc,
            cell_of_idx(*g, gidx as int) == tc,
            (cur as int) < n,
            (stepc as int) < n,
            prev@.len() == n,
            prev@[cur as int] != usize::MAX,
            prev@[stepc as int] != usize::MAX,
            forall|idx: int|
                0 <= idx < n && prev@[idx] != usize::MAX ==> #[trigger] bfs_node_ok(
                    *g,
                    prev@,
                    dmg@,
                    sc,
                    idx,
                ),
            dmg@[gidx as int] >= dmg@[cur as int],
            dmg@[gidx as int] >= dmg@[stepc as int],
            reaches_in(
                *g,
                cell_of_idx(*g, cur as int),
                tc,
                (dmg@[gidx as int] - dmg@[cur as int]) as nat,
            ),
            g.traversable(cell_of_idx(*g, stepc as int).0, cell_of_idx(*g, stepc as int).1),
            reaches_in(
                *g,
                cell_of_idx(*g, stepc as int),
                tc,
                (dmg@[gidx as int] - dmg@[stepc as int]) as nat,
            ),
            (cur == gidx && stepc == gidx) || (prev@[stepc as int] == cur && adjacent(
                cell_of_idx(*g, cur as int),
                cell_of_idx(*g, stepc as int),
            ) && dmg@[stepc as int] == dmg@[cur as int] + 1),
            sidx == gidx ==> (cur == gidx && stepc == gidx),
        decreases dmg@[cur as int],
    {
        proof {
            assert(bfs_node_ok(*g, prev@, dmg@, sc, cur as int));
        }
        stepc = cur;
        cur = prev[cur];
        proof {
            assert(bfs_node_ok(*g, prev@, dmg@, sc, stepc as int));
            assert(prev@[cur as int] != usize::MAX);
            assert(bfs_node_ok(*g, prev@, dmg@, sc, cur as int));
            let curc = cell_of_idx(*g, cur as int);
            let stc = cell_of_idx(*g, stepc as int);
            assert(dmg@[stepc as int] == dmg@[cur as int] + 1);
            assert(reaches_in(*g, curc, curc, 0));
            lemma_reaches_step(*g, curc, curc, stc, 0);
            let m = (dmg@[gidx as int] - dmg@[stepc as int]) as nat;
            lemma_reaches_concat(*g, curc, stc, tc, 1, m);
            assert(1 + m == (dmg@[gidx as int] - dmg@[cur as int]) as nat);
            assert(reaches_in(*g, curc, tc, (dmg@[gidx as int] - dmg@[cur as int]) as nat));
        }
    }
    let ri = stepc % w;
    let rj = stepc / w;
    proof {
        lemma_idx_cell_bijective(*g, stepc as int);
        assert((ri as int) * (span as int) <= 999_000_000 && (rj as int) * (span as int)
            <= 999_000_000) by (nonlinear_arith)
            requires
                0 <= (ri as int) <= 999,
                0 <= (rj as int) <= 999,
                0 < (span as int) <= 1_000_000,
        ;
    }
    let cxv: i64 = (ri as i64) * span + g.block * 500;
    let cyv: i64 = (rj as i64) * span + g.block * 500;
    let vx = cxv - sx;
    let vy = cyv - sy;
    proof {
        let stc = cell_of_idx(*g, stepc as int);
        if gidx == sidx {
            assert(sc == tc);
            assert(stepc == gidx);
        } else {
            if sc == tc {
                lemma_cell_idx_bijective(*g, sc);
                assert(false);
            }
            assert(prev@[stepc as int] == cur && cur == sidx);
            assert(adjacent(cell_of_idx(*g, sidx as int), stc));
        }
        assert(cxv as int == g.center_x(stc.0) && cyv as int == g.center_y(stc.1));
        assert(bfs_node_ok(*g, prev@, dmg@, sc, gidx as int));
        assert(bfs_node_ok(*g, prev@, dmg@, sc, sidx as int));
        assert(bfs_node_ok(*g, prev@, dmg@, sc, stepc as int));
        let dd = dmg@[gidx as int];
        // the found depth is the exact distance: any shorter chain to
        // the target would have been discovered at a smaller depth
        assert(reaches_in(*g, sc, tc, dd));
        assert forall|m: nat| m < dd implies !reaches_in(*g, sc, tc, m) by {
            if reaches_in(*g, sc, tc, m) {
                assert(marked_at(*g, prev@, tc) && dmg@[idx_of_cell(*g, tc)] <= m);
                assert(false);
            }
        }
        if sc != tc {
            assert(dd >= 1);
            assert(dmg@[stepc as int] == 1);
            assert(reaches_in(*g, stc, tc, (dd - 1) as nat));
            if dd >= 2 && reaches_in(*g, stc, tc, (dd - 2) as nat) {
                // composing with the one step from the source would
                // beat the exact distance
                assert(reaches_in(*g, sc, sc, 0));
                lemma_reaches_step(*g, sc, sc, stc, 0);
                lemma_reaches_concat(*g, sc, stc, tc, 1, (dd - 2) as nat);
                assert(reaches_in(*g, sc, tc, (dd - 1) as nat));
                assert(false);
            }
            assert(on_shortest_path(*g, sc, tc, stc));
        }
        assert(reachable(*g, stc, tc));
        assert(g.traversable(stc.0, stc.1) && reachable(*g, stc, tc) && (sc == tc ==> stc == sc)
            && (sc != tc ==> adjacent(sc, stc) && on_shortest_path(*g, sc, tc, stc)) && vx as int
            == g.center_x(stc.0) - sx && vy as int == g.center_y(stc.1) - sy);
        assert(is_step_toward(*g, sx as int, sy as int, tx as int, ty as int, vx as int, vy as int));
    }
    Some((vx, vy))
}

} // verus!
