use vstd::prelude::*;
use vstd::set_lib::*;

use crate::error::Error;
use crate::geometry::{dist2, Edge, Vertex};

verus! {

/// The nearest tree vertex of a record that nothing has been offered to yet.
const NONE: usize = usize::MAX;

/// The cost of a record that nothing has been offered to yet: above every
/// squared distance between two points.
const INFINITY: u128 = u128::MAX;

/// The squared distance between the points at positions `a` and `b`.
pub open spec fn sq(pts: Seq<Vertex>, a: int, b: int) -> int {
    dist2(pts[a], pts[b])
}

/// Pair `(a, b)` is scanned no later than pair `(c, e)`: tree vertices in
/// index order, and for each of them the candidates in index order.
pub open spec fn pair_le(a: int, b: int, c: int, e: int) -> bool {
    a < c || (a == c && b <= e)
}

/// When `v` was admitted, the edge from `par[v]` was a lightest edge across
/// the cut between the vertices admitted before `v` and the others, and the
/// first of the lightest in scan order. Here it is stated of the pair `(a, b)`.
pub open spec fn first_lightest(
    pts: Seq<Vertex>,
    rank: Seq<int>,
    par: Seq<int>,
    v: int,
    a: int,
    b: int,
) -> bool {
    rank[a] < rank[v] <= rank[b] ==> {
        &&& sq(pts, par[v], v) <= sq(pts, a, b)
        &&& sq(pts, a, b) == sq(pts, par[v], v) ==> pair_le(par[v], v, a, b)
    }
}

/// `ord` lists the positions `0 .. n` in the order of admission, and `rank`
/// is its inverse.
pub open spec fn is_admission_order(n: int, ord: Seq<int>, rank: Seq<int>) -> bool {
    &&& ord.len() == n
    &&& rank.len() == n
    &&& forall|v: int| 0 <= v < n ==> 0 <= #[trigger] rank[v] < n && ord[rank[v]] == v
    &&& forall|k: int| 0 <= k < n ==> 0 <= #[trigger] ord[k] < n && rank[ord[k]] == k
}

/// A run of Prim's algorithm from the first point: vertex `v` joins the
/// tree through `par[v]`, which was admitted before it, along the first
/// lightest edge leaving the tree at that moment.
pub open spec fn is_prim_tree(pts: Seq<Vertex>, ord: Seq<int>, rank: Seq<int>, par: Seq<int>) -> bool {
    let n = pts.len() as int;
    &&& is_admission_order(n, ord, rank)
    &&& par.len() == n
    &&& n > 0 ==> ord[0] == 0 && par[0] == 0
    &&& forall|v: int| 0 < v < n ==> 0 <= #[trigger] par[v] < n && rank[par[v]] < rank[v]
    &&& forall|v: int, a: int, b: int|
        0 < v < n && 0 <= a < n && 0 <= b < n ==> #[trigger] first_lightest(pts, rank, par, v, a, b)
}

/// The number of edges of a spanning tree of `n` points.
pub open spec fn tree_size(n: int) -> int {
    if n == 0 {
        0
    } else {
        n - 1
    }
}

/// `edges` holds, for each point but the first in index order, the edge
/// from it to its parent `par`.
pub open spec fn lists_tree_edges(pts: Seq<Vertex>, par: Seq<int>, edges: Seq<Edge>) -> bool {
    &&& edges.len() == tree_size(pts.len() as int)
    &&& forall|k: int|
        0 <= k < edges.len() ==> (#[trigger] edges[k]).u == pts[k + 1] && edges[k].v == pts[par[k
            + 1]] && edges[k].wf()
}

/// `edges` is the tree that Prim's algorithm grows from the first point.
pub open spec fn is_prim_result(pts: Seq<Vertex>, edges: Seq<Edge>) -> bool {
    exists|ord: Seq<int>, rank: Seq<int>, par: Seq<int>|
        #[trigger] is_prim_tree(pts, ord, rank, par) && lists_tree_edges(pts, par, edges)
}

/// Two runs of Prim's algorithm on the same points admit the same vertices
/// in the same order, through the same parents, up to step `k`.
proof fn lemma_runs_agree(
    pts: Seq<Vertex>,
    ord1: Seq<int>,
    rank1: Seq<int>,
    par1: Seq<int>,
    ord2: Seq<int>,
    rank2: Seq<int>,
    par2: Seq<int>,
    k: int,
)
    requires
        is_prim_tree(pts, ord1, rank1, par1),
        is_prim_tree(pts, ord2, rank2, par2),
        0 <= k <= pts.len(),
    ensures
        forall|j: int| 0 <= j < k ==> #[trigger] ord1[j] == ord2[j],
        forall|j: int| 1 <= j < k ==> #[trigger] par1[ord1[j]] == par2[ord2[j]],
    decreases k,
{
    let n = pts.len() as int;
    if k > 0 {
        lemma_runs_agree(pts, ord1, rank1, par1, ord2, rank2, par2, k - 1);
        let m = k - 1;
        if m > 0 {
            // The trees hold the same vertices before step m.
            assert forall|v: int| 0 <= v < n implies (#[trigger] rank1[v] < m <==> rank2[v] < m) by {
                if rank1[v] < m {
                    assert(ord1[rank1[v]] == ord2[rank1[v]]);
                }
                if rank2[v] < m {
                    assert(ord1[rank2[v]] == ord2[rank2[v]]);
                }
            }
            let v1 = ord1[m];
            let v2 = ord2[m];
            let p1 = par1[v1];
            let p2 = par2[v2];
            assert(v1 != 0 && v2 != 0);
            assert(rank1[p1] < m && rank2[p2] < m);
            assert(first_lightest(pts, rank1, par1, v1, p2, v2));
            assert(first_lightest(pts, rank2, par2, v2, p1, v1));
        }
    }
}

/// Building the tree twice from the same points gives the same edges, with
/// the same lengths: the result depends on the points alone.
pub proof fn lemma_result_unique(pts: Seq<Vertex>, edges1: Seq<Edge>, edges2: Seq<Edge>)
    requires
        is_prim_result(pts, edges1),
        is_prim_result(pts, edges2),
    ensures
        edges1 == edges2,
{
    let (ord1, rank1, par1) = choose|ord: Seq<int>, rank: Seq<int>, par: Seq<int>|
        #[trigger] is_prim_tree(pts, ord, rank, par) && lists_tree_edges(pts, par, edges1);
    let (ord2, rank2, par2) = choose|ord: Seq<int>, rank: Seq<int>, par: Seq<int>|
        #[trigger] is_prim_tree(pts, ord, rank, par) && lists_tree_edges(pts, par, edges2);
    let n = pts.len() as int;
    lemma_runs_agree(pts, ord1, rank1, par1, ord2, rank2, par2, n);
    assert forall|k: int| 0 <= k < edges1.len() implies #[trigger] edges1[k] == edges2[k] by {
        let v = k + 1;
        let j = rank1[v];
        assert(ord1[j] == v);
        assert(j != 0);
        assert(ord2[j] == v);
        assert(par1[ord1[j]] == par2[ord2[j]]);
        Edge::lemma_determined(edges1[k], edges2[k]);
    }
    assert(edges1 =~= edges2);
}

/// One record per point while the tree grows.
#[derive(Clone, Copy)]
struct Item {
    /// Position of the point in the input.
    index: usize,
    /// The tree vertex that the point is joined to, or would be joined to next.
    near: usize,
    /// Squared distance to `near`.
    cost: u128,
    /// The point.
    vertex: Vertex,
    /// Whether the point has been admitted to the tree.
    in_tree: bool,
}

impl Item {
    fn new(index: usize, vertex: Vertex) -> (r: Self)
        ensures
            r.index == index,
            r.vertex == vertex,
            r.near == NONE,
            r.cost == INFINITY,
            !r.in_tree,
    {
        Item { index, near: NONE, cost: INFINITY, vertex, in_tree: false }
    }
}

/// Candidate `b` is offered a real edge to a tree vertex, at its squared length.
spec fn key_real(t: Seq<Item>, b: int) -> bool {
    &&& 0 <= t[b].near < t.len()
    &&& t[t[b].near as int].in_tree
    &&& t[b].cost == dist2(t[t[b].near as int].vertex, t[b].vertex)
}

/// Candidate `b` has not been offered anything yet.
spec fn key_fresh(t: Seq<Item>, b: int) -> bool {
    t[b].near == NONE && t[b].cost == INFINITY
}

/// The offer that candidate `b` holds is no heavier than the edge from tree
/// vertex `a`, and on a tie comes from `a` or from a tree vertex before it.
spec fn key_beats(t: Seq<Item>, b: int, a: int) -> bool {
    &&& t[b].cost <= dist2(t[a].vertex, t[b].vertex)
    &&& t[b].cost == dist2(t[a].vertex, t[b].vertex) ==> t[b].near <= a
}

/// Candidate `r` comes no later than candidate `b` by cost, then tree
/// vertex, then index.
spec fn key_le(t: Seq<Item>, r: int, b: int) -> bool {
    ||| t[r].cost < t[b].cost
    ||| t[r].cost == t[b].cost && t[r].near < t[b].near
    ||| t[r].cost == t[b].cost && t[r].near == t[b].near && r <= b
}

/// Whether any record has not been admitted to the tree.
fn vertices_available(vertices: &Vec<Item>) -> (r: bool)
    ensures
        r == exists|k: int| 0 <= k < vertices.len() && !(#[trigger] vertices[k]).in_tree,
{
    let mut k: usize = 0;
    while k < vertices.len()
        invariant
            forall|j: int| 0 <= j < k ==> (#[trigger] vertices[j]).in_tree,
        decreases vertices.len() - k,
    {
        if !vertices[k].in_tree {
            return true;
        }
        k += 1;
    }
    false
}

/// Offers every candidate the edge from the newly admitted vertex `a`,
/// where it is lighter than the offer it holds, or as light and from an
/// earlier tree vertex.
fn relax(table: &mut Vec<Item>, a: usize)
    requires
        a < old(table).len(),
        old(table)[a as int].in_tree,
        forall|b: int|
            0 <= b < old(table).len() && !old(table)[b].in_tree ==> key_real(old(table)@, b)
                || key_fresh(old(table)@, b),
        forall|b: int, c: int|
            0 <= b < old(table).len() && 0 <= c < old(table).len() && !old(table)[b].in_tree
                && old(table)[c].in_tree && c != a ==> #[trigger] key_beats(old(table)@, b, c),
    ensures
        final(table).len() == old(table).len(),
        forall|k: int|
            0 <= k < final(table).len() ==> (#[trigger] final(table)[k]).index == old(table)[k].index
                && final(table)[k].vertex == old(table)[k].vertex && final(table)[k].in_tree
                == old(table)[k].in_tree,
        forall|k: int|
            0 <= k < final(table).len() && old(table)[k].in_tree ==> #[trigger] final(table)[k]
                == old(table)[k],
        forall|b: int|
            0 <= b < final(table).len() && !final(table)[b].in_tree ==> #[trigger] key_real(
                final(table)@,
                b,
            ),
        forall|b: int, c: int|
            0 <= b < final(table).len() && 0 <= c < final(table).len() && !final(table)[b].in_tree
                && final(table)[c].in_tree ==> #[trigger] key_beats(final(table)@, b, c),
{
    let ghost t0 = table@;
    let n = table.len();
    let mut b: usize = 0;
    while b < n
        invariant
            n == table.len(),
            t0.len() == n,
            a < n,
            t0[a as int].in_tree,
            forall|k: int|
                0 <= k < n ==> (#[trigger] table[k]).index == t0[k].index && table[k].vertex
                    == t0[k].vertex && table[k].in_tree == t0[k].in_tree,
            forall|k: int| 0 <= k < n && t0[k].in_tree ==> #[trigger] table[k] == t0[k],
            forall|k: int| b <= k < n ==> #[trigger] table[k] == t0[k],
            forall|k: int|
                0 <= k < n && !t0[k].in_tree ==> key_real(t0, k) || key_fresh(t0, k),
            forall|k: int, c: int|
                0 <= k < n && 0 <= c < n && !t0[k].in_tree && t0[c].in_tree && c != a
                    ==> #[trigger] key_beats(t0, k, c),
            forall|k: int| 0 <= k < b && !table[k].in_tree ==> #[trigger] key_real(table@, k),
            forall|k: int, c: int|
                0 <= k < b && 0 <= c < n && !table[k].in_tree && table[c].in_tree
                    ==> #[trigger] key_beats(table@, k, c),
        decreases n - b,
    {
        let ghost tb = table@;
        let item = table[b];
        if !item.in_tree {
            let d = table[a].vertex.distance_squared(&item.vertex);
            if d < item.cost || (d == item.cost && a < item.near) {
                let mut offered = item;
                offered.near = a;
                offered.cost = d;
                table.set(b, offered);
            } else {
                proof {
                    if !key_real(t0, b as int) {
                        assert(key_fresh(t0, b as int));
                    }
                }
            }
        }
        proof {
            assert forall|k: int, c: int|
                0 <= k <= b && 0 <= c < n && !table[k].in_tree && table[c].in_tree
                    implies #[trigger] key_beats(table@, k, c) by {
                if k < b {
                    assert(key_beats(tb, k, c));
                } else if c != a {
                    assert(key_beats(t0, k, c));
                }
            }
            assert forall|k: int| 0 <= k <= b && !table[k].in_tree implies #[trigger] key_real(
                table@,
                k,
            ) by {
                if k < b {
                    assert(key_real(tb, k));
                    let nk = tb[k].near as int;
                    assert(table[nk].in_tree == tb[nk].in_tree);
                } else if table[k].near != a {
                    assert(key_real(t0, k));
                    let nk = t0[k].near as int;
                    assert(table[nk] == t0[nk]);
                }
            }
        }
        b += 1;
    }
}

/// The candidate that comes first by cost, then tree vertex, then index.
fn select_nearest(table: &Vec<Item>) -> (r: usize)
    requires
        exists|k: int| 0 <= k < table.len() && !(#[trigger] table[k]).in_tree,
    ensures
        r < table.len(),
        !table[r as int].in_tree,
        forall|b: int| 0 <= b < table.len() && !table[b].in_tree ==> #[trigger] key_le(table@, r as int, b),
{
    let n = table.len();
    let mut best: usize = 0;
    let mut found = false;
    let mut k: usize = 0;
    while k < n
        invariant
            n == table.len(),
            k <= n,
            found ==> best < k && !table[best as int].in_tree,
            found ==> forall|b: int| 0 <= b < k && !table[b].in_tree ==> #[trigger] key_le(table@, best as int, b),
            !found ==> forall|b: int| 0 <= b < k ==> (#[trigger] table[b]).in_tree,
        decreases n - k,
    {
        let item = table[k];
        if !item.in_tree {
            if !found {
                best = k;
                found = true;
            } else {
                let cur = table[best];
                if item.cost < cur.cost || (item.cost == cur.cost && item.near < cur.near) {
                    proof {
                        assert forall|b: int| 0 <= b < k && !table[b].in_tree implies #[trigger] key_le(
                            table@,
                            k as int,
                            b,
                        ) by {
                            assert(key_le(table@, best as int, b));
                        }
                    }
                    best = k;
                }
            }
        }
        k += 1;
    }
    best
}

/// The minimum spanning tree of the complete graph on `points`, weighted
/// by Euclidean distance, grown by Prim's algorithm from the first point.
///
/// The result holds one edge for each point but the first, in index order,
/// from that point to the tree vertex it was joined to. Each round joins
/// the first lightest edge from the tree to the rest, scanning tree
/// vertices and then candidates in index order. No input is refused: no
/// point, or one, gives no edge.
pub fn minimum_spanning_tree(points: &Vec<Vertex>) -> (r: Result<Vec<Edge>, Error>)
    ensures
        r.is_ok(),
        r matches Ok(edges) ==> edges.len() == tree_size(points.len() as int) && is_prim_result(
            points@,
            edges@,
        ),
{
    let n = points.len();
    if n == 0 {
        let edges: Vec<Edge> = Vec::new();
        proof {
            let e = Seq::<int>::empty();
            assert(is_prim_tree(points@, e, e, e));
            assert(lists_tree_edges(points@, e, edges@));
        }
        return Ok(edges);
    }
    let mut table: Vec<Item> = Vec::new();
    let mut i: usize = 0;
    while i < n
        invariant
            n == points.len(),
            i <= n,
            table.len() == i,
            forall|k: int|
                0 <= k < i ==> (#[trigger] table[k]).index == k && table[k].vertex == points[k]
                    && key_fresh(table@, k) && !table[k].in_tree,
        decreases n - i,
    {
        table.push(Item::new(i, points[i]));
        i += 1;
    }

    // The first point is the root: joined to itself at no cost.
    let mut root = table[0];
    root.near = 0;
    root.cost = 0;
    root.in_tree = true;
    table.set(0, root);
    proof {
        assert(dist2(points[0], points[0]) == 0);
    }
    relax(&mut table, 0);
    let mut count: usize = 1;
    let ghost mut rank: Seq<int> = Seq::new(n as nat, |k: int| if k == 0 { 0 } else { n as int });
    let ghost mut ord: Seq<int> = seq![0int];
    let ghost mut par: Seq<int> = Seq::new(n as nat, |k: int| 0);
    let ghost mut adm: Set<int> = set![0int];

    while vertices_available(&table)
        invariant
            n == points.len(),
            n > 0,
            table.len() == n,
            1 <= count <= n,
            forall|k: int|
                0 <= k < n ==> (#[trigger] table[k]).index == k && table[k].vertex == points[k],
            rank.len() == n,
            par.len() == n,
            ord.len() == count,
            ord[0] == 0,
            par[0] == 0,
            table[0].in_tree,
            forall|v: int| 0 <= v < n ==> ((#[trigger] table[v]).in_tree <==> rank[v] < count),
            forall|v: int| 0 <= v < n && !(#[trigger] table[v]).in_tree ==> rank[v] == n,
            forall|v: int|
                0 <= v < n && (#[trigger] table[v]).in_tree ==> 0 <= rank[v] && ord[rank[v]] == v
                    && par[v] == table[v].near && table[v].cost == sq(points@, par[v], v),
            forall|k: int| 0 <= k < count ==> 0 <= #[trigger] ord[k] < n && rank[ord[k]] == k,
            forall|v: int|
                0 < v < n && (#[trigger] table[v]).in_tree ==> 0 <= par[v] < n && rank[par[v]]
                    < rank[v],
            forall|v: int, a: int, b: int|
                0 < v < n && 0 <= a < n && 0 <= b < n && table[v].in_tree ==> #[trigger] first_lightest(
                    points@,
                    rank,
                    par,
                    v,
                    a,
                    b,
                ),
            forall|b: int| 0 <= b < n && !table[b].in_tree ==> #[trigger] key_real(table@, b),
            forall|b: int, c: int|
                0 <= b < n && 0 <= c < n && !table[b].in_tree && table[c].in_tree
                    ==> #[trigger] key_beats(table@, b, c),
            adm.finite(),
            adm.len() == count,
            forall|v: int| #[trigger] adm.contains(v) <==> 0 <= v < n && table[v].in_tree,
        decreases n - count,
    {
        proof {
            if count >= n {
                let k = choose|k: int| 0 <= k < table.len() && !(#[trigger] table[k]).in_tree;
                lemma_int_range(0, n as int);
                assert(adm.subset_of(set_int_range(0, n as int)));
                lemma_subset_equality(adm, set_int_range(0, n as int));
                assert(set_int_range(0, n as int).contains(k));
            }
        }
        let i = select_nearest(&table);
        let mut joined = table[i];
        joined.in_tree = true;
        let ghost t0 = table@;
        let ghost rank0 = rank;
        let ghost par0 = par;
        table.set(i, joined);
        proof {
            rank = rank.update(i as int, count as int);
            ord = ord.push(i as int);
            par = par.update(i as int, joined.near as int);
            adm = adm.insert(i as int);
            assert(key_real(t0, i as int));
            assert forall|v: int, a: int, b: int|
                0 < v < n && 0 <= a < n && 0 <= b < n && table[v].in_tree implies #[trigger] first_lightest(
                points@,
                rank,
                par,
                v,
                a,
                b,
            ) by {
                if v == i {
                    if rank[a] < rank[v] <= rank[b] {
                        assert(t0[a].in_tree);
                        assert(!t0[b].in_tree);
                        assert(key_beats(t0, b, a));
                        assert(key_le(t0, i as int, b));
                        if b != i {
                            assert(key_real(t0, b));
                        }
                    }
                } else {
                    assert(first_lightest(points@, rank0, par0, v, a, b));
                }
            }
            assert forall|b: int, c: int|
                0 <= b < n && 0 <= c < n && !table[b].in_tree && table[c].in_tree && c != i
                    implies #[trigger] key_beats(table@, b, c) by {
                assert(key_beats(t0, b, c));
            }
            assert forall|b: int| 0 <= b < n && !table[b].in_tree implies key_real(table@, b) by {
                assert(key_real(t0, b));
                assert(table[t0[b].near as int].in_tree);
            }
        }
        relax(&mut table, i);
        count += 1;
    }
    proof {
        lemma_int_range(0, n as int);
        assert(set_int_range(0, n as int).subset_of(adm));
        lemma_len_subset(set_int_range(0, n as int), adm);
        assert forall|v: int| 0 < v < n implies 0 <= #[trigger] par[v] < n && par[v] != v && rank[par[v]] < rank[v] by {
            assert(table[v].in_tree);
        }
        assert(count == n);
        assert forall|v: int| 0 <= v < n implies 0 <= #[trigger] rank[v] < n && ord[rank[v]] == v by {
            assert(table[v].in_tree);
        }
        assert(is_admission_order(n as int, ord, rank));
        assert forall|v: int, a: int, b: int|
            0 < v < n && 0 <= a < n && 0 <= b < n implies #[trigger] first_lightest(
            points@,
            rank,
            par,
            v,
            a,
            b,
        ) by {
            assert(table[v].in_tree);
        }
        assert(is_prim_tree(points@, ord, rank, par));
    }

    let mut edges: Vec<Edge> = Vec::new();
    let mut k: usize = 0;
    while k < n
        invariant
            n == points.len(),
            n > 0,
            table.len() == n,
            count == n,
            1 <= k ==> edges.len() == k - 1,
            k == 0 ==> edges.len() == 0,
            k <= n,
            par.len() == n,
            par[0] == 0,
            is_prim_tree(points@, ord, rank, par),
            forall|v: int|
                0 <= v < n ==> (#[trigger] table[v]).index == v && table[v].vertex == points[v]
                    && table[v].in_tree && par[v] == table[v].near && table[v].cost == sq(
                    points@,
                    par[v],
                    v,
                ),
            forall|v: int| 0 < v < n ==> 0 <= #[trigger] par[v] < n && par[v] != v,
            forall|j: int|
                0 <= j < edges.len() ==> (#[trigger] edges[j]).u == points[j + 1] && edges[j].v
                    == points[par[j + 1]] && edges[j].wf(),
        decreases n - k,
    {
        let item = table[k];
        // The root is joined to itself: it gives no edge.
        if item.near != k {
            let parent = table[item.near];
            proof {
                crate::geometry::lemma_dist2_symmetric(parent.vertex, item.vertex);
            }
            edges.push(Edge::joining(item.vertex, parent.vertex, item.cost));
        }
        k += 1;
    }
    proof {
        assert(lists_tree_edges(points@, par, edges@));
    }
    Ok(edges)
}

} // verus!
