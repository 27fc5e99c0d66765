use vstd::prelude::*;
use vstd::relations::injective_on;
use vstd::set_lib::{lemma_int_range, lemma_len_subset, lemma_map_size, set_int_range};

use crate::geometry::{dist2, lemma_dist2_symmetric, Edge, Vertex};
use crate::prim::{
    first_lightest, is_admission_order, is_prim_result, is_prim_tree, lists_tree_edges, sq, tree_size,
};

verus! {

/// `par` is a spanning tree of `n` points rooted at the first: listed in
/// the order `ord`, whose inverse is `rank`, every point but the first has
/// its parent listed before it. Every spanning tree can be listed so,
/// outward from the root.
pub open spec fn is_spanning_tree(n: int, ord: Seq<int>, rank: Seq<int>, par: Seq<int>) -> bool {
    &&& is_admission_order(n, ord, rank)
    &&& par.len() == n
    &&& forall|v: int| 0 < v < n ==> 0 <= #[trigger] par[v] < n && rank[par[v]] < rank[v]
}

/// The points but the first whose edge to their parent in `par` has
/// squared length at least `theta`.
pub open spec fn heavy_children(pts: Seq<Vertex>, par: Seq<int>, theta: int) -> Set<int> {
    Set::new(|v: int| 0 < v < pts.len() && sq(pts, par[v], v) >= theta)
}

/// The positions of the edges whose squared length is at least `theta`.
pub open spec fn heavy_edges(edges: Seq<Edge>, theta: int) -> Set<int> {
    Set::new(|k: int| 0 <= k < edges.len() && dist2(edges[k].u, edges[k].v) >= theta)
}

/// Step `i` of the run `ord` joins an edge of squared length at least `theta`.
spec fn heavy_step(pts: Seq<Vertex>, ord: Seq<int>, par: Seq<int>, theta: int, i: int) -> bool {
    sq(pts, par[ord[i]], ord[i]) >= theta
}

/// The latest step at or before `j` that is the first step or a heavy one.
spec fn block_of(pts: Seq<Vertex>, ord: Seq<int>, par: Seq<int>, theta: int, j: int) -> int
    decreases j,
{
    if j <= 0 {
        0
    } else if heavy_step(pts, ord, par, theta, j) {
        j
    } else {
        block_of(pts, ord, par, theta, j - 1)
    }
}

proof fn lemma_block_of(pts: Seq<Vertex>, ord: Seq<int>, par: Seq<int>, theta: int, j: int)
    requires
        0 <= j,
    ensures
        0 <= block_of(pts, ord, par, theta, j) <= j,
        block_of(pts, ord, par, theta, j) == 0 || heavy_step(
            pts,
            ord,
            par,
            theta,
            block_of(pts, ord, par, theta, j),
        ),
        forall|i: int|
            0 < i <= j && #[trigger] heavy_step(pts, ord, par, theta, i) ==> i <= block_of(
                pts,
                ord,
                par,
                theta,
                j,
            ),
    decreases j,
{
    if j > 0 {
        lemma_block_of(pts, ord, par, theta, j - 1);
    }
}

/// The first position at or after `k` in `ord` whose point `blk` sends to `b`.
spec fn first_with(blk: spec_fn(int) -> int, ord: Seq<int>, b: int, k: int) -> int
    decreases ord.len() - k,
{
    if k >= ord.len() || k < 0 {
        ord.len() as int
    } else if blk(ord[k]) == b {
        k
    } else {
        first_with(blk, ord, b, k + 1)
    }
}

proof fn lemma_first_with(blk: spec_fn(int) -> int, ord: Seq<int>, b: int, k: int, j: int)
    requires
        0 <= k <= j < ord.len(),
        blk(ord[j]) == b,
    ensures
        k <= first_with(blk, ord, b, k) <= j,
        blk(ord[first_with(blk, ord, b, k)]) == b,
        forall|i: int| k <= i < first_with(blk, ord, b, k) ==> blk(#[trigger] ord[i]) != b,
    decreases j - k,
{
    if blk(ord[k]) != b {
        lemma_first_with(blk, ord, b, k + 1, j);
    }
}

/// Prim's tree has the fewest heavy edges: for every threshold `theta`,
/// any spanning tree of the same points has at least as many edges of
/// squared length `theta` or more as the tree that Prim's algorithm builds.
/// So the sorted edge lengths of that tree are, one by one, no greater than
/// those of any spanning tree.
pub proof fn lemma_prim_fewest_heavy_edges(
    pts: Seq<Vertex>,
    edges: Seq<Edge>,
    ord: Seq<int>,
    rank: Seq<int>,
    par: Seq<int>,
    theta: int,
)
    requires
        is_prim_result(pts, edges),
        is_spanning_tree(pts.len() as int, ord, rank, par),
    ensures
        heavy_edges(edges, theta).finite(),
        heavy_children(pts, par, theta).finite(),
        heavy_edges(edges, theta).len() <= heavy_children(pts, par, theta).len(),
{
    let (ord1, rank1, par1) = choose|o: Seq<int>, r: Seq<int>, p: Seq<int>|
        #[trigger] is_prim_tree(pts, o, r, p) && lists_tree_edges(pts, p, edges);
    let n = pts.len() as int;
    let he = heavy_edges(edges, theta);
    let a = heavy_children(pts, par1, theta);
    let b = heavy_children(pts, par, theta);
    lemma_int_range(0, edges.len() as int);
    lemma_int_range(0, n);
    lemma_len_subset(he, set_int_range(0, edges.len() as int));
    lemma_len_subset(b, set_int_range(0, n));
    lemma_len_subset(a, set_int_range(0, n));

    if n == 0 {
        assert(he =~= Set::<int>::empty());
    } else {
        // The heavy edges of the result are those of the heavy children of Prim's run.
        let next = |k: int| k + 1;
        assert forall|k: int| #[trigger] he.contains(k) implies a.contains(next(k)) by {
            lemma_dist2_symmetric(pts[k + 1], pts[par1[k + 1]]);
        }
        assert forall|v: int| a.contains(v) implies exists|k: int| he.contains(k) && #[trigger] next(k)
            == v by {
            lemma_dist2_symmetric(pts[v], pts[par1[v]]);
            assert(he.contains(v - 1) && next(v - 1) == v);
        }
        assert(he.map(next) =~= a);
        lemma_map_size(he, a, next);

        // Each heavy step of the run opens a block of steps; the point of that
        // block that comes first in `ord` has its parent in another block, and
        // the edge between them is heavy.
        let blk = |u: int| block_of(pts, ord1, par1, theta, rank1[u]);
        let pick = |v: int| ord[first_with(blk, ord, rank1[v], 0)];
        assert(rank1[0] == 0);
        assert forall|v: int| #[trigger] a.contains(v) implies b.contains(pick(v)) && blk(pick(v))
            == rank1[v] by {
            let j = rank1[v];
            assert(heavy_step(pts, ord1, par1, theta, j));
            assert(blk(v) == j);
            lemma_first_with(blk, ord, j, 0, rank[v]);
            let f = first_with(blk, ord, j, 0);
            let c = ord[f];
            assert(rank[c] == f);
            lemma_block_of(pts, ord1, par1, theta, 0);
            assert(c != 0);
            let p = par[c];
            assert(rank[p] < f);
            assert(ord[rank[p]] == p);
            assert(blk(p) != j);
            lemma_block_of(pts, ord1, par1, theta, rank1[p]);
            lemma_block_of(pts, ord1, par1, theta, rank1[c]);
            let i = blk(p);
            if i < j {
                assert(rank1[p] < j);
                assert(first_lightest(pts, rank1, par1, v, p, c));
            } else {
                let w = ord1[i];
                assert(heavy_step(pts, ord1, par1, theta, i));
                assert(rank1[w] == i);
                assert(rank1[c] < i);
                assert(first_lightest(pts, rank1, par1, w, c, p));
                lemma_dist2_symmetric(pts[c], pts[p]);
            }
        }
        assert(injective_on(pick, a)) by {
            assert forall|v1: int, v2: int|
                a.contains(v1) && a.contains(v2) && #[trigger] pick(v1) == #[trigger] pick(v2)
                implies v1 == v2 by {
                assert(ord1[rank1[v1]] == v1);
                assert(ord1[rank1[v2]] == v2);
            }
        }
        lemma_map_size(a, a.map(pick), pick);
        assert(a.map(pick).subset_of(b));
        lemma_len_subset(a.map(pick), b);
    }
}

/// How many values of `s` are at least `theta`.
pub open spec fn count_at_least(s: Seq<int>, theta: int) -> nat
    decreases s.len(),
{
    if s.len() == 0 {
        0
    } else {
        count_at_least(s.drop_last(), theta) + if s.last() >= theta {
            1nat
        } else {
            0nat
        }
    }
}

/// The sum of `w` over the values of `s`.
pub open spec fn total_weight(s: Seq<int>, w: spec_fn(int) -> int) -> int
    decreases s.len(),
{
    if s.len() == 0 {
        0
    } else {
        total_weight(s.drop_last(), w) + w(s.last())
    }
}

/// `w` never decreases.
pub open spec fn nondecreasing(w: spec_fn(int) -> int) -> bool {
    forall|x: int, y: int| x <= y ==> #[trigger] w(x) <= #[trigger] w(y)
}

/// The squared lengths of `edges`, in order.
pub open spec fn edge_lengths(edges: Seq<Edge>) -> Seq<int> {
    Seq::new(edges.len(), |k: int| dist2(edges[k].u, edges[k].v))
}

/// The squared lengths of the edges of the tree `par`, from each point
/// but the first to its parent, in index order.
pub open spec fn tree_lengths(pts: Seq<Vertex>, par: Seq<int>) -> Seq<int> {
    Seq::new(tree_size(pts.len() as int) as nat, |k: int| sq(pts, par[k + 1], k + 1))
}

/// The positions of the values of `s` that are at least `theta`.
spec fn positions_at_least(s: Seq<int>, theta: int) -> Set<int> {
    Set::new(|k: int| 0 <= k < s.len() && s[k] >= theta)
}

proof fn lemma_count_is_positions(s: Seq<int>, theta: int)
    ensures
        positions_at_least(s, theta).finite(),
        positions_at_least(s, theta).len() == count_at_least(s, theta),
    decreases s.len(),
{
    if s.len() == 0 {
        assert(positions_at_least(s, theta) =~= Set::<int>::empty());
    } else {
        let t = s.drop_last();
        lemma_count_is_positions(t, theta);
        let last = s.len() - 1;
        if s.last() >= theta {
            assert(positions_at_least(s, theta) =~= positions_at_least(t, theta).insert(last));
        } else {
            assert(positions_at_least(s, theta) =~= positions_at_least(t, theta));
        }
    }
}

/// Taking the value at `i` out of `s` takes it out of the count and the sum.
proof fn lemma_remove(s: Seq<int>, i: int, theta: int, w: spec_fn(int) -> int)
    requires
        0 <= i < s.len(),
    ensures
        count_at_least(s, theta) == count_at_least(s.remove(i), theta) + if s[i] >= theta {
            1nat
        } else {
            0nat
        },
        total_weight(s, w) == total_weight(s.remove(i), w) + w(s[i]),
    decreases s.len(),
{
    if i == s.len() - 1 {
        assert(s.remove(i) =~= s.drop_last());
    } else {
        lemma_remove(s.drop_last(), i, theta, w);
        assert(s.remove(i).drop_last() =~= s.drop_last().remove(i));
        assert(s.remove(i).last() == s.last());
    }
}

/// The position of a greatest value of a non-empty `s`.
spec fn argmax(s: Seq<int>) -> int
    decreases s.len(),
{
    if s.len() <= 1 {
        0
    } else {
        let m = argmax(s.drop_last());
        if s.last() > s[m] {
            s.len() - 1
        } else {
            m
        }
    }
}

proof fn lemma_argmax(s: Seq<int>)
    requires
        s.len() > 0,
    ensures
        0 <= argmax(s) < s.len(),
        forall|j: int| 0 <= j < s.len() ==> #[trigger] s[j] <= s[argmax(s)],
    decreases s.len(),
{
    if s.len() > 1 {
        lemma_argmax(s.drop_last());
        let m = argmax(s.drop_last());
        assert forall|j: int| 0 <= j < s.len() implies #[trigger] s[j] <= s[argmax(s)] by {
            if j < s.len() - 1 {
                assert(s[j] == s.drop_last()[j]);
            }
        }
    }
}

/// No value reaches a threshold above the greatest one; the greatest one
/// reaches every threshold up to itself.
proof fn lemma_count_by_max(s: Seq<int>, theta: int)
    requires
        s.len() > 0,
    ensures
        theta > s[argmax(s)] ==> count_at_least(s, theta) == 0,
        theta <= s[argmax(s)] ==> count_at_least(s, theta) >= 1,
{
    lemma_argmax(s);
    lemma_count_is_positions(s, theta);
    let p = positions_at_least(s, theta);
    if theta > s[argmax(s)] {
        assert(p =~= Set::<int>::empty());
    } else {
        assert(p.contains(argmax(s)));
        vstd::set_lib::lemma_set_empty_equivalency_len(p);
    }
}

/// Where `b` has, for every threshold, at least as many values that reach
/// it as `a` has, and both have as many values, `b` weighs at least as
/// much as `a` under any nondecreasing weighting.
proof fn lemma_dominated_total(a: Seq<int>, b: Seq<int>, w: spec_fn(int) -> int)
    requires
        a.len() == b.len(),
        nondecreasing(w),
        forall|theta: int| #[trigger] count_at_least(a, theta) <= count_at_least(b, theta),
    ensures
        total_weight(a, w) <= total_weight(b, w),
    decreases a.len(),
{
    if a.len() > 0 {
        lemma_argmax(a);
        lemma_argmax(b);
        let i = argmax(a);
        let j = argmax(b);
        lemma_count_by_max(a, a[i]);
        lemma_count_by_max(b, a[i]);
        assert(count_at_least(a, a[i]) <= count_at_least(b, a[i]));
        assert(a[i] <= b[j]);
        assert(w(a[i]) <= w(b[j]));
        let a1 = a.remove(i);
        let b1 = b.remove(j);
        assert forall|theta: int| #[trigger] count_at_least(a1, theta) <= count_at_least(
            b1,
            theta,
        ) by {
            lemma_remove(a, i, theta, w);
            lemma_remove(b, j, theta, w);
            assert(count_at_least(a, theta) <= count_at_least(b, theta));
            if a[i] < theta {
                lemma_count_by_max(a, theta);
            }
        }
        lemma_dominated_total(a1, b1, w);
        lemma_remove(a, i, 0, w);
        lemma_remove(b, j, 0, w);
    }
}

/// Prim's tree is a lightest spanning tree: under any nondecreasing
/// weighting `w` of squared lengths (the squared length itself, or the
/// length rounded to an integer), its edges weigh no more in total than
/// those of any spanning tree of the same points.
pub proof fn lemma_prim_lightest(
    pts: Seq<Vertex>,
    edges: Seq<Edge>,
    ord: Seq<int>,
    rank: Seq<int>,
    par: Seq<int>,
    w: spec_fn(int) -> int,
)
    requires
        is_prim_result(pts, edges),
        is_spanning_tree(pts.len() as int, ord, rank, par),
        nondecreasing(w),
    ensures
        total_weight(edge_lengths(edges), w) <= total_weight(tree_lengths(pts, par), w),
{
    let a = edge_lengths(edges);
    let b = tree_lengths(pts, par);
    let n = pts.len() as int;
    let (ord1, rank1, par1) = choose|o: Seq<int>, r: Seq<int>, p: Seq<int>|
        #[trigger] is_prim_tree(pts, o, r, p) && lists_tree_edges(pts, p, edges);
    assert(a.len() == b.len());
    assert forall|theta: int| #[trigger] count_at_least(a, theta) <= count_at_least(b, theta) by {
        lemma_prim_fewest_heavy_edges(pts, edges, ord, rank, par, theta);
        lemma_count_is_positions(a, theta);
        lemma_count_is_positions(b, theta);
        assert(positions_at_least(a, theta) =~= heavy_edges(edges, theta));
        let hc = heavy_children(pts, par, theta);
        let pb = positions_at_least(b, theta);
        let next = |k: int| k + 1;
        assert forall|k: int| #[trigger] pb.contains(k) implies hc.contains(next(k)) by {}
        assert forall|v: int| hc.contains(v) implies exists|k: int| pb.contains(k) && #[trigger] next(k)
            == v by {
            assert(pb.contains(v - 1) && next(v - 1) == v);
        }
        assert(pb.map(next) =~= hc);
        lemma_map_size(pb, hc, next);
    }
    lemma_dominated_total(a, b, w);
}

} // verus!
