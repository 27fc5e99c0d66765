use mst::{minimum_spanning_tree, Edge, ErrorKind, Vertex};

fn points(coords: &[(i32, i32)]) -> Vec<Vertex> {
    coords.iter().map(|&(x, y)| Vertex::new(x, y)).collect()
}

fn length(e: &Edge) -> f64 {
    (e.length_squared() as f64).sqrt()
}

fn total_length(edges: &[Edge]) -> f64 {
    edges.iter().map(length).sum()
}

fn distance(a: Vertex, b: Vertex) -> f64 {
    let dx = (a.x as f64) - (b.x as f64);
    let dy = (a.y as f64) - (b.y as f64);
    (dx * dx + dy * dy).sqrt()
}

#[test]
fn test_vertex_new() {
    let v = Vertex::new(0, 0);
    assert_eq!(v.x, 0);
    assert_eq!(v.y, 0);
}

#[test]
fn test_edge_new() {
    let e = Edge::new(0, 0, 1, 1).unwrap();
    assert_eq!(e.u.x, 0);
    assert_eq!(e.u.y, 0);
    assert_eq!(e.v.x, 1);
    assert_eq!(e.v.y, 1);
}

#[test]
fn edge_new_keeps_squared_length() {
    let e = Edge::new(0, 0, 3, 4).unwrap();
    assert_eq!(e.length_squared(), 25);
    assert_eq!(length(&e), 5.0);
}

#[test]
fn edge_new_accepts_axis_aligned() {
    let e = Edge::new(2, 7, 2, 10).unwrap();
    assert_eq!(e.length_squared(), 9);
    let f = Edge::from_vertices(Vertex::new(-1, 5), Vertex::new(4, 5)).unwrap();
    assert_eq!(f.length_squared(), 25);
}

#[test]
fn edge_new_rejects_coincident_points() {
    let r = Edge::new(3, 3, 3, 3);
    assert_eq!(r.unwrap_err().kind, ErrorKind::DegenerateEdge);
    let r = Edge::from_vertices(Vertex::new(-2, 9), Vertex::new(-2, 9));
    assert_eq!(r.unwrap_err().kind, ErrorKind::DegenerateEdge);
}

#[test]
fn distance_squared_extremes() {
    let a = Vertex::new(i32::MIN, i32::MIN);
    let b = Vertex::new(i32::MAX, i32::MAX);
    let d = (u32::MAX as u128) * (u32::MAX as u128) * 2;
    assert_eq!(a.distance_squared(&b), d);
    assert_eq!(b.distance_squared(&a), d);
    assert_eq!(a.distance_squared(&a), 0);
}

#[test]
fn mst_right_triangle() {
    let pts = points(&[(0, 0), (3, 0), (3, 4)]);
    let edges = minimum_spanning_tree(&pts).unwrap();
    assert_eq!(edges.len(), 2);
    assert_eq!((edges[0].u, edges[0].v), (pts[1], pts[0]));
    assert_eq!(edges[0].length_squared(), 9);
    assert_eq!((edges[1].u, edges[1].v), (pts[2], pts[1]));
    assert_eq!(edges[1].length_squared(), 16);
    assert_eq!(length(&edges[0]), 3.0);
    assert_eq!(length(&edges[1]), 4.0);
    assert_eq!(total_length(&edges), 7.0);
    for e in &edges {
        assert!(length(e) != 5.0);
    }
}

#[test]
fn mst_single_point() {
    let pts = points(&[(5, 5)]);
    let edges = minimum_spanning_tree(&pts).unwrap();
    assert_eq!(edges.len(), 0);
}

#[test]
fn mst_no_points() {
    let edges = minimum_spanning_tree(&Vec::new()).unwrap();
    assert!(edges.is_empty());
}

#[test]
fn mst_unit_square() {
    let pts = points(&[(0, 0), (1, 0), (0, 1), (1, 1)]);
    let edges = minimum_spanning_tree(&pts).unwrap();
    assert_eq!(edges.len(), 3);
    for e in &edges {
        assert_eq!(e.length_squared(), 1);
    }
    assert_eq!(total_length(&edges), 3.0);
    // Ties are broken by the first pair in scan order.
    assert_eq!((edges[0].u, edges[0].v), (pts[1], pts[0]));
    assert_eq!((edges[1].u, edges[1].v), (pts[2], pts[0]));
    assert_eq!((edges[2].u, edges[2].v), (pts[3], pts[1]));
}

#[test]
fn mst_coincident_points() {
    let pts = points(&[(2, 2), (2, 2), (5, 2)]);
    let edges = minimum_spanning_tree(&pts).unwrap();
    assert_eq!(edges.len(), 2);
    assert_eq!((edges[0].u, edges[0].v), (pts[1], pts[0]));
    assert_eq!(edges[0].length_squared(), 0);
    assert_eq!((edges[1].u, edges[1].v), (pts[2], pts[0]));
    assert_eq!(edges[1].length_squared(), 9);
}

/// A small pseudo-random point set, the same on every run.
fn scattered(n: usize, seed: u64) -> Vec<Vertex> {
    let mut s = seed;
    let mut out = Vec::new();
    for _ in 0..n {
        s = s.wrapping_mul(6364136223846793005).wrapping_add(1442695040888963407);
        let x = ((s >> 33) % 50) as i32 - 25;
        s = s.wrapping_mul(6364136223846793005).wrapping_add(1442695040888963407);
        let y = ((s >> 33) % 50) as i32 - 25;
        out.push(Vertex::new(x, y));
    }
    out
}

#[test]
fn mst_edge_count_is_points_less_one() {
    for n in 2..30 {
        let pts = scattered(n, n as u64);
        let edges = minimum_spanning_tree(&pts).unwrap();
        assert_eq!(edges.len(), n - 1);
        for (k, e) in edges.iter().enumerate() {
            assert_eq!(e.u, pts[k + 1]);
            assert_eq!(e.length_squared(), e.u.distance_squared(&e.v));
        }
    }
}

/// The lightest spanning tree by brute force over all parent arrays.
fn brute_force_lightest(pts: &[Vertex]) -> f64 {
    let n = pts.len();
    let mut best = f64::INFINITY;
    let mut par = vec![0usize; n];
    let combos = n.pow((n - 1) as u32);
    for code in 0..combos {
        let mut c = code;
        for v in 1..n {
            par[v] = c % n;
            c /= n;
        }
        // Every point must reach the first by following parents.
        let mut is_tree = true;
        for v in 1..n {
            let mut w = v;
            let mut steps = 0;
            while w != 0 && steps <= n {
                w = par[w];
                steps += 1;
            }
            if w != 0 {
                is_tree = false;
                break;
            }
        }
        if is_tree {
            let total: f64 = (1..n).map(|v| distance(pts[v], pts[par[v]])).sum();
            if total < best {
                best = total;
            }
        }
    }
    best
}

#[test]
fn mst_no_heavier_than_any_spanning_tree() {
    for n in 2..=6 {
        for seed in 0..4u64 {
            let pts = scattered(n, 100 * seed + n as u64);
            let edges = minimum_spanning_tree(&pts).unwrap();
            let best = brute_force_lightest(&pts);
            assert!(total_length(&edges) <= best + 1e-9);
        }
    }
}

#[test]
fn mst_is_repeatable() {
    let pts = scattered(25, 7);
    let a = minimum_spanning_tree(&pts).unwrap();
    let b = minimum_spanning_tree(&pts).unwrap();
    assert_eq!(a, b);
}
