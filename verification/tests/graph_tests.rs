use lib::graph::max_flow::MaxFlow;
use lib::graph::shortest_path::min_heap::MinHeap;
use lib::graph::shortest_path::ShortestPathTree;
use lib::graph::topological_sort::topological_sort;

fn is_topological(adjacency: &[Vec<usize>], order: &[usize]) -> bool {
    let n = adjacency.len();
    if order.len() != n {
        return false;
    }
    let mut pos = vec![usize::MAX; n];
    for (i, &v) in order.iter().enumerate() {
        if v >= n || pos[v] != usize::MAX {
            return false;
        }
        pos[v] = i;
    }
    (0..n).all(|u| adjacency[u].iter().all(|&v| pos[u] < pos[v]))
}

#[test]
fn topological_sort_of_dag() {
    let adjacency = vec![vec![1, 2], vec![3], vec![3], vec![], vec![0]];
    let order = topological_sort(&adjacency).unwrap();
    assert!(is_topological(&adjacency, &order));
}

#[test]
fn topological_sort_of_cycle() {
    assert_eq!(topological_sort(&[vec![1], vec![2], vec![0]]), None);
    assert_eq!(topological_sort(&[vec![0]]), None);
}

#[test]
fn topological_sort_of_empty_graph() {
    assert_eq!(topological_sort(&[]), Some(vec![]));
}

fn sample_network() -> MaxFlow {
    let mut g = MaxFlow::new(4);
    assert_eq!(g.add_edge(0, 1, 3), 0);
    assert_eq!(g.add_edge(0, 2, 2), 1);
    assert_eq!(g.add_edge(1, 2, 1), 2);
    assert_eq!(g.add_edge(1, 3, 2), 3);
    assert_eq!(g.add_edge(2, 3, 3), 4);
    g
}

#[test]
fn max_flow_value() {
    let mut g = sample_network();
    assert_eq!(g.num_vertices(), 4);
    assert_eq!(g.num_edges(), 5);
    assert_eq!(g.get_edge(0), (0, 1, 3, 0));
    assert_eq!(g.flow(0, 3), 5);
    assert_eq!(g.reachable(0), vec![true, false, false, false]);
    assert_eq!(g.flow(0, 3), 0);
}

#[test]
fn max_flow_conservation() {
    let mut g = sample_network();
    let f = g.flow(0, 3);
    let mut net = vec![0i64; 4];
    for i in 0..g.num_edges() {
        let (from, to, cap, flow) = g.get_edge(i);
        assert!(flow <= cap);
        net[from] += flow as i64;
        net[to] -= flow as i64;
    }
    assert_eq!(net, vec![f as i64, 0, 0, -(f as i64)]);
}

#[test]
fn max_flow_limit() {
    let mut g = sample_network();
    assert_eq!(g.flow_limit(0, 3, 4), 4);
    assert_eq!(g.flow_limit(0, 3, 4), 1);
}

#[test]
fn max_flow_from_edges() {
    let mut g = MaxFlow::from_edges(3, &[(0, 1, 5), (1, 2, 3), (0, 2, 1)]);
    assert_eq!(g.num_edges(), 3);
    assert_eq!(g.get_edge(1), (1, 2, 3, 0));
    assert_eq!(g.flow(0, 2), 4);
    assert_eq!(g.get_edge(0), (0, 1, 5, 3));
    let cut = g.reachable(0);
    assert_eq!(cut, vec![true, true, false]);
}

#[test]
fn bfs_distances_and_paths() {
    let adjacency = vec![vec![1, 2], vec![3], vec![3], vec![], vec![0]];
    let t = ShortestPathTree::bfs(5, &[0], &adjacency);
    assert_eq!(t.dist(0), Some(0));
    assert_eq!(t.dist(1), Some(1));
    assert_eq!(t.dist(2), Some(1));
    assert_eq!(t.dist(3), Some(2));
    assert_eq!(t.dist(4), None);
    assert_eq!(t.prev(0), None);
    assert_eq!(t.prev(3), Some(1));
    assert_eq!(t.path(3), Some(vec![0, 1, 3]));
    assert_eq!(t.path(0), Some(vec![0]));
    assert_eq!(t.path(4), None);
}

#[test]
fn bfs_from_several_sources() {
    let adjacency = vec![vec![1], vec![2], vec![3], vec![]];
    let t = ShortestPathTree::bfs(4, &[0, 2, 2], &adjacency);
    assert_eq!(t.dist(0), Some(0));
    assert_eq!(t.dist(1), Some(1));
    assert_eq!(t.dist(2), Some(0));
    assert_eq!(t.dist(3), Some(1));
    assert_eq!(t.path(3), Some(vec![2, 3]));
}

#[test]
fn dijkstra_distances() {
    let adjacency = vec![vec![(1, 4), (2, 1)], vec![(3, 1)], vec![(1, 2), (3, 5)], vec![], vec![(0, 1)]];
    let t = ShortestPathTree::dijkstra(5, &[0], &adjacency);
    assert_eq!(t.dist(0), Some(0));
    assert_eq!(t.dist(1), Some(3));
    assert_eq!(t.dist(2), Some(1));
    assert_eq!(t.dist(3), Some(4));
    assert_eq!(t.dist(4), None);
    assert_eq!(t.path(3), Some(vec![0, 2, 1, 3]));
    assert_eq!(t.prev(1), Some(2));
}

#[test]
fn dijkstra_with_zero_weights() {
    let adjacency = vec![vec![(1, 0)], vec![(2, 0)], vec![(0, 0)]];
    let t = ShortestPathTree::dijkstra(3, &[1], &adjacency);
    assert_eq!(t.dist(0), Some(0));
    assert_eq!(t.dist(2), Some(0));
    assert_eq!(t.path(0), Some(vec![1, 2, 0]));
}

#[test]
fn dijkstra_agrees_with_bfs_on_unit_weights() {
    let adjacency = vec![vec![1, 2], vec![3], vec![3, 4], vec![5], vec![5], vec![], vec![0]];
    let weighted: Vec<Vec<(usize, usize)>> = adjacency.iter().map(|a| a.iter().map(|&v| (v, 1)).collect()).collect();
    let b = ShortestPathTree::bfs(7, &[0], &adjacency);
    let d = ShortestPathTree::dijkstra(7, &[0], &weighted);
    let z = ShortestPathTree::zero_one_bfs(7, &[0], &weighted);
    for v in 0..7 {
        assert_eq!(b.dist(v), d.dist(v));
        assert_eq!(b.dist(v), z.dist(v));
    }
}

#[test]
fn zero_one_bfs_distances() {
    let adjacency = vec![vec![(1, 1), (2, 0)], vec![(3, 0)], vec![(1, 0)], vec![], vec![(3, 1)]];
    let t = ShortestPathTree::zero_one_bfs(5, &[0], &adjacency);
    assert_eq!(t.dist(1), Some(0));
    assert_eq!(t.dist(3), Some(0));
    assert_eq!(t.dist(4), None);
    assert_eq!(t.path(3), Some(vec![0, 2, 1, 3]));
}

#[test]
fn zero_one_bfs_agrees_with_dijkstra() {
    let adjacency = vec![
        vec![(1, 1), (2, 0), (5, 1)],
        vec![(3, 1), (4, 0)],
        vec![(4, 1)],
        vec![(5, 0)],
        vec![(3, 1), (0, 0)],
        vec![(1, 0)],
    ];
    let d = ShortestPathTree::dijkstra(6, &[0], &adjacency);
    let z = ShortestPathTree::zero_one_bfs(6, &[0], &adjacency);
    for v in 0..6 {
        assert_eq!(d.dist(v), z.dist(v));
    }
}

#[test]
fn min_heap_order() {
    let mut h = MinHeap::new();
    for &x in &[(5, 1), (3, 2), (8, 0), (3, 1), (1, 9)] {
        h.push(x);
    }
    assert_eq!(h.len(), 5);
    assert_eq!(h.pop(), Some((1, 9)));
    assert_eq!(h.pop(), Some((3, 1)));
    assert_eq!(h.pop(), Some((3, 2)));
    assert_eq!(h.pop(), Some((5, 1)));
    assert_eq!(h.pop(), Some((8, 0)));
    assert_eq!(h.pop(), None);
}

use lib::graph::short_cycle::{count_c3, count_c4, for_each_triangle};

#[test]
fn count_c3_complete_graph() {
    let edges = [(0, 1), (0, 2), (0, 3), (1, 2), (1, 3), (2, 3)];
    assert_eq!(count_c3(4, &edges), vec![2, 2, 2, 2, 2, 2]);
}

#[test]
fn count_c3_parallel_edges() {
    let edges = [(0, 1), (1, 2), (2, 0), (1, 0)];
    assert_eq!(count_c3(3, &edges), vec![1, 2, 2, 1]);
}

#[test]
fn count_c3_without_triangles() {
    let edges = [(0, 1), (1, 2), (2, 3), (3, 0)];
    assert_eq!(count_c3(4, &edges), vec![0, 0, 0, 0]);
    assert_eq!(count_c3(3, &[]), Vec::<usize>::new());
}

#[test]
fn for_each_triangle_lists_each_once() {
    let edges = [(0, 1), (0, 2), (0, 3), (1, 2), (1, 3), (2, 3), (1, 0), (3, 4)];
    let mut found: Vec<Vec<usize>> = for_each_triangle(5, &edges)
        .into_iter()
        .map(|(a, b, c)| {
            let mut t = vec![a, b, c];
            t.sort();
            t
        })
        .collect();
    found.sort();
    assert_eq!(
        found,
        vec![vec![0, 1, 2], vec![0, 1, 3], vec![0, 2, 3], vec![1, 2, 3]]
    );
}

#[test]
fn for_each_triangle_none() {
    assert!(for_each_triangle(4, &[(0, 1), (1, 2), (2, 3)]).is_empty());
}

#[test]
fn count_c4_complete_graph() {
    let edges = [(0, 1), (0, 2), (0, 3), (1, 2), (1, 3), (2, 3)];
    assert_eq!(count_c4(4, &edges), vec![2, 2, 2, 2, 2, 2]);
}

#[test]
fn count_c4_square_with_parallel_edge() {
    let edges = [(0, 1), (1, 2), (2, 3), (3, 0), (1, 0)];
    assert_eq!(count_c4(4, &edges), vec![1, 2, 2, 2, 1]);
}

#[test]
fn count_c4_without_cycles() {
    let edges = [(0, 1), (1, 2), (2, 0), (2, 3)];
    assert_eq!(count_c4(5, &edges), vec![0, 0, 0, 0]);
}

#[test]
fn count_c4_parallel_edges_only() {
    let edges = vec![(0, 1); 1000];
    assert_eq!(count_c4(2, &edges), vec![0; 1000]);
    assert_eq!(count_c3(2, &edges), vec![0; 1000]);
}

#[test]
fn max_flow_equals_reachable_cut() {
    let mut g = MaxFlow::from_edges(
        6,
        &[(0, 1, 7), (0, 2, 4), (1, 3, 5), (2, 1, 3), (2, 4, 2), (3, 5, 8), (4, 3, 3), (4, 5, 5), (1, 4, 3)],
    );
    let f = g.flow(0, 5);
    let r = g.reachable(0);
    assert!(r[0] && !r[5]);
    let mut cut = 0;
    for i in 0..g.num_edges() {
        let (from, to, cap, flow) = g.get_edge(i);
        if r[from] && !r[to] {
            assert_eq!(flow, cap);
            cut += cap;
        }
        if !r[from] && r[to] {
            assert_eq!(flow, 0);
        }
    }
    assert_eq!(cut, f);
}

#[test]
fn sources_keep_no_predecessor() {
    let adjacency = vec![vec![(1, 0)], vec![(0, 0), (2, 3)], vec![]];
    let t = ShortestPathTree::dijkstra(3, &[0, 1], &adjacency);
    assert_eq!(t.prev(0), None);
    assert_eq!(t.prev(1), None);
    assert_eq!(t.prev(2), Some(1));
    let z = ShortestPathTree::zero_one_bfs(3, &[0, 1], &vec![vec![(1, 0)], vec![(0, 0), (2, 1)], vec![]]);
    assert_eq!(z.prev(0), None);
    assert_eq!(z.prev(1), None);
    assert_eq!(z.dist(2), Some(1));
}
