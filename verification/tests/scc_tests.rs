use lib::graph::scc::Scc;

#[test]
fn scc_two_cycles_and_a_tail() {
    // 0 <-> 1 -> 2 <-> 3 -> 4
    let adj = vec![vec![1], vec![0, 2], vec![3], vec![2, 4], vec![]];
    let scc = Scc::from_adjacency(&adj);
    assert_eq!(scc.len(), 3);
    assert!(!scc.is_empty());
    assert_eq!(scc.component(0), scc.component(1));
    assert_eq!(scc.component(2), scc.component(3));
    assert!(scc.component(1) < scc.component(2));
    assert!(scc.component(3) < scc.component(4));
    assert_eq!(scc.group(scc.component(0)), &[0, 1]);
    assert_eq!(scc.group(scc.component(2)), &[2, 3]);
    assert_eq!(scc.group(scc.component(4)), &[4]);
    let cond = scc.condensation();
    assert_eq!(cond[scc.component(0)], vec![scc.component(2)]);
    assert_eq!(cond[scc.component(2)], vec![scc.component(4)]);
    assert!(cond[scc.component(4)].is_empty());
}

#[test]
fn scc_edges_go_forward() {
    let adj = vec![vec![2], vec![0], vec![1, 3], vec![4], vec![3], vec![4, 0]];
    let scc = Scc::from_adjacency(&adj);
    for u in 0..adj.len() {
        for &v in &adj[u] {
            assert!(scc.component(u) <= scc.component(v));
        }
    }
    assert_eq!(scc.len(), 3);
    assert_eq!(scc.group(scc.component(0)), &[0, 1, 2]);
    assert_eq!(scc.group(scc.component(3)), &[3, 4]);
    assert_eq!(scc.component(5), 0);
}

#[test]
fn scc_empty_and_self_loop() {
    let scc = Scc::from_adjacency(&[]);
    assert_eq!(scc.len(), 0);
    assert!(scc.is_empty());
    let scc = Scc::from_adjacency(&[vec![0], vec![]]);
    assert_eq!(scc.len(), 2);
    assert_ne!(scc.component(0), scc.component(1));
    assert!(scc.condensation().iter().all(|l| l.is_empty()));
}
