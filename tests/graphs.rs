use complib::graph_search::{graph_bfs, graph_dfs, topological_sort, DfsType};

fn sample() -> Vec<Vec<usize>> {
    vec![vec![1, 2], vec![3], vec![3], vec![]]
}

#[test]
fn bfs_order() {
    assert_eq!(graph_bfs(0, &sample()), vec![0, 1, 2, 3]);
    assert_eq!(graph_bfs(2, &sample()), vec![2, 3]);
    let cyc = vec![vec![1], vec![2], vec![0], vec![0]];
    assert_eq!(graph_bfs(0, &cyc), vec![0, 1, 2]);
}

#[test]
fn dfs_orders() {
    assert_eq!(graph_dfs(0, &sample(), DfsType::Preorder), vec![0, 1, 3, 2]);
    assert_eq!(graph_dfs(0, &sample(), DfsType::Postorder), vec![3, 1, 2, 0]);
    assert_eq!(graph_dfs(0, &sample(), DfsType::Inorder), vec![1, 0]);
}

#[test]
fn topological_order() {
    assert_eq!(topological_sort(&sample()), vec![0, 2, 1, 3]);
    let g = vec![vec![], vec![0], vec![1], vec![2, 0]];
    let order = topological_sort(&g);
    let pos = |v: usize| order.iter().position(|&x| x == v).unwrap();
    for (u, edges) in g.iter().enumerate() {
        for &v in edges {
            assert!(pos(u) < pos(v));
        }
    }
    assert!(topological_sort(&Vec::new()).is_empty());
}

#[test]
fn dfs_start_positions() {
    let g = vec![vec![2, 1], vec![3], vec![], vec![0]];
    let pre = graph_dfs(0, &g, DfsType::Preorder);
    assert_eq!(pre[0], 0);
    let post = graph_dfs(0, &g, DfsType::Postorder);
    assert_eq!(*post.last().unwrap(), 0);
    assert_eq!(graph_dfs(2, &g, DfsType::Preorder), vec![2]);
}
