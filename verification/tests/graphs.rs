use turbo_input::Scanner;

#[test]
fn undirected_edges_stand_in_both_lists_in_arrival_order() {
    let mut scanner = Scanner::new("1 2\n2 3\n1 3".as_bytes());
    let graph = scanner.graph(3, 3, false);
    assert_eq!(graph, vec![vec![], vec![2, 3], vec![1, 3], vec![2, 1]]);
}

#[test]
fn directed_edges_stand_in_the_list_of_their_source_only() {
    let mut scanner = Scanner::new("1 2\n2 3".as_bytes());
    let graph = scanner.graph(3, 2, true);
    assert_eq!(graph, vec![vec![], vec![2], vec![3], vec![]]);
}

#[test]
fn an_undirected_loop_is_entered_twice() {
    let mut scanner = Scanner::new("2 2".as_bytes());
    let graph = scanner.graph(2, 1, false);
    assert_eq!(graph, vec![vec![], vec![], vec![2, 2]]);
}

#[test]
fn a_directed_loop_is_entered_once() {
    let mut scanner = Scanner::new("2 2".as_bytes());
    let graph = scanner.graph(2, 1, true);
    assert_eq!(graph, vec![vec![], vec![], vec![2]]);
}

#[test]
fn repeated_edges_are_kept() {
    let mut scanner = Scanner::new("1 2 1 2 2 1".as_bytes());
    let graph = scanner.graph(2, 3, false);
    assert_eq!(graph, vec![vec![], vec![2, 2, 2], vec![1, 1, 1]]);

    let mut directed = Scanner::new("1 2 1 2 2 1".as_bytes());
    let graph = directed.graph(2, 3, true);
    assert_eq!(graph, vec![vec![], vec![2, 2], vec![1]]);
}

#[test]
fn a_graph_without_edges_has_empty_lists() {
    let mut scanner = Scanner::new("8".as_bytes());
    let graph = scanner.graph(4, 0, false);
    assert_eq!(graph.len(), 5);
    assert!(graph.iter().all(|list| list.is_empty()));
    assert_eq!(scanner.token::<u8>(), 8);

    let mut nothing = Scanner::new("".as_bytes());
    assert_eq!(nothing.graph(0, 0, true), vec![Vec::<usize>::new()]);
}

#[test]
fn vertex_zero_has_a_list_of_its_own() {
    let mut scanner = Scanner::new("0 1\n1 0".as_bytes());
    let graph = scanner.graph(1, 2, true);
    assert_eq!(graph, vec![vec![1], vec![0]]);
}

#[test]
fn a_graph_read_leaves_what_follows_the_edges() {
    let mut scanner = Scanner::new("3 2\n1 2\n2 3\nrest".as_bytes());
    let n: usize = scanner.token();
    let m: usize = scanner.token();
    let graph = scanner.graph(n, m, false);
    assert_eq!(graph[2], vec![1, 3]);
    assert_eq!(scanner.string(), "rest");
}
