use turbo_input::graph::{empty_lists, file_edge};
use turbo_input::queue::TokenQueue;
use turbo_input::ScanError;

#[test]
fn a_new_queue_is_empty() {
    let mut queue = TokenQueue::new();
    assert!(queue.is_empty());
    assert_eq!(queue.try_next::<String>(), None);
    assert_eq!(queue.try_next::<i32>(), None);
    assert!(queue.is_empty());
}

#[test]
fn a_queue_gives_the_tokens_of_its_line_in_order() {
    let mut queue = TokenQueue::new();
    queue.refill("  12 abc\t-3 \n");
    assert!(!queue.is_empty());
    assert_eq!(queue.try_next::<i32>(), Some(Ok(12)));
    assert_eq!(queue.try_next::<i32>(), Some(Err(ScanError::ParseMismatch)));
    assert_eq!(queue.try_next::<i32>(), Some(Ok(-3)));
    assert!(queue.is_empty());
    assert_eq!(queue.try_next::<i32>(), None);
}

#[test]
fn an_empty_queue_can_be_refilled_again_and_again() {
    let mut queue = TokenQueue::new();
    let mut seen: Vec<String> = Vec::new();
    for line in ["one two\n", "\n", "   \n", "three\n", "four five"] {
        assert!(queue.is_empty());
        queue.refill(line);
        while let Some(token) = queue.try_next::<String>() {
            seen.push(token.unwrap());
        }
    }
    assert_eq!(seen, vec!["one", "two", "three", "four", "five"]);
}

#[test]
fn a_blank_line_leaves_the_queue_empty() {
    let mut queue = TokenQueue::new();
    queue.refill(" \t \r\n");
    assert!(queue.is_empty());
}

#[test]
fn empty_lists_are_one_more_than_the_vertices() {
    assert_eq!(empty_lists(0), vec![Vec::<usize>::new()]);
    let lists = empty_lists(3);
    assert_eq!(lists.len(), 4);
    assert!(lists.iter().all(|list| list.is_empty()));
}

#[test]
fn an_edge_is_filed_under_the_vertices_it_joins() {
    let mut lists = empty_lists(3);
    assert_eq!(file_edge(&mut lists, 1, 2, false), Ok(()));
    assert_eq!(lists, vec![vec![], vec![2], vec![1], vec![]]);
    assert_eq!(file_edge(&mut lists, 3, 1, true), Ok(()));
    assert_eq!(lists, vec![vec![], vec![2], vec![1], vec![1]]);
    assert_eq!(file_edge(&mut lists, 2, 2, false), Ok(()));
    assert_eq!(lists, vec![vec![], vec![2], vec![1, 2, 2], vec![1]]);
    assert_eq!(file_edge(&mut lists, 0, 3, false), Ok(()));
    assert_eq!(lists, vec![vec![3], vec![2], vec![1, 2, 2], vec![1, 0]]);
}

#[test]
fn an_edge_that_does_not_fit_changes_nothing() {
    let mut lists = empty_lists(2);
    assert_eq!(file_edge(&mut lists, 3, 1, true), Err(ScanError::IndexOutOfRange));
    assert_eq!(file_edge(&mut lists, 3, 1, false), Err(ScanError::IndexOutOfRange));
    assert_eq!(file_edge(&mut lists, 1, 3, false), Err(ScanError::IndexOutOfRange));
    assert_eq!(lists, vec![Vec::<usize>::new(), vec![], vec![]]);
    assert_eq!(file_edge(&mut lists, 1, 3, true), Ok(()));
    assert_eq!(lists, vec![vec![], vec![3], vec![]]);

    let mut none: Vec<Vec<usize>> = Vec::new();
    assert_eq!(file_edge(&mut none, 0, 0, true), Err(ScanError::IndexOutOfRange));
    assert!(none.is_empty());
}
