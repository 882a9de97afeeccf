use fib_heap::consolidate::rebalance;
use fib_heap::head_heap::{bring_min_to_front, count_nodes};
use fib_heap::tail_heap::order_min;
use fib_heap::tree::Tree;

fn singletons(xs: &[u32]) -> Vec<Tree<u32>> {
    xs.iter().map(|x| Tree::new(*x)).collect()
}

fn check_min_heap(tree: &Tree<u32>) {
    for child in &tree.children {
        assert!(tree.node <= child.node, "node is at or below each child");
        check_min_heap(child);
    }
}

fn check_degrees_ascending(roots: &[Tree<u32>]) {
    for pair in roots.windows(2) {
        assert!(
            pair[0].degree() < pair[1].degree(),
            "degrees are unique and ascending"
        );
    }
}

#[test]
fn rebalance_degrees_unique() {
    let xs: Vec<u32> = (0..23).map(|i| (i * 31) % 17).collect();
    let n = xs.len();
    let mut roots = singletons(&xs);
    rebalance(&mut roots, n);
    check_degrees_ascending(&roots);
    for t in &roots {
        check_min_heap(t);
    }
    assert_eq!(count_nodes(&roots), n, "no element lost or duplicated");
}

#[test]
fn rebalance_power_of_two_gives_one_tree() {
    let xs: Vec<u32> = (0..16).collect();
    let mut roots = singletons(&xs);
    rebalance(&mut roots, 16);
    assert_eq!(roots.len(), 1, "16 singletons merge into one degree-4 tree");
    assert_eq!(roots[0].degree(), 4);
    assert_eq!(roots[0].count_nodes(), 16);
    check_min_heap(&roots[0]);
}

#[test]
fn rebalance_twice_is_harmless() {
    let xs: Vec<u32> = (0..13).map(|i| 100 - i).collect();
    let n = xs.len();
    let mut roots = singletons(&xs);
    rebalance(&mut roots, n);
    let degrees: Vec<usize> = roots.iter().map(Tree::degree).collect();
    rebalance(&mut roots, n);
    let again: Vec<usize> = roots.iter().map(Tree::degree).collect();
    assert_eq!(degrees, again, "a degree-unique forest is left as it was");
    check_degrees_ascending(&roots);
    for t in &roots {
        check_min_heap(t);
    }
    let total: usize = roots.iter().map(|t| t.count_nodes()).sum();
    assert_eq!(total, n);
}

#[test]
fn rebalance_empty_forest() {
    let mut roots: Vec<Tree<u32>> = Vec::new();
    rebalance(&mut roots, 0);
    assert!(roots.is_empty());
}

#[test]
fn min_to_front_finds_min() {
    let mut roots = singletons(&[9, 2, 14, 2, 30]);
    bring_min_to_front(&mut roots);
    let values: Vec<u32> = roots.iter().map(|t| *t.root()).collect();
    assert_eq!(
        values,
        vec![2, 14, 2, 30, 9],
        "rotation at the first minimum keeps the relative order of the rest"
    );
    rebalance(&mut roots, 5);
    bring_min_to_front(&mut roots);
    assert_eq!(*roots[0].root(), 2);
}

#[test]
fn order_min_finds_min() {
    let mut roots = singletons(&[9, 2, 14, 2, 30]);
    order_min(&mut roots);
    let values: Vec<u32> = roots.iter().map(|t| *t.root()).collect();
    assert_eq!(
        values,
        vec![9, 30, 14, 2, 2],
        "a single swap moves the first minimum to the last slot"
    );
    rebalance(&mut roots, 5);
    order_min(&mut roots);
    assert_eq!(*roots[roots.len() - 1].root(), 2);
}

#[test]
fn singleton_tree_shape() {
    let t = Tree::new(7u32);
    assert_eq!(*t.root(), 7);
    assert_eq!(t.degree(), 0);
    assert_eq!(t.count_nodes(), 1);
}
