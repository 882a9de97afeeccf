use fib_heap::head_heap::FibonacciHeap;

fn pops_ascending_check(mut xs: Vec<u32>) {
    let mut heap = FibonacciHeap::new();

    for x in &xs {
        heap.push(*x);
    }

    xs.sort();
    xs.reverse();

    while let Some(b) = heap.pop() {
        let a = xs.pop();
        assert_eq!(a, Some(b), "should pop in ascending order");
    }
    assert!(xs.is_empty());
}

#[test]
fn v1_pops_by_min_01() {
    pops_ascending_check(vec![0, 0, 0, 1, 1]);
}

#[test]
fn v1_empty_heap() {
    let mut heap: FibonacciHeap<u32> = FibonacciHeap::new();
    assert_eq!(heap.peek(), None);
    assert_eq!(heap.pop(), None);
    assert_eq!(heap.len(), 0);
}

#[test]
fn v1_peek_tracks_min() {
    let mut heap = FibonacciHeap::new();
    heap.push(5u32);
    heap.push(3);
    heap.push(8);
    heap.push(1);
    assert_eq!(heap.peek(), Some(&1));
}

#[test]
fn v1_single_roundtrip() {
    let mut heap = FibonacciHeap::new();
    heap.push(42u32);
    assert_eq!(heap.pop(), Some(42));
    assert_eq!(heap.len(), 0);
    assert_eq!(heap.peek(), None);
}

#[test]
fn v1_full_drain_sorted() {
    let mut heap = FibonacciHeap::from_vec(vec![7u32, 2, 9, 2, 5, 1, 1, 8]);
    let mut out = Vec::new();
    while let Some(x) = heap.pop() {
        out.push(x);
    }
    assert_eq!(out, vec![1, 1, 2, 2, 5, 7, 8, 9]);
}

#[test]
fn v1_interleaved() {
    let mut heap = FibonacciHeap::new();
    heap.push(10u32);
    heap.push(3);
    assert_eq!(heap.peek(), Some(&3));
    assert_eq!(heap.pop(), Some(3));
    assert_eq!(heap.peek(), Some(&10));
    heap.push(1);
    assert_eq!(heap.peek(), Some(&1));
    assert_eq!(heap.pop(), Some(1));
    assert_eq!(heap.peek(), Some(&10));
    assert_eq!(heap.pop(), Some(10));
    assert_eq!(heap.peek(), None);
    assert_eq!(heap.len(), 0);
}

#[test]
fn v1_push_monotonicity() {
    let mut heap = FibonacciHeap::new();
    heap.push(4u32);
    assert_eq!(heap.peek(), Some(&4));
    heap.push(6);
    assert_eq!(heap.peek(), Some(&4), "pushing above the minimum keeps it");
    heap.push(4);
    assert_eq!(heap.peek(), Some(&4), "pushing a tie makes it the minimum");
    heap.push(2);
    assert_eq!(heap.peek(), Some(&2), "pushing below the minimum replaces it");
}

#[test]
fn v1_size_accounting() {
    let xs = vec![9u32, 4, 7, 7, 0, 3];
    let mut heap = FibonacciHeap::new();
    for (i, x) in xs.iter().enumerate() {
        heap.push(*x);
        assert_eq!(heap.len(), i + 1);
    }
    heap.pop();
    assert_eq!(heap.len(), xs.len() - 1);
    while heap.pop().is_some() {}
    assert_eq!(heap.len(), 0);
    assert_eq!(heap.pop(), None);
    assert_eq!(heap.len(), 0, "popping an empty heap leaves len at 0");
}

#[test]
fn v1_from_vec_matches_pushes() {
    let xs = vec![6u32, 6, 0, 2, 11];
    let mut a = FibonacciHeap::from_vec(xs.clone());
    let mut b = FibonacciHeap::new();
    for x in &xs {
        b.push(*x);
    }
    assert_eq!(a.len(), b.len());
    loop {
        let (x, y) = (a.pop(), b.pop());
        assert_eq!(x, y);
        if x.is_none() {
            break;
        }
    }
}

#[test]
fn v1_large_drain() {
    let mut xs: Vec<u32> = (0..200).map(|i| (i * 37) % 101).collect();
    let mut heap = FibonacciHeap::from_vec(xs.clone());
    xs.sort();
    let mut out = Vec::new();
    while let Some(x) = heap.pop() {
        out.push(x);
    }
    assert_eq!(out, xs);
}
