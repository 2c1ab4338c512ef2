use worldgen::queue::{Point, PointQueue};

#[test]
fn test_point_sorting_order() {
    let mut queue = PointQueue::new();
    queue.push(Point { x: 0, y: 0, z: 1 });
    queue.push(Point { x: 0, y: 0, z: 2 });

    let first = queue.pop().unwrap();
    let second = queue.pop().unwrap();

    assert!(first.z < second.z);
}

#[test]
fn empty_queue_pops_nothing() {
    let mut queue = PointQueue::new();
    assert!(queue.is_empty());
    assert_eq!(queue.len(), 0);
    assert_eq!(queue.pop(), None);
}

#[test]
fn queue_hands_out_lowest_first() {
    let mut queue = PointQueue::new();
    let heights = [5i64, -3, 9, 0, 7, -3, 2, 8, 1, 6, 4, 3];
    for (i, &z) in heights.iter().enumerate() {
        queue.push(Point { x: i, y: 0, z });
    }
    assert_eq!(queue.len(), heights.len());
    let mut out = Vec::new();
    while let Some(p) = queue.pop() {
        out.push(p.z);
    }
    let mut sorted = heights.to_vec();
    sorted.sort();
    assert_eq!(out, sorted);
    assert!(queue.is_empty());
}

#[test]
fn equal_heights_leave_by_column_then_row() {
    let mut queue = PointQueue::new();
    queue.push(Point { x: 2, y: 1, z: 4 });
    queue.push(Point { x: 1, y: 3, z: 4 });
    queue.push(Point { x: 1, y: 2, z: 4 });
    queue.push(Point { x: 0, y: 9, z: 5 });
    assert_eq!(queue.pop(), Some(Point { x: 1, y: 2, z: 4 }));
    assert_eq!(queue.pop(), Some(Point { x: 1, y: 3, z: 4 }));
    assert_eq!(queue.pop(), Some(Point { x: 2, y: 1, z: 4 }));
    assert_eq!(queue.pop(), Some(Point { x: 0, y: 9, z: 5 }));
    assert_eq!(queue.pop(), None);
}

#[test]
fn is_before_orders_points() {
    let a = Point { x: 1, y: 1, z: 0 };
    let b = Point { x: 0, y: 0, z: 1 };
    let c = Point { x: 1, y: 2, z: 0 };
    assert!(a.is_before(&b));
    assert!(!b.is_before(&a));
    assert!(a.is_before(&c));
    assert!(!a.is_before(&a));
}

#[test]
fn duplicates_are_kept() {
    let mut queue = PointQueue::new();
    let p = Point { x: 3, y: 4, z: 5 };
    queue.push(p);
    queue.push(p);
    assert_eq!(queue.len(), 2);
    assert_eq!(queue.pop(), Some(p));
    assert_eq!(queue.pop(), Some(p));
    assert_eq!(queue.pop(), None);
}
