use simple_clustering::queue::{precedes, SnicElement, SnicQueue};

fn element(distance: u128, k: usize, x: u32, y: u32) -> SnicElement {
    SnicElement { distance, k, x, y }
}

#[test]
fn queue_hands_out_the_lowest_distance_first() {
    let mut queue = SnicQueue::new();
    for distance in [50u128, 10, 40, 30, 20, 60, 0, 70] {
        queue.push(element(distance, 1, 0, 0));
    }
    assert_eq!(queue.len(), 8);
    let mut order = Vec::new();
    while let Some(e) = queue.pop() {
        order.push(e.distance);
    }
    assert_eq!(order, vec![0, 10, 20, 30, 40, 50, 60, 70]);
    assert!(queue.is_empty());
    assert_eq!(queue.pop(), None);
}

#[test]
fn queue_breaks_ties_by_label_column_and_row() {
    let mut queue = SnicQueue::new();
    queue.push(element(5, 2, 0, 0));
    queue.push(element(5, 1, 3, 0));
    queue.push(element(5, 1, 2, 9));
    queue.push(element(5, 1, 2, 4));
    queue.push(element(4, 9, 9, 9));
    assert_eq!(queue.pop(), Some(element(4, 9, 9, 9)));
    assert_eq!(queue.pop(), Some(element(5, 1, 2, 4)));
    assert_eq!(queue.pop(), Some(element(5, 1, 2, 9)));
    assert_eq!(queue.pop(), Some(element(5, 1, 3, 0)));
    assert_eq!(queue.pop(), Some(element(5, 2, 0, 0)));
    assert_eq!(queue.pop(), None);
}

#[test]
fn queue_keeps_equal_elements() {
    let mut queue = SnicQueue::new();
    queue.push(element(1, 1, 1, 1));
    queue.push(element(1, 1, 1, 1));
    assert_eq!(queue.len(), 2);
    assert_eq!(queue.pop(), Some(element(1, 1, 1, 1)));
    assert_eq!(queue.pop(), Some(element(1, 1, 1, 1)));
    assert!(queue.is_empty());
}

#[test]
fn queue_takes_pushes_between_pops() {
    let mut queue = SnicQueue::new();
    queue.push(element(9, 1, 0, 0));
    queue.push(element(3, 1, 0, 0));
    assert_eq!(queue.pop().unwrap().distance, 3);
    queue.push(element(1, 1, 0, 0));
    queue.push(element(12, 1, 0, 0));
    assert_eq!(queue.pop().unwrap().distance, 1);
    assert_eq!(queue.pop().unwrap().distance, 9);
    assert_eq!(queue.pop().unwrap().distance, 12);
}

#[test]
fn precedes_orders_by_distance_first() {
    assert!(precedes(&element(1, 9, 9, 9), &element(2, 0, 0, 0)));
    assert!(!precedes(&element(2, 0, 0, 0), &element(1, 9, 9, 9)));
    assert!(precedes(&element(1, 1, 9, 9), &element(1, 2, 0, 0)));
    assert!(precedes(&element(1, 1, 1, 9), &element(1, 1, 2, 0)));
    assert!(precedes(&element(1, 1, 1, 1), &element(1, 1, 1, 2)));
    assert!(precedes(&element(1, 1, 1, 1), &element(1, 1, 1, 1)));
    assert!(!precedes(&element(1, 1, 1, 2), &element(1, 1, 1, 1)));
}
