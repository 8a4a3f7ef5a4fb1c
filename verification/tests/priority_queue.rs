use lossless_codecs::priority_queue::PriorityQueue;

#[test]
fn new_queue_is_empty() {
    let mut queue: PriorityQueue<u8> = PriorityQueue::new();
    assert!(queue.is_empty());
    assert!(!queue.is_single());
    assert_eq!(queue.len(), 0);
    assert!(queue.pop().is_none());
}

#[test]
fn queue_counts_its_items() {
    let mut queue: PriorityQueue<u8> = PriorityQueue::new();
    queue.insert(4, 1);
    assert!(queue.is_single());
    assert_eq!(queue.len(), 1);
    queue.insert(2, 2);
    assert!(!queue.is_single());
    assert!(!queue.is_empty());
    assert_eq!(queue.len(), 2);
}

#[test]
fn queue_hands_out_the_lightest_first() {
    let mut queue: PriorityQueue<char> = PriorityQueue::new();
    queue.insert(7, 'a');
    queue.insert(1, 'b');
    queue.insert(9, 'c');
    queue.insert(3, 'd');
    let mut out = Vec::new();
    while let Some(item) = queue.pop() {
        out.push((item.weight, item.value));
    }
    assert_eq!(out, vec![(1, 'b'), (3, 'd'), (7, 'a'), (9, 'c')]);
}

#[test]
fn queue_hands_out_equal_weights_in_the_order_of_insertion() {
    let mut queue: PriorityQueue<char> = PriorityQueue::new();
    queue.insert(5, 'a');
    queue.insert(3, 'b');
    queue.insert(5, 'c');
    queue.insert(3, 'd');
    queue.insert(5, 'e');
    let mut out = Vec::new();
    while let Some(item) = queue.pop() {
        out.push(item.value);
    }
    assert_eq!(out, vec!['b', 'd', 'a', 'c', 'e']);
}

#[test]
fn queue_takes_items_between_pops() {
    let mut queue: PriorityQueue<u8> = PriorityQueue::new();
    queue.insert(2, 20);
    queue.insert(1, 10);
    assert_eq!(queue.pop().map(|w| w.value), Some(10));
    queue.insert(0, 5);
    queue.insert(2, 21);
    assert_eq!(queue.pop().map(|w| w.value), Some(5));
    assert_eq!(queue.pop().map(|w| w.value), Some(20));
    assert_eq!(queue.pop().map(|w| w.value), Some(21));
    assert!(queue.pop().is_none());
}

#[test]
fn queue_orders_many_items_by_weight_then_by_arrival() {
    let mut queue: PriorityQueue<usize> = PriorityQueue::new();
    let mut expected: Vec<(u32, usize)> = Vec::new();
    let mut state: u32 = 17;
    for arrival in 0..2000usize {
        state = state.wrapping_mul(1103515245).wrapping_add(12345);
        let weight = (state >> 16) % 50;
        queue.insert(weight, arrival);
        expected.push((weight, arrival));
    }
    expected.sort();
    assert_eq!(queue.len(), 2000);
    let mut out = Vec::new();
    while let Some(item) = queue.pop() {
        out.push((item.weight, item.value));
    }
    assert_eq!(out, expected);
    assert!(queue.is_empty());
}

#[test]
fn queue_keeps_the_order_of_arrival_through_pops_and_inserts() {
    let mut queue: PriorityQueue<usize> = PriorityQueue::new();
    let mut model: Vec<(u32, usize)> = Vec::new();
    let mut state: u32 = 5;
    for step in 0..5000usize {
        state = state.wrapping_mul(1664525).wrapping_add(1013904223);
        if (state >> 28) < 6 && !model.is_empty() {
            let mut first = 0;
            for i in 1..model.len() {
                if model[i].0 < model[first].0 {
                    first = i;
                }
            }
            let expected = model.remove(first);
            let item = queue.pop().unwrap();
            assert_eq!((item.weight, item.value), expected);
        } else {
            let weight = (state >> 8) % 7;
            queue.insert(weight, step);
            model.push((weight, step));
        }
        assert_eq!(queue.len(), model.len());
        assert_eq!(queue.is_single(), model.len() == 1);
    }
}

#[test]
fn queue_starts_afresh_after_it_has_run_empty() {
    let mut queue: PriorityQueue<char> = PriorityQueue::new();
    for round in 0..4 {
        queue.insert(2, 'x');
        queue.insert(1, 'y');
        queue.insert(2, 'z');
        assert_eq!(queue.len(), 3);
        let mut out = Vec::new();
        while let Some(item) = queue.pop() {
            out.push(item.value);
        }
        assert_eq!(out, vec!['y', 'x', 'z'], "round {}", round);
        assert!(queue.is_empty());
    }
}
