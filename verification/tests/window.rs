use window_scan::sliding_window::{SlidingWindow, WindowError};

fn filled(capacity: usize, values: &[u8]) -> SlidingWindow<u8> {
    let mut window = SlidingWindow::with_capacity(capacity);
    for value in values {
        window.push(*value);
    }
    window
}

fn logical(window: &SlidingWindow<u8>) -> Vec<u8> {
    let mut out = Vec::new();
    let mut index = 0;
    while let Some(item) = window.get(index) {
        out.push(*item);
        index += 1;
    }
    out
}

fn walked(window: &SlidingWindow<u8>) -> Vec<u8> {
    let mut out = Vec::new();
    let mut iter = window.iter();
    while let Some(item) = iter.next() {
        out.push(*item);
    }
    out
}

#[test]
fn new_window_is_empty() {
    let window: SlidingWindow<u8> = SlidingWindow::with_capacity(5);
    assert_eq!(window.capacity(), 5);
    assert_eq!(window.len(), 0);
    assert!(!window.is_full());
    assert_eq!(window.get(0), None);
    assert!(window.items().is_empty());
    assert!(window.iter().next().is_none());
}

#[test]
fn zero_capacity_is_refused() {
    let built: Result<SlidingWindow<u8>, WindowError> = SlidingWindow::try_with_capacity(0);
    assert!(matches!(built, Err(WindowError::ZeroCapacity)));
}

#[test]
fn positive_capacity_is_accepted() {
    let built: Result<SlidingWindow<u8>, WindowError> = SlidingWindow::try_with_capacity(1);
    let window = match built {
        Ok(window) => window,
        Err(error) => panic!("refused: {:?}", error),
    };
    assert_eq!(window.capacity(), 1);
    assert_eq!(window.len(), 0);
}

#[test]
fn three_pushes_fill_a_window_of_three() {
    let window = filled(3, &[1, 2, 3]);
    assert!(window.is_full());
    assert_eq!(window.len(), 3);
    assert_eq!(window.get(0), Some(&1));
    assert_eq!(window.get(1), Some(&2));
    assert_eq!(window.get(2), Some(&3));
}

#[test]
fn fourth_push_drops_the_oldest() {
    let mut window = filled(3, &[1, 2, 3]);
    window.push(4);
    assert!(window.is_full());
    assert_eq!(window.len(), 3);
    assert_eq!(window.get(0), Some(&2));
    assert_eq!(window.get(1), Some(&3));
    assert_eq!(window.get(2), Some(&4));
    assert_eq!(logical(&window), vec![2, 3, 4]);
}

#[test]
fn length_never_exceeds_capacity() {
    for capacity in 1..6usize {
        let mut window: SlidingWindow<u8> = SlidingWindow::with_capacity(capacity);
        for pushes in 1..20usize {
            window.push(pushes as u8);
            assert_eq!(window.capacity(), capacity);
            assert_eq!(window.len(), pushes.min(capacity));
            assert!(window.len() <= window.capacity());
            assert_eq!(window.is_full(), pushes >= capacity);
        }
    }
}

#[test]
fn full_window_stays_full() {
    let mut window = filled(4, &[1, 2, 3]);
    assert!(!window.is_full());
    window.push(4);
    assert!(window.is_full());
    for value in 5..40u8 {
        window.push(value);
        assert!(window.is_full());
        assert_eq!(window.len(), 4);
    }
}

#[test]
fn push_into_full_window_shifts_every_item_down_by_one() {
    let mut window = filled(5, &[10, 20, 30, 40, 50, 60, 70]);
    for value in 0..12u8 {
        let before = logical(&window);
        window.push(value);
        let after = logical(&window);
        assert_eq!(after.len(), 5);
        assert_eq!(after[4], value);
        for index in 1..5 {
            assert_eq!(after[index - 1], before[index]);
        }
    }
}

#[test]
fn push_into_partial_window_keeps_every_item_in_place() {
    let mut window = filled(5, &[7, 8]);
    window.push(9);
    assert_eq!(logical(&window), vec![7, 8, 9]);
    assert_eq!(window.len(), 3);
    assert!(!window.is_full());
}

#[test]
fn window_holds_the_last_pushes() {
    let stream: Vec<u8> = (0..50).collect();
    for capacity in 1..8usize {
        let window = filled(capacity, &stream);
        assert_eq!(logical(&window), stream[50 - capacity..].to_vec());
    }
}

#[test]
fn get_beyond_capacity_is_absent() {
    let empty: SlidingWindow<u8> = SlidingWindow::with_capacity(3);
    let partial = filled(3, &[1]);
    let full = filled(3, &[1, 2, 3, 4, 5]);
    for window in [&empty, &partial, &full] {
        assert_eq!(window.get(3), None);
        assert_eq!(window.get(4), None);
        assert_eq!(window.get(usize::MAX), None);
    }
}

#[test]
fn get_beyond_length_is_absent() {
    let window = filled(4, &[1, 2]);
    assert_eq!(window.get(0), Some(&1));
    assert_eq!(window.get(1), Some(&2));
    assert_eq!(window.get(2), None);
    assert_eq!(window.get(3), None);
}

#[test]
fn iter_follows_get_on_full_window() {
    let window = filled(4, &[1, 2, 3, 4, 5, 6]);
    let mut iter = window.iter();
    for index in 0..window.capacity() {
        assert_eq!(iter.next(), window.get(index));
    }
    assert_eq!(iter.next(), None);
    assert_eq!(walked(&window), vec![3, 4, 5, 6]);
}

#[test]
fn iter_follows_get_on_partial_window() {
    let window = filled(4, &[8, 9]);
    assert_eq!(walked(&window), vec![8, 9]);
    assert_eq!(walked(&window), logical(&window));
}

#[test]
fn iter_starts_with_the_oldest_item() {
    let window = filled(2, &[5, 6, 7]);
    let mut iter = window.iter();
    assert_eq!(iter.next(), Some(&6));
    assert_eq!(iter.next(), Some(&7));
}

#[test]
fn exhausted_iter_stays_exhausted() {
    let window = filled(2, &[1, 2]);
    let mut iter = window.iter();
    assert!(iter.next().is_some());
    assert!(iter.next().is_some());
    assert_eq!(iter.next(), None);
    assert_eq!(iter.next(), None);
    assert_eq!(iter.next(), None);
}

#[test]
fn each_iter_starts_afresh() {
    let window = filled(3, &[1, 2, 3, 4]);
    let mut first = window.iter();
    assert_eq!(first.next(), Some(&2));
    let mut second = window.iter();
    assert_eq!(second.next(), Some(&2));
    assert_eq!(first.next(), Some(&3));
}

#[test]
fn items_are_in_storage_order() {
    let mut window = filled(3, &[1, 2, 3]);
    assert_eq!(window.items(), &vec![1, 2, 3]);
    window.push(4);
    assert_eq!(window.items(), &vec![4, 2, 3]);
    window.push(5);
    assert_eq!(window.items(), &vec![4, 5, 3]);
    window.push(6);
    assert_eq!(window.items(), &vec![4, 5, 6]);
    window.push(7);
    assert_eq!(window.items(), &vec![7, 5, 6]);
    assert_eq!(logical(&window), vec![5, 6, 7]);
}

#[test]
fn items_of_partial_window_are_in_insertion_order() {
    let window = filled(5, &[3, 1, 2]);
    assert_eq!(window.items(), &vec![3, 1, 2]);
}

#[test]
fn wraps_round_many_times() {
    let stream: Vec<u8> = (0..10).collect();
    let window = filled(4, &stream);
    assert_eq!(logical(&window), vec![6, 7, 8, 9]);
    assert_eq!(window.items(), &vec![8, 9, 6, 7]);
}

#[test]
fn window_of_one_holds_the_newest() {
    let mut window: SlidingWindow<u8> = SlidingWindow::with_capacity(1);
    assert!(!window.is_full());
    window.push(3);
    assert!(window.is_full());
    assert_eq!(window.get(0), Some(&3));
    window.push(4);
    assert_eq!(window.get(0), Some(&4));
    assert_eq!(window.get(1), None);
    assert_eq!(window.len(), 1);
}

#[test]
fn largest_capacity_is_usable() {
    let mut window: SlidingWindow<u8> = SlidingWindow::with_capacity(usize::MAX);
    assert_eq!(window.capacity(), usize::MAX);
    window.push(1);
    window.push(2);
    assert_eq!(window.len(), 2);
    assert!(!window.is_full());
    assert_eq!(window.get(0), Some(&1));
    assert_eq!(window.get(1), Some(&2));
    assert_eq!(window.get(2), None);
    assert_eq!(window.get(usize::MAX - 1), None);
    assert_eq!(window.get(usize::MAX), None);
}

#[test]
fn window_owns_items_that_are_not_copied() {
    let mut window: SlidingWindow<String> = SlidingWindow::with_capacity(2);
    window.push(String::from("a"));
    window.push(String::from("b"));
    window.push(String::from("c"));
    assert_eq!(window.get(0).map(|s| s.as_str()), Some("b"));
    assert_eq!(window.get(1).map(|s| s.as_str()), Some("c"));
    assert_eq!(window.get(2), None);
}

#[test]
fn window_of_pairs_keeps_positions() {
    let mut window: SlidingWindow<(usize, u8)> = SlidingWindow::with_capacity(2);
    for pair in b"xyz".iter().copied().enumerate() {
        window.push(pair);
    }
    assert_eq!(window.get(0), Some(&(1, b'y')));
    assert_eq!(window.get(1), Some(&(2, b'z')));
}
