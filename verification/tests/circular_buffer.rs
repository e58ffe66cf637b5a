use light_sampler::circular_buffer::{BufferError, CircularBuffer};

#[test]
fn test_push() {
    let mut buffer = CircularBuffer::new(3).unwrap();
    buffer.push(1);
    buffer.push(2);
    buffer.push(3);
    assert_eq!(buffer.buffer(), &vec![Some(1), Some(2), Some(3)]);
    buffer.push(4);
    assert_eq!(buffer.buffer(), &vec![Some(4), Some(2), Some(3)]);
}

#[test]
fn test_pop() {
    let mut buffer = CircularBuffer::new(3).unwrap();
    buffer.push(1);
    buffer.push(2);
    buffer.push(3);
    assert_eq!(buffer.pop(), Some(1));
    assert_eq!(buffer.buffer(), &vec![None, Some(2), Some(3)]);
}

#[test]
fn test_is_full() {
    let mut buffer = CircularBuffer::new(2).unwrap();
    buffer.push(1);
    buffer.push(2);
    assert_eq!(buffer.is_full(), true);
}

#[test]
fn test_is_empty() {
    let mut buffer = CircularBuffer::new(2).unwrap();
    assert_eq!(buffer.is_empty(), true);
    buffer.push(1);
    assert_eq!(buffer.is_empty(), false);
}

#[test]
fn test_get_latest_samples() {
    let mut buffer = CircularBuffer::new(10).unwrap();
    for i in 0..=10 {
        buffer.push(i);
    }
    println!("{:?}", buffer.get_latest_samples(10));
    assert_eq!(buffer.get_latest_samples(4), Ok(vec![7, 8, 9, 10]));
    for i in 11..=15 {
        buffer.push(i);
    }
    println!("{:?}", buffer.get_latest_samples(10));
    assert_eq!(buffer.get_latest_samples(3), Ok(vec![13, 14, 15]));
}

#[test]
fn test_resize() {
    let mut buffer = CircularBuffer::new(3).unwrap();
    buffer.push(1);
    buffer.push(2);
    buffer.push(3);
    assert_eq!(buffer.resize(2), Ok(()));
    println!("{:?}", buffer.get_latest_samples(2));
    assert_eq!(buffer.buffer(), &vec![Some(2), Some(3)]);
    assert_eq!(buffer.size(), 2);
}

#[test]
fn new_refuses_zero_capacity() {
    let refused = CircularBuffer::<i32>::new(0);
    assert!(matches!(refused, Err(BufferError::InvalidCapacity)));
}

#[test]
fn new_buffer_is_empty_with_all_slots_free() {
    let buffer = CircularBuffer::<i32>::new(4).unwrap();
    assert_eq!(buffer.capacity(), 4);
    assert_eq!(buffer.size(), 0);
    assert!(buffer.is_empty());
    assert!(!buffer.is_full());
    assert_eq!(buffer.buffer(), &vec![None, None, None, None]);
    assert_eq!(buffer.get_latest_samples(0), Ok(vec![]));
}

#[test]
fn pushes_up_to_capacity_come_back_in_order() {
    for capacity in 1..=6usize {
        for count in 0..=capacity {
            let mut buffer = CircularBuffer::new(capacity).unwrap();
            let pushed: Vec<usize> = (0..count).map(|i| 100 + i).collect();
            for value in &pushed {
                buffer.push(*value);
            }
            assert_eq!(buffer.size(), count);
            assert_eq!(buffer.get_latest_samples(count), Ok(pushed));
        }
    }
}

#[test]
fn pushes_beyond_capacity_keep_the_newest() {
    for capacity in 1..=5usize {
        for count in capacity + 1..=3 * capacity + 1 {
            let mut buffer = CircularBuffer::new(capacity).unwrap();
            for value in 0..count {
                buffer.push(value);
            }
            let newest: Vec<usize> = (count - capacity..count).collect();
            assert!(buffer.is_full());
            assert_eq!(buffer.size(), capacity);
            assert_eq!(buffer.get_latest_samples(capacity), Ok(newest));
        }
    }
}

#[test]
fn push_on_full_buffer_discards_the_oldest() {
    let mut buffer = CircularBuffer::new(3).unwrap();
    for value in [1, 2, 3, 4] {
        buffer.push(value);
    }
    assert_eq!(buffer.size(), 3);
    assert_eq!(buffer.get_latest_samples(3), Ok(vec![2, 3, 4]));
    assert_eq!(buffer.get_latest_samples(2), Ok(vec![3, 4]));
    assert_eq!(buffer.pop(), Some(2));
}

#[test]
fn latest_zero_gives_nothing_without_error() {
    let mut buffer = CircularBuffer::new(3).unwrap();
    buffer.push(7);
    assert_eq!(buffer.get_latest_samples(0), Ok(vec![]));
}

#[test]
fn latest_beyond_count_is_refused() {
    let mut buffer = CircularBuffer::new(3).unwrap();
    assert_eq!(buffer.get_latest_samples(1), Err(BufferError::RequestExceedsAvailable));
    buffer.push(7);
    buffer.push(8);
    assert_eq!(buffer.get_latest_samples(3), Err(BufferError::RequestExceedsAvailable));
    assert_eq!(buffer.get_latest_samples(2), Ok(vec![7, 8]));
    assert_eq!(buffer.size(), 2);
}

#[test]
fn latest_of_whole_capacity_after_wrapping() {
    let mut buffer = CircularBuffer::new(4).unwrap();
    for value in 1..=6 {
        buffer.push(value);
    }
    assert_eq!(buffer.buffer(), &vec![Some(5), Some(6), Some(3), Some(4)]);
    assert_eq!(buffer.get_latest_samples(4), Ok(vec![3, 4, 5, 6]));
    assert_eq!(buffer.get_latest_samples(1), Ok(vec![6]));
}

#[test]
fn pop_drains_oldest_first() {
    let mut buffer = CircularBuffer::new(3).unwrap();
    assert_eq!(buffer.pop(), None);
    for value in [1, 2, 3, 4, 5] {
        buffer.push(value);
    }
    assert_eq!(buffer.pop(), Some(3));
    assert_eq!(buffer.pop(), Some(4));
    assert_eq!(buffer.size(), 1);
    assert_eq!(buffer.buffer(), &vec![None, Some(5), None]);
    buffer.push(6);
    assert_eq!(buffer.buffer(), &vec![None, Some(5), Some(6)]);
    assert_eq!(buffer.pop(), Some(5));
    assert_eq!(buffer.pop(), Some(6));
    assert_eq!(buffer.pop(), None);
    assert!(buffer.is_empty());
    assert_eq!(buffer.buffer(), &vec![None, None, None]);
}

#[test]
fn resize_refuses_zero_and_changes_nothing() {
    let mut buffer = CircularBuffer::new(3).unwrap();
    for value in [1, 2, 3, 4] {
        buffer.push(value);
    }
    assert_eq!(buffer.resize(0), Err(BufferError::InvalidCapacity));
    assert_eq!(buffer.capacity(), 3);
    assert_eq!(buffer.size(), 3);
    assert_eq!(buffer.buffer(), &vec![Some(4), Some(2), Some(3)]);
}

#[test]
fn resize_then_latest_gives_the_newest_from_before() {
    for capacity in 1..=5usize {
        for count in 0..=2 * capacity {
            for new_capacity in 1..=7usize {
                let mut buffer = CircularBuffer::new(capacity).unwrap();
                for value in 0..count {
                    buffer.push(value);
                }
                let held = buffer.size();
                let kept = held.min(new_capacity);
                let before = buffer.get_latest_samples(kept).unwrap();
                assert_eq!(buffer.resize(new_capacity), Ok(()));
                assert_eq!(buffer.capacity(), new_capacity);
                assert_eq!(buffer.size(), kept);
                assert_eq!(buffer.get_latest_samples(kept), Ok(before));
            }
        }
    }
}

#[test]
fn resize_lays_the_kept_values_out_from_the_first_slot() {
    let mut buffer = CircularBuffer::new(3).unwrap();
    for value in [1, 2, 3, 4, 5] {
        buffer.push(value);
    }
    assert_eq!(buffer.buffer(), &vec![Some(4), Some(5), Some(3)]);
    assert_eq!(buffer.resize(5), Ok(()));
    assert_eq!(buffer.buffer(), &vec![Some(3), Some(4), Some(5), None, None]);
    buffer.push(6);
    assert_eq!(buffer.buffer(), &vec![Some(3), Some(4), Some(5), Some(6), None]);
    assert_eq!(buffer.resize(4), Ok(()));
    assert!(buffer.is_full());
    buffer.push(7);
    assert_eq!(buffer.buffer(), &vec![Some(7), Some(4), Some(5), Some(6)]);
}

#[test]
fn resize_to_same_capacity_keeps_content_and_order() {
    let mut buffer = CircularBuffer::new(4).unwrap();
    for value in 1..=6 {
        buffer.push(value);
    }
    assert_eq!(buffer.resize(4), Ok(()));
    assert_eq!(buffer.capacity(), 4);
    assert_eq!(buffer.get_latest_samples(4), Ok(vec![3, 4, 5, 6]));
    assert_eq!(buffer.resize(4), Ok(()));
    assert_eq!(buffer.get_latest_samples(4), Ok(vec![3, 4, 5, 6]));

    let mut partly = CircularBuffer::new(4).unwrap();
    partly.push(1);
    partly.push(2);
    assert_eq!(partly.resize(4), Ok(()));
    assert_eq!(partly.size(), 2);
    assert_eq!(partly.get_latest_samples(2), Ok(vec![1, 2]));
}

#[test]
fn resize_below_occupancy_drops_the_oldest() {
    let mut buffer = CircularBuffer::new(3).unwrap();
    buffer.push(1);
    buffer.push(2);
    buffer.push(3);
    assert_eq!(buffer.resize(2), Ok(()));
    assert_eq!(buffer.size(), 2);
    assert_eq!(buffer.capacity(), 2);
    assert_eq!(buffer.get_latest_samples(2), Ok(vec![2, 3]));
    assert!(buffer.is_full());
}

#[test]
fn samples_of_a_type_that_is_not_copy() {
    let mut buffer = CircularBuffer::new(2).unwrap();
    buffer.push(String::from("a"));
    buffer.push(String::from("b"));
    buffer.push(String::from("c"));
    assert_eq!(
        buffer.get_latest_samples(2),
        Ok(vec![String::from("b"), String::from("c")])
    );
    assert_eq!(buffer.pop(), Some(String::from("b")));
}
