use tokenizer_utils::batch::{window_size_for, BatchWorkQueue, ResultVec, TakeVec, WindowCursor};

#[test]
fn test_batch_work_queue_single_thread() {
    // 20 items, 1 thread => target 4 windows => window_size = 5.
    let queue = BatchWorkQueue::new(20, 1);
    let mut ranges = Vec::new();
    while let Some(range) = queue.claim_window() {
        ranges.push(range);
    }
    assert_eq!(ranges.len(), 4);
    assert_eq!(ranges[0], (0, 5));
    assert_eq!(ranges[1], (5, 10));
    assert_eq!(ranges[2], (10, 15));
    assert_eq!(ranges[3], (15, 20));
}

#[test]
fn test_batch_work_queue_many_threads() {
    // 100 items, 16 threads => target 64 windows => window_size = 2.
    let queue = BatchWorkQueue::new(100, 16);
    let mut ranges = Vec::new();
    while let Some(range) = queue.claim_window() {
        ranges.push(range);
    }
    assert_eq!(ranges.len(), 50);
    assert_eq!(ranges[0], (0, 2));
    assert_eq!(ranges[49], (98, 100));
}

#[test]
fn test_batch_work_queue_window_capped() {
    // 10000 items, 4 threads => target 16 windows => window_size = 625,
    // but capped at MAX_WINDOW_SIZE (8).
    let queue = BatchWorkQueue::new(10000, 4);
    let mut count = 0;
    while queue.claim_window().is_some() {
        count += 1;
    }
    // 10000 / 8 = 1250 windows.
    assert_eq!(count, 1250);
}

#[test]
fn test_batch_work_queue_empty() {
    let queue = BatchWorkQueue::new(0, 4);
    assert!(queue.claim_window().is_none());
}

#[test]
fn test_take_vec() {
    let mut tv = TakeVec::new(vec![10, 20, 30]);
    assert_eq!(tv.take(1), 20);
    assert_eq!(tv.take(0), 10);
    assert_eq!(tv.take(2), 30);
}

#[test]
fn test_result_vec() {
    let mut rv = ResultVec::<i32>::new(3);
    rv.set(2, 30);
    rv.set(0, 10);
    rv.set(1, 20);
    assert_eq!(rv.into_vec(), vec![10, 20, 30]);
}

#[test]
fn window_sizes() {
    assert_eq!(window_size_for(100, 16), 2);
    assert_eq!(window_size_for(10000, 16), 8);
    assert_eq!(window_size_for(20, 1), 5);
    assert_eq!(window_size_for(0, 4), 1);
    // No thread at all counts as one window.
    assert_eq!(window_size_for(3, 0), 3);
    assert_eq!(window_size_for(1000, 0), 8);
}

#[test]
fn window_size_with_a_huge_number_of_threads() {
    assert_eq!(window_size_for(0, usize::MAX), 1);
    assert_eq!(window_size_for(usize::MAX - 4, 1), 8);
}

#[test]
fn window_at_every_kind_of_position() {
    let queue = BatchWorkQueue::new(23, 1);
    // 23 items in windows of 6.
    assert_eq!(queue.window_at(0), Some((0, 6)));
    assert_eq!(queue.window_at(12), Some((12, 18)));
    assert_eq!(queue.window_at(18), Some((18, 23)));
    assert_eq!(queue.window_at(22), Some((22, 23)));
    assert_eq!(queue.window_at(23), None);
    assert_eq!(queue.window_at(24), None);
    assert_eq!(queue.window_at(usize::MAX), None);
}

#[test]
fn claims_past_the_end_stay_empty() {
    let queue = BatchWorkQueue::new(1, 1);
    assert_eq!(queue.claim_window(), Some((0, 1)));
    assert_eq!(queue.claim_window(), None);
    assert_eq!(queue.claim_window(), None);
}

#[test]
fn cursor_and_queue_hand_out_the_same_windows() {
    for total in 0..60 {
        for threads in 0..4 {
            let queue = BatchWorkQueue::new(total, threads);
            let mut cursor = WindowCursor::new(total, threads);
            let mut seen = vec![0; total];
            loop {
                let claimed = queue.claim_window();
                assert_eq!(claimed, cursor.claim_window());
                match claimed {
                    Some((start, end)) => {
                        assert!(start < end && end <= total);
                        for i in start..end {
                            seen[i] += 1;
                        }
                    }
                    None => break,
                }
            }
            // Every item is in exactly one window.
            assert!(seen.iter().all(|&n| n == 1));
        }
    }
}

#[test]
fn threads_get_their_windows_when_there_are_enough_items() {
    // 64 windows aimed at, 127 items in windows of 2: exactly 64 windows.
    let queue = BatchWorkQueue::new(127, 16);
    let mut count = 0;
    while queue.claim_window().is_some() {
        count += 1;
    }
    assert_eq!(count, 64);
}

#[test]
fn windows_move_every_input_to_its_result() {
    let n = 100;
    let queue = BatchWorkQueue::new(n, 4);
    let mut inputs = TakeVec::new((0..n).collect::<Vec<usize>>());
    let mut results = ResultVec::new(n);
    while let Some((start, end)) = queue.claim_window() {
        for i in (start..end).rev() {
            let input = inputs.take(i);
            results.set(i, input * 2);
        }
    }
    let v = results.into_vec();
    for i in 0..n {
        assert_eq!(v[i], i * 2);
    }
}

#[test]
fn empty_vecs() {
    let _ = TakeVec::<String>::new(vec![]);
    assert_eq!(ResultVec::<String>::new(0).into_vec(), Vec::<String>::new());
}

#[test]
fn a_result_can_be_written_again() {
    let mut rv = ResultVec::new(1);
    rv.set(0, "a");
    rv.set(0, "b");
    assert_eq!(rv.into_vec(), vec!["b"]);
}

#[test]
fn slots_know_what_they_hold() {
    let mut tv = TakeVec::new(vec!["a", "b"]);
    assert!(tv.holds(1));
    assert_eq!(tv.take(1), "b");
    assert!(!tv.holds(1));
    assert!(tv.holds(0));
    assert!(!tv.holds(2));
    let mut rv = ResultVec::new(2);
    assert_eq!(rv.len(), 2);
    assert!(!rv.is_complete());
    rv.set(1, 1);
    assert!(!rv.is_complete());
    rv.set(0, 0);
    assert!(rv.is_complete());
}
