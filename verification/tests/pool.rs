use tokenizer_utils::barrier::{is_released, on_arrival, pause_after, Arrival, Pause, SpinBarrier};
use tokenizer_utils::decimal::parse;
use tokenizer_utils::pool::{barrier_size, next_phase, WorkerPhase};
use tokenizer_utils::topology::{count_siblings, has_siblings, pool_size, topology};

#[test]
fn test_topology_detection() {
    for list in ["0", "0\n", "0-1\n", "0,64\n", "0-3", "x-1", ""] {
        for cpus in 1..9 {
            let (physical, _has_smt) = topology(Some(list), Some(list), Some(cpus));
            assert!(physical > 0);
        }
    }
    assert_eq!(topology(Some("0,64\n"), Some("0,64\n"), Some(128)), (64, true));
}

#[test]
fn cores_are_cpus_by_siblings() {
    assert_eq!(topology(Some("0-1\n"), Some("0-1\n"), Some(8)), (4, true));
    assert_eq!(topology(Some("0-3\n"), Some("0-3\n"), Some(9)), (2, true));
    assert_eq!(topology(Some("0,1\n"), Some("0,1\n"), Some(8)), (4, true));
    assert_eq!(topology(Some("0-3,8-11\n"), Some("0-3,8-11\n"), Some(16)), (2, true));
    assert_eq!(topology(Some("0,0\n"), Some("0,0\n"), Some(8)), (8, true));
    assert_eq!(topology(Some("0-1-2\n"), Some("0-1-2\n"), Some(12)), (4, true));
    assert_eq!(topology(Some("0\n"), Some("0\n"), Some(8)), (8, false));
    assert_eq!(topology(None, None, Some(8)), (8, false));
    assert_eq!(topology(None, None, None), (1, false));
    // A list that is not looked at does not matter.
    assert_eq!(topology(Some("0"), Some("9-1"), Some(8)), (8, false));
    // One CPU of a core with two threads is a core.
    assert_eq!(topology(Some("0-1\n"), Some("0-1\n"), Some(1)), (1, true));
    // The second read fails, cannot be read, or names one thread.
    assert_eq!(topology(Some("0-1"), None, Some(8)), (4, true));
    assert_eq!(topology(Some("0-1"), Some("a-b"), Some(8)), (4, true));
    assert_eq!(topology(Some("0-1"), Some("0"), Some(8)), (8, true));
}

#[test]
fn sibling_lists() {
    assert!(has_siblings("0-1"));
    assert!(has_siblings(" 0,64 \n"));
    assert!(!has_siblings("0\n"));
    assert!(!has_siblings(""));
    assert_eq!(count_siblings("0-1\n"), Some(2));
    assert_eq!(count_siblings("\t0,64\u{3000}"), Some(2));
    assert_eq!(count_siblings("0-3,8-11"), Some(8));
    assert_eq!(count_siblings("0,4-5,64"), Some(4));
    assert_eq!(count_siblings("3-3"), Some(1));
    // A CPU that is named twice counts once.
    assert_eq!(count_siblings("0,0"), Some(1));
    assert_eq!(count_siblings("0-3,2-5"), Some(6));
    assert_eq!(count_siblings("8-11,0,9,2-3,0-1"), Some(8));
    assert_eq!(count_siblings("2,1"), Some(2));
    // A malformed list runs from its first number to its last.
    assert_eq!(count_siblings("0-1-2"), Some(3));
    assert_eq!(count_siblings("0,x,2"), Some(3));
    assert_eq!(count_siblings("0,,1"), Some(2));
    assert_eq!(count_siblings("0-3,9-1"), Some(2));
    assert_eq!(count_siblings("7"), Some(1));
    assert_eq!(count_siblings(""), Some(1));
}

#[test]
fn unreadable_sibling_lists() {
    for list in ["-", ",", "0-", "-1", "0,", ",0", "0 - 1", "a-b", "0-1,x", "2-x-0", "9-1"] {
        assert_eq!(count_siblings(list), None, "{:?}", list);
    }
    // More CPUs than can be counted.
    let all = format!("0-{}", usize::MAX);
    assert_eq!(count_siblings(&all), None);
    let all_but_one = format!("1-{}", usize::MAX);
    assert_eq!(count_siblings(&all_but_one), Some(usize::MAX));
    let one_too_many = format!("1-{},0", usize::MAX);
    assert_eq!(count_siblings(&one_too_many), None);
}

#[test]
fn numbers_are_read_as_std_reads_them() {
    let max = format!("{}", usize::MAX);
    let over = format!("{}0", usize::MAX);
    let just_over = "18446744073709551616";
    for text in [
        "0", "7", "42", "+42", "+", "", "-1", "1 ", " 1", "007", "4x", "x4", "++1", "٣",
        max.as_str(), over.as_str(), just_over,
    ] {
        assert_eq!(parse(text), text.parse::<usize>().ok(), "{:?}", text);
    }
}

#[test]
fn pool_sizes() {
    assert_eq!(pool_size(Some("3"), Some(8)), 3);
    assert_eq!(pool_size(Some("0"), Some(8)), 0);
    assert_eq!(pool_size(Some("many"), Some(8)), 8);
    assert_eq!(pool_size(None, Some(8)), 8);
    assert_eq!(pool_size(Some(""), None), 1);
    assert_eq!(pool_size(None, None), 1);
    assert_eq!(barrier_size(4), 5);
}

#[test]
fn arrivals() {
    assert_eq!(on_arrival(0, 5, 3), Arrival::Wait { generation: 5 });
    assert_eq!(on_arrival(1, 5, 3), Arrival::Wait { generation: 5 });
    assert_eq!(on_arrival(2, 5, 3), Arrival::Last { next_generation: 6 });
    assert_eq!(on_arrival(0, usize::MAX, 1), Arrival::Last { next_generation: 0 });
    assert!(!is_released(5, 5));
    assert!(is_released(6, 5));
    assert!(is_released(0, usize::MAX));
}

#[test]
fn pauses() {
    assert_eq!(pause_after(0, true), (Pause::Spin, 1));
    assert_eq!(pause_after(63, true), (Pause::Spin, 64));
    assert_eq!(pause_after(64, true), (Pause::WaitForInterrupt, 64));
    assert_eq!(pause_after(64, false), (Pause::Spin, 64));
}

#[test]
fn a_barrier_goes_through_its_rounds() {
    let barrier = SpinBarrier::new(3, (8, true));
    for round in 0..5 {
        assert_eq!(barrier.arrive(), Arrival::Wait { generation: round });
        assert_eq!(barrier.arrive(), Arrival::Wait { generation: round });
        assert!(!barrier.released(round));
        assert_eq!(barrier.arrive(), Arrival::Last { next_generation: round + 1 });
        assert!(barrier.released(round));
    }
}

#[test]
fn barriers_wait_for_interrupts_when_oversubscribed() {
    assert!(SpinBarrier::new(10, (8, true)).use_wfi());
    assert!(!SpinBarrier::new(9, (8, true)).use_wfi());
    assert!(!SpinBarrier::new(8, (8, true)).use_wfi());
    assert!(!SpinBarrier::new(10, (8, false)).use_wfi());
    assert!(!SpinBarrier::new(barrier_size(88), (88, true)).use_wfi());
    assert!(SpinBarrier::new(barrier_size(89), (88, true)).use_wfi());
    assert!(SpinBarrier::new(barrier_size(176), (88, true)).use_wfi());
    assert!(!SpinBarrier::new(0, (0, true)).use_wfi());
    assert!(!SpinBarrier::new(usize::MAX, (usize::MAX, true)).use_wfi());
}

#[test]
fn worker_phases() {
    assert_eq!(next_phase(WorkerPhase::AtStart, false), WorkerPhase::Running);
    assert_eq!(next_phase(WorkerPhase::AtStart, true), WorkerPhase::Exited);
    assert_eq!(next_phase(WorkerPhase::Running, false), WorkerPhase::AtDone);
    assert_eq!(next_phase(WorkerPhase::AtDone, false), WorkerPhase::AtStart);
    assert_eq!(next_phase(WorkerPhase::Exited, false), WorkerPhase::Exited);
}
