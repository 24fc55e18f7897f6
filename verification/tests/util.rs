use wsroom::bytesutil::{bytes_eq, contains_seq, find_byte};
use wsroom::calc::{find_operator, split_command};
use wsroom::primes::{find_primes, is_prime};
use wsroom::sched::{should_exit, should_wait, Work, WorkList};

#[test]
fn primality_by_trial_division() {
    let primes = [2u32, 3, 5, 7, 11, 13, 97, 7919];
    for p in primes {
        assert!(is_prime(p));
    }
    let composites = [0u32, 1, 4, 6, 9, 15, 91, 7917];
    for c in composites {
        assert!(!is_prime(c));
    }
}

#[test]
fn strided_prime_search() {
    assert_eq!(find_primes(2, 30, 1), vec![2, 3, 5, 7, 11, 13, 17, 19, 23, 29]);
    // Stride three starting at two: 2, 5, 8, 11, …
    assert_eq!(find_primes(2, 30, 3), vec![2, 5, 11, 17, 23, 29]);
    assert_eq!(find_primes(20, 10, 1), Vec::<u32>::new());
}

#[test]
fn work_until_saturates_at_zero() {
    let w = Work { when: 100, task: 7 };
    assert_eq!(w.until(40), 60);
    assert_eq!(w.until(100), 0);
    assert_eq!(w.until(160), 0);
}

#[test]
fn worklist_drains_soonest_first() {
    let mut list = WorkList::new();
    list.push(Work { when: 50, task: 1 });
    list.push(Work { when: 10, task: 2 });
    list.push(Work { when: 30, task: 3 });
    assert_eq!(list.len(), 3);
    assert_eq!(list.pop().unwrap(), Work { when: 10, task: 2 });
    assert_eq!(list.pop().unwrap(), Work { when: 30, task: 3 });
    assert_eq!(list.pop().unwrap(), Work { when: 50, task: 1 });
    assert!(list.pop().is_none());
}

#[test]
fn soonest_and_availability_follow_the_clock() {
    let mut list = WorkList::new();
    assert_eq!(list.soonest(0), u64::MAX);
    assert!(!list.work_available(0));
    list.push(Work { when: 25, task: 1 });
    assert_eq!(list.soonest(5), 20);
    assert!(!list.work_available(24));
    assert!(list.work_available(25));
    assert!(list.work_available(90));
    assert_eq!(list.soonest(90), 0);
}

#[test]
fn worker_loop_decisions() {
    // Sleeps while nothing is due and no stop was requested.
    assert!(should_wait(false, 0, false));
    // Keeps waiting for pending-but-not-due work even after a stop.
    assert!(should_wait(true, 2, false));
    // Wakes as soon as work is due.
    assert!(!should_wait(false, 2, true));
    // Leaves once stopped with nothing pending.
    assert!(should_exit(true, 0));
    assert!(!should_exit(true, 1));
    assert!(!should_exit(false, 0));
}

#[test]
fn operator_priority_order_wins_over_position() {
    // '*' is tried before '+', so it is picked although '+' comes first.
    assert_eq!(find_operator(b"1+2*3"), Some((b'*', 3)));
    assert_eq!(find_operator(b"8/2"), Some((b'/', 1)));
    assert_eq!(find_operator(b"2^10"), Some((b'^', 1)));
    assert_eq!(find_operator(b"42"), None);
}

#[test]
fn command_splits_at_the_operator() {
    let (op, lhs, rhs) = split_command(b"3.5-1.25").unwrap();
    assert_eq!(op, b'-');
    assert_eq!(lhs, b"3.5".to_vec());
    assert_eq!(rhs, b"1.25".to_vec());
    assert!(split_command(b"17").is_none());
}

#[test]
fn byte_helpers() {
    assert!(bytes_eq(b"same", b"same"));
    assert!(!bytes_eq(b"same", b"sane"));
    assert!(contains_seq(b"keep-alive, Upgrade", b"Upgrade"));
    assert!(!contains_seq(b"keep-alive, upgrade", b"Upgrade"));
    assert!(contains_seq(b"anything", b""));
    assert_eq!(find_byte(b"a:b:c", b':'), Some(1));
    assert_eq!(find_byte(b"abc", b':'), None);
}

#[test]
fn worklist_tied_deadlines_all_come_out() {
    let mut list = WorkList::new();
    list.push(Work { when: 5, task: 1 });
    list.push(Work { when: 5, task: 2 });
    let first = list.pop().unwrap();
    let second = list.pop().unwrap();
    assert_eq!(first.when, 5);
    assert_eq!(second.when, 5);
    let mut tasks = vec![first.task, second.task];
    tasks.sort();
    assert_eq!(tasks, vec![1, 2]);
    assert!(list.pop().is_none());
}
