use ring_fill::fill::{best_fill, fills_no_more_than};
use ring_fill::ring::{Ring, VisitResult};
use ring_fill::run::{run_ring, RunResult};
use ring_fill::steps::prime_steps;
use ring_fill::sweep::{sweep, sweep_with};

fn ratio(o: &RunResult) -> f64 {
    o.seen as f64 / (o.seen + o.unseen) as f64
}

#[test]
fn prime_steps_start_with_small_primes() {
    assert_eq!(prime_steps(10), vec![2, 3, 5, 7, 11, 13, 17, 19, 23, 29]);
    assert_eq!(prime_steps(0), Vec::<u64>::new());
}

#[test]
fn fresh_ring_is_empty_at_zero() {
    let ring = Ring::with_size(7);
    assert_eq!(ring.size(), 7);
    assert_eq!(ring.last(), 0);
    for p in 0..7 {
        assert!(!ring.has_visited(p));
    }
}

#[test]
fn visit_records_new_positions_and_stops_on_repeat() {
    let mut ring = Ring::with_size(5);
    assert_eq!(ring.visit(2), VisitResult::WasUnseen);
    assert_eq!(ring.last(), 2);
    assert!(ring.has_visited(2));
    assert_eq!(ring.visit(3), VisitResult::WasUnseen);
    assert_eq!(ring.last(), 0);
    assert!(ring.has_visited(0));
    assert_eq!(ring.visit(5), VisitResult::AlreadySaw);
    assert_eq!(ring.last(), 0);
    assert!(!ring.has_visited(1));
    assert!(!ring.has_visited(3));
    assert!(!ring.has_visited(4));
}

#[test]
fn visit_wraps_large_steps() {
    let mut ring = Ring::with_size(10);
    assert_eq!(ring.visit(u64::MAX), VisitResult::WasUnseen);
    assert_eq!(ring.last(), 5);
    assert_eq!(ring.visit(u64::MAX), VisitResult::WasUnseen);
    assert_eq!(ring.last(), 0);
    assert_eq!(ring.visit(u64::MAX), VisitResult::AlreadySaw);
}

#[test]
fn capacity_three_sees_one() {
    let r = run_ring(3, &prime_steps(10)).unwrap();
    assert_eq!(r, RunResult { seen: 1, unseen: 2 });
    assert!((ratio(&r) - 1.0 / 3.0).abs() < 1e-12);
}

#[test]
fn capacity_five_sees_two() {
    let r = run_ring(5, &prime_steps(10)).unwrap();
    assert_eq!(r, RunResult { seen: 2, unseen: 3 });
    assert!((ratio(&r) - 0.4).abs() < 1e-12);
}

#[test]
fn run_with_exhausted_steps_is_none() {
    assert_eq!(run_ring(5, &vec![2, 3]), None);
    assert_eq!(run_ring(5, &vec![]), None);
    assert_eq!(run_ring(5, &vec![2, 3, 5]), Some(RunResult { seen: 2, unseen: 3 }));
}

#[test]
fn outcomes_account_for_every_position() {
    let steps = prime_steps(200);
    for cap in 1..150u64 {
        let r = run_ring(cap, &steps).unwrap();
        assert_eq!(r.seen + r.unseen, cap);
        assert!(r.seen >= 1);
        assert!(r.seen <= cap);
    }
}

#[test]
fn run_terminates_within_capacity_plus_one_steps() {
    let steps: Vec<u64> = vec![1; 9];
    assert_eq!(run_ring(8, &steps), Some(RunResult { seen: 8, unseen: 0 }));
    assert_eq!(run_ring(8, &steps[..8].to_vec()), None);
}

#[test]
fn single_position_ring_sees_one() {
    for steps in [vec![2, 3], vec![1, 1, 1], vec![7, 100, 4], vec![u64::MAX, 0]] {
        assert_eq!(run_ring(1, &steps), Some(RunResult { seen: 1, unseen: 0 }));
    }
    assert_eq!(run_ring(1, &prime_steps(5)), Some(RunResult { seen: 1, unseen: 0 }));
}

#[test]
fn sweep_three_to_six_rows() {
    let rows = sweep(3, 6);
    assert_eq!(rows.len(), 3);
    assert_eq!(rows[0], (3, RunResult { seen: 1, unseen: 2 }));
    assert_eq!(rows[1], (4, RunResult { seen: 2, unseen: 2 }));
    assert_eq!(rows[2], (5, RunResult { seen: 2, unseen: 3 }));
    let ratios: Vec<f64> = rows.iter().map(|(_, o)| ratio(o)).collect();
    assert!((ratios[0] - 1.0 / 3.0).abs() < 1e-12);
    assert!((ratios[1] - 0.5).abs() < 1e-12);
    assert!((ratios[2] - 0.4).abs() < 1e-12);
}

#[test]
fn sweep_with_any_step_source() {
    let rows = sweep_with(2, 4, &vec![1, 1, 1, 1]);
    assert_eq!(rows, vec![(2, RunResult { seen: 2, unseen: 0 }), (3, RunResult { seen: 3, unseen: 0 })]);
    assert_eq!(sweep_with(4, 4, &vec![1, 2, 3, 4]), vec![]);
}

#[test]
fn sweep_is_deterministic() {
    let a = sweep(3, 200);
    let b = sweep(3, 200);
    assert_eq!(a, b);
    for (i, (size, _)) in a.iter().enumerate() {
        assert_eq!(*size, 3 + i as u64);
    }
}

#[test]
fn best_fill_three_to_ten_is_maximum() {
    let rows = sweep(3, 10);
    let (size, best) = best_fill(&rows).unwrap();
    let best_ratio = ratio(&best);
    let mut last_max = 0;
    for (s, o) in &rows {
        assert!(ratio(o) <= best_ratio);
        if ratio(o) == best_ratio {
            last_max = *s;
        }
    }
    assert_eq!(size, last_max);
    assert_eq!((size, best), (6, RunResult { seen: 3, unseen: 3 }));
    assert_eq!(rows[1], (4, RunResult { seen: 2, unseen: 2 }));
}

#[test]
fn best_fill_is_idempotent() {
    let rows = sweep(3, 300);
    assert_eq!(best_fill(&rows), best_fill(&rows));
}

#[test]
fn best_fill_takes_last_of_equals() {
    let rows = vec![
        (2, RunResult { seen: 1, unseen: 1 }),
        (4, RunResult { seen: 2, unseen: 2 }),
        (3, RunResult { seen: 1, unseen: 2 }),
    ];
    assert_eq!(best_fill(&rows), Some((4, RunResult { seen: 2, unseen: 2 })));
    assert_eq!(best_fill(&vec![]), None);
    let one = vec![(9, RunResult { seen: 3, unseen: 6 })];
    assert_eq!(best_fill(&one), Some((9, RunResult { seen: 3, unseen: 6 })));
}

#[test]
fn fill_comparison_multiplies_out() {
    let third = RunResult { seen: 1, unseen: 2 };
    let two_sixths = RunResult { seen: 2, unseen: 4 };
    let half = RunResult { seen: 5, unseen: 5 };
    assert!(fills_no_more_than(&third, &two_sixths));
    assert!(fills_no_more_than(&two_sixths, &third));
    assert!(fills_no_more_than(&third, &half));
    assert!(!fills_no_more_than(&half, &third));
    let big = RunResult { seen: u64::MAX - 1, unseen: 1 };
    let full = RunResult { seen: u64::MAX, unseen: 0 };
    assert!(fills_no_more_than(&big, &full));
    assert!(!fills_no_more_than(&full, &big));
}

#[test]
fn best_fill_three_to_six_is_strict_maximum() {
    let rows = sweep(3, 6);
    assert_eq!(best_fill(&rows), Some((4, RunResult { seen: 2, unseen: 2 })));
    for (s, o) in &rows {
        if *s != 4 {
            assert!(ratio(o) < 0.5);
        }
    }
}
