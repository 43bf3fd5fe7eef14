use unit_activation::activation::{Activation, Step, UnitState};
use unit_activation::unit::{root_units, Unit, UnitId};

fn unit(name: &str, after: Vec<UnitId>, before: Vec<UnitId>) -> Unit {
    Unit { name: String::from(name), after, before }
}

/// Runs the scheduler one step at a time; the units in `failing` fail to activate.
/// Returns the run and the identifiers passed to activation, in order.
fn run(units: Vec<Unit>, failing: &[UnitId]) -> (Activation, Vec<UnitId>) {
    let mut a = Activation::new(units);
    let mut activated = Vec::new();
    loop {
        match a.next_step() {
            Step::Empty => break,
            Step::Activate(id) => {
                for d in a.unit(id).after.clone() {
                    assert!(a.is_started(d));
                }
                activated.push(id);
                let outcome = if failing.contains(&id) { None } else { Some(1000 + id as u32) };
                assert!(a.complete(id, outcome));
            }
            Step::Skipped(_) | Step::Deferred(_) => {}
        }
    }
    assert!(a.is_done());
    (a, activated)
}

fn position(v: &[UnitId], x: UnitId) -> usize {
    v.iter().position(|y| *y == x).unwrap()
}

#[test]
fn root_units_are_those_without_prerequisites() {
    let units = vec![
        unit("a", vec![], vec![1]),
        unit("b", vec![0], vec![]),
        unit("c", vec![], vec![]),
    ];
    assert_eq!(root_units(&units), vec![0, 2]);
    assert_eq!(root_units(&Vec::new()), Vec::<UnitId>::new());
}

#[test]
fn fan_out_from_one_root() {
    let units = vec![
        unit("a", vec![], vec![1, 2]),
        unit("b", vec![0], vec![]),
        unit("c", vec![0], vec![]),
    ];
    let (a, activated) = run(units, &[]);
    let started = a.started().clone();
    assert_eq!(started.len(), 3);
    assert_eq!(started[0], 0);
    assert!(started.contains(&1) && started.contains(&2));
    assert_eq!(activated, started);
}

#[test]
fn failed_root_blocks_its_dependent() {
    let units = vec![unit("a", vec![], vec![1]), unit("b", vec![0], vec![])];
    let (a, activated) = run(units, &[0]);
    assert!(a.started().is_empty());
    assert_eq!(activated, vec![0]);
    assert_eq!(a.state(0), UnitState::Failed);
    assert_eq!(a.state(1), UnitState::Idle);
    assert_eq!(a.pid(0), None);
    assert_eq!(a.pid(1), None);
}

#[test]
fn failure_blocks_transitive_dependents() {
    let units = vec![
        unit("a", vec![], vec![1]),
        unit("b", vec![0], vec![2]),
        unit("c", vec![1], vec![]),
        unit("d", vec![], vec![]),
    ];
    let (a, _) = run(units, &[1]);
    assert_eq!(a.started().len(), 2);
    assert!(a.is_started(0));
    assert!(a.is_started(3));
    assert!(!a.is_started(1));
    assert!(!a.is_started(2));
}

#[test]
fn diamond_waits_for_both_branches() {
    let units = vec![
        unit("a", vec![], vec![1, 2]),
        unit("b", vec![0], vec![3]),
        unit("c", vec![0], vec![3]),
        unit("d", vec![1, 2], vec![]),
    ];
    let (a, activated) = run(units, &[]);
    let started = a.started().clone();
    assert_eq!(started.len(), 4);
    assert!(position(&started, 3) > position(&started, 1));
    assert!(position(&started, 3) > position(&started, 2));
    assert_eq!(activated.iter().filter(|x| **x == 3).count(), 1);
}

#[test]
fn diamond_second_push_is_skipped() {
    let units = vec![
        unit("a", vec![], vec![1, 2]),
        unit("b", vec![0], vec![3]),
        unit("c", vec![0], vec![3]),
        unit("d", vec![1, 2], vec![]),
    ];
    let mut a = Activation::new(units);
    assert_eq!(a.next_step(), Step::Activate(0));
    assert!(a.complete(0, Some(10)));
    // both branches checked out at once, as two workers would
    assert_eq!(a.next_step(), Step::Activate(2));
    assert_eq!(a.next_step(), Step::Activate(1));
    assert!(a.complete(1, Some(11)));
    // d is pushed by b while c still runs
    assert_eq!(a.next_step(), Step::Deferred(3));
    assert!(a.complete(2, Some(12)));
    assert_eq!(a.next_step(), Step::Activate(3));
    assert!(!a.is_done());
    assert!(a.complete(3, Some(13)));
    assert_eq!(a.next_step(), Step::Empty);
    assert!(a.is_done());
    assert_eq!(a.started().clone(), vec![0, 1, 2, 3]);
}

#[test]
fn repeated_push_after_activation_is_skipped() {
    let units = vec![
        unit("a", vec![], vec![2]),
        unit("b", vec![], vec![2]),
        unit("c", vec![0, 1], vec![]),
    ];
    let mut a = Activation::new(units);
    assert_eq!(a.next_step(), Step::Activate(1));
    assert_eq!(a.next_step(), Step::Activate(0));
    assert!(a.complete(1, Some(1)));
    assert!(a.complete(0, Some(2)));
    // c was pushed twice, after both prerequisites started
    assert_eq!(a.next_step(), Step::Activate(2));
    assert!(a.complete(2, Some(3)));
    assert_eq!(a.next_step(), Step::Skipped(2));
    assert_eq!(a.next_step(), Step::Empty);
    assert_eq!(a.started().clone(), vec![1, 0, 2]);
}

#[test]
fn missing_prerequisite_is_never_satisfied() {
    let units = vec![
        unit("a", vec![], vec![1]),
        unit("b", vec![0, 99], vec![]),
        unit("c", vec![0], vec![]),
    ];
    let units_with_push = vec![
        unit("a", vec![], vec![1, 2]),
        unit("b", vec![0, 99], vec![]),
        unit("c", vec![0], vec![]),
    ];
    let (a, activated) = run(units, &[]);
    assert!(!activated.contains(&1));
    assert!(a.is_started(0));
    let (b, activated) = run(units_with_push, &[]);
    assert!(!activated.contains(&1));
    assert!(b.is_started(0) && b.is_started(2));
    assert_eq!(b.state(1), UnitState::Idle);
}

#[test]
fn two_roots_both_start() {
    let units = vec![unit("a", vec![], vec![]), unit("b", vec![], vec![])];
    let mut a = Activation::new(units);
    assert_eq!(a.next_step(), Step::Activate(1));
    assert_eq!(a.next_step(), Step::Activate(0));
    assert_eq!(a.state(0), UnitState::CheckedOut);
    assert!(!a.is_done());
    assert!(a.complete(0, Some(5)));
    assert!(a.complete(1, Some(6)));
    assert!(a.is_done());
    assert_eq!(a.pid(0), Some(5));
    assert_eq!(a.pid(1), Some(6));
}

#[test]
fn complete_rejects_unit_not_checked_out() {
    let units = vec![unit("a", vec![], vec![])];
    let mut a = Activation::new(units);
    assert!(!a.complete(0, Some(1)));
    assert!(!a.complete(7, Some(1)));
    assert_eq!(a.state(0), UnitState::Idle);
    assert!(a.started().is_empty());
    assert_eq!(a.next_step(), Step::Activate(0));
    assert!(a.complete(0, Some(1)));
    assert!(!a.complete(0, Some(2)));
    assert_eq!(a.pid(0), Some(1));
}

#[test]
fn pending_identifier_without_unit_is_skipped() {
    let units = vec![unit("a", vec![], vec![5])];
    let mut a = Activation::new(units);
    assert_eq!(a.next_step(), Step::Activate(0));
    assert!(a.complete(0, Some(1)));
    assert!(a.has_pending());
    assert_eq!(a.next_step(), Step::Skipped(5));
    assert!(!a.has_pending());
    assert_eq!(a.next_step(), Step::Empty);
}

#[test]
fn pid_table_keys_are_the_started_units() {
    let units = vec![
        unit("a", vec![], vec![1, 2]),
        unit("b", vec![0], vec![]),
        unit("c", vec![0], vec![]),
        unit("d", vec![], vec![]),
    ];
    let (a, _) = run(units, &[2]);
    let started = a.started().clone();
    let pids = a.into_pid_table();
    assert_eq!(pids.len(), 4);
    for (id, pid) in pids.iter().enumerate() {
        assert_eq!(pid.is_some(), started.contains(&id));
    }
    assert_eq!(pids[0], Some(1000));
    assert_eq!(pids[2], None);
}

#[test]
fn unit_table_is_kept_whole() {
    let units = vec![
        unit("a", vec![], vec![1]),
        unit("b", vec![0], vec![2]),
        unit("c", vec![1], vec![]),
    ];
    let (a, _) = run(units, &[1]);
    assert_eq!(a.unit_count(), 3);
    assert_eq!(a.unit(0).name, "a");
    assert_eq!(a.unit(1).name, "b");
    assert_eq!(a.unit(2).name, "c");
    assert_eq!(a.unit(2).after, vec![1]);
}

#[test]
fn every_unit_of_a_chain_starts_once() {
    let units = vec![
        unit("a", vec![], vec![1, 2]),
        unit("b", vec![0], vec![2, 3]),
        unit("c", vec![0, 1], vec![3]),
        unit("d", vec![1, 2], vec![]),
    ];
    let (a, activated) = run(units, &[]);
    assert_eq!(a.started().clone(), vec![0, 1, 2, 3]);
    assert_eq!(activated, vec![0, 1, 2, 3]);
}

#[test]
fn empty_table_is_done_at_once() {
    let (a, activated) = run(Vec::new(), &[]);
    assert!(activated.is_empty());
    assert_eq!(a.unit_count(), 0);
    assert!(a.into_pid_table().is_empty());
}
