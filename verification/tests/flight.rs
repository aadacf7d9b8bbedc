use badge_stats::flight::clone_outcome;
use badge_stats::flight::Collected;
use badge_stats::flight::Flights;
use badge_stats::flight::Seat;
use badge_stats::stats::ComputeError;
use badge_stats::stats::Snapshot;

#[test]
fn first_caller_leads_and_the_others_wait() {
    let mut flights = Flights::new();
    assert_eq!(flights.tickets(), 0);
    assert_eq!(flights.running_for("k"), None);
    assert_eq!(flights.take_seat("k"), Seat::Lead(0));
    assert_eq!(flights.running_for("k"), Some(0));
    assert_eq!(flights.take_seat("k"), Seat::Wait(0));
    assert_eq!(flights.take_seat("k"), Seat::Wait(0));
    assert_eq!(flights.take_seat("other"), Seat::Lead(1));
    assert_eq!(flights.tickets(), 2);
}

#[test]
fn settling_hands_the_key_back() {
    let mut flights = Flights::new();
    flights.take_seat("k");
    assert_eq!(flights.settle(0, &Err(ComputeError::Fetch)), Some("k".to_owned()));
    assert_eq!(flights.settle(0, &Err(ComputeError::Fetch)), None);
    assert_eq!(flights.settle(5, &Err(ComputeError::Fetch)), None);
    assert_eq!(flights.running_for("k"), None);
}

#[test]
fn each_waiter_collects_once() {
    let mut flights = Flights::new();
    flights.take_seat("k");
    flights.take_seat("k");
    flights.take_seat("k");
    assert!(matches!(flights.collect(0), Collected::Pending));
    assert!(matches!(flights.collect(0), Collected::Pending));
    let settled = Ok(Snapshot::new(Vec::new(), 42).unwrap());
    assert_eq!(flights.settle(0, &settled), Some("k".to_owned()));
    for _ in 0..2 {
        match flights.collect(0) {
            Collected::Ready(Ok(s)) => assert_eq!(s.computed_at(), 42),
            _ => panic!("the outcome is ready"),
        }
    }
    assert!(matches!(flights.collect(0), Collected::Unknown));
    assert_eq!(flights.take_seat("again"), Seat::Lead(0));
}

#[test]
fn nobody_waits_under_a_leaders_ticket() {
    let mut flights = Flights::new();
    flights.take_seat("k");
    assert!(matches!(flights.collect(0), Collected::Unknown));
    assert!(matches!(flights.collect(3), Collected::Unknown));
    flights.abandon(0);
    assert_eq!(flights.running_for("k"), Some(0));
}

#[test]
fn abandoning_frees_a_settled_ticket() {
    let mut flights = Flights::new();
    flights.take_seat("k");
    flights.take_seat("k");
    flights.settle(0, &Err(ComputeError::Analysis));
    assert_eq!(flights.take_seat("x"), Seat::Lead(1));
    flights.abandon(0);
    assert!(matches!(flights.collect(0), Collected::Unknown));
    assert_eq!(flights.take_seat("y"), Seat::Lead(0));
}

#[test]
fn outcomes_are_copied_whole() {
    let ok = Ok(Snapshot::new(Vec::new(), 7).unwrap());
    assert_eq!(clone_outcome(&ok).unwrap().computed_at(), 7);
    assert_eq!(clone_outcome(&Err(ComputeError::Workspace)).err(), Some(ComputeError::Workspace));
}
