use badge_stats::cache::answer_for;
use badge_stats::cache::Admission;
use badge_stats::stats::ComputeError;
use badge_stats::cache::StatsCache;
use badge_stats::cache::DAY_IN_SECONDS;
use badge_stats::cache::DEFAULT_CAPACITY;
use badge_stats::store::MAX_CAPACITY;
use badge_stats::flight::Collected;
use badge_stats::key::ContentKey;
use badge_stats::stats::LanguageEntry;
use badge_stats::stats::LanguageStat;
use badge_stats::stats::Snapshot;

const SHA: &str = "0123456789abcdef0123456789abcdef01234567";

fn key(repo: &str, branch: &str) -> ContentKey {
    ContentKey::new(repo, SHA, branch).unwrap()
}

fn snapshot(code: u64) -> Snapshot {
    Snapshot::new(
        vec![LanguageEntry {
            language: "Rust".to_owned(),
            stats: LanguageStat::new(code, 0, 0, false, Vec::new()).unwrap(),
        }],
        code,
    )
    .unwrap()
}

fn code_of(snapshot: &Snapshot) -> u64 {
    snapshot.languages()[0].stats.code()
}

#[test]
fn new_requires_a_capacity_in_range() {
    assert!(StatsCache::new(0, 10).is_none());
    assert!(StatsCache::new(MAX_CAPACITY + 1, 10).is_none());
    let cache = StatsCache::new(3, 10).unwrap();
    assert_eq!(cache.capacity(), 3);
    assert_eq!(cache.ttl_seconds(), 10);
    assert_eq!(cache.len(), 0);
}

#[test]
fn defaults_are_a_thousand_entries_for_a_day() {
    let cache = StatsCache::with_defaults();
    assert_eq!(cache.capacity(), DEFAULT_CAPACITY);
    assert_eq!(cache.capacity(), 1000);
    assert_eq!(cache.ttl_seconds(), DAY_IN_SECONDS);
    assert_eq!(cache.ttl_seconds(), 24 * 60 * 60);
}

#[test]
fn miss_then_hit() {
    let mut cache = StatsCache::new(10, 100).unwrap();
    let k = key("r", "main");
    let (first, cached) = cache.get_or_compute(&k, 0, || Ok(snapshot(7))).unwrap();
    assert_eq!(code_of(&first), 7);
    assert!(!cached);
    let (second, cached) = cache.get_or_compute(&k, 50, || Ok(snapshot(8))).unwrap();
    assert_eq!(code_of(&second), 7);
    assert!(cached);
    assert_eq!(cache.len(), 1);
}

fn lead(admission: Admission) -> usize {
    match admission {
        Admission::Lead(ticket) => ticket,
        _ => panic!("the caller is told to compute"),
    }
}

fn wait(admission: Admission) -> usize {
    match admission {
        Admission::Wait(ticket) => ticket,
        _ => panic!("the caller is told to wait"),
    }
}

#[test]
fn single_flight_computes_once_for_many_callers() {
    let mut cache = StatsCache::new(10, 100).unwrap();
    let k = key("r", "main");
    let mut computations = Vec::new();
    let mut waiting = Vec::new();
    for _ in 0..8 {
        match cache.begin(&k, 1) {
            Admission::Lead(ticket) => computations.push(ticket),
            Admission::Wait(ticket) => waiting.push(ticket),
            _ => panic!("nothing was stored yet"),
        }
    }
    assert_eq!(computations.len(), 1);
    assert_eq!(waiting, vec![computations[0]; 7]);
    assert!(cache.is_pending(&k));
    assert!(matches!(cache.collect(waiting[0]), Collected::Pending));
    let reported = cache.finish(computations[0], Ok(snapshot(5)), 2).unwrap();
    assert_eq!(code_of(&reported), 5);
    assert!(!cache.is_pending(&k));
    for ticket in waiting {
        match cache.collect(ticket) {
            Collected::Ready(Ok(s)) => assert_eq!(code_of(&s), 5),
            _ => panic!("each waiter receives the one result"),
        }
    }
    assert!(matches!(cache.collect(computations[0]), Collected::Unknown));
    match cache.begin(&k, 3) {
        Admission::Hit(s) => assert_eq!(code_of(&s), 5),
        _ => panic!("the result is in the cache"),
    }
}

#[test]
fn failure_reaches_every_waiter() {
    let mut cache = StatsCache::new(10, 100).unwrap();
    let k = key("r", "main");
    let ticket = lead(cache.begin(&k, 0));
    for _ in 0..3 {
        assert_eq!(wait(cache.begin(&k, 0)), ticket);
    }
    assert_eq!(cache.finish(ticket, Err(ComputeError::Fetch), 1).err(), Some(ComputeError::Fetch));
    for _ in 0..3 {
        assert!(matches!(cache.collect(ticket), Collected::Ready(Err(ComputeError::Fetch))));
    }
    assert!(matches!(cache.collect(ticket), Collected::Unknown));
    assert_eq!(cache.len(), 0);
    assert!(matches!(cache.begin(&k, 2), Admission::Lead(_)));
}

#[test]
fn waiters_and_leader_get_the_same_answer() {
    let mut cache = StatsCache::new(10, 100).unwrap();
    let k = key("r", "main");
    let ticket = lead(cache.begin(&k, 0));
    assert_eq!(wait(cache.begin(&k, 0)), ticket);
    let (s, cached) = answer_for(cache.finish(ticket, Ok(snapshot(3)), 1)).unwrap();
    assert_eq!((code_of(&s), cached), (3, false));
    match cache.collect(ticket) {
        Collected::Ready(outcome) => {
            let (s, cached) = answer_for(outcome).unwrap();
            assert_eq!((code_of(&s), cached), (3, false));
        }
        _ => panic!("the waiter receives the result"),
    }
    assert_eq!(answer_for(Err(ComputeError::Analysis)).err(), Some(ComputeError::Analysis));
}

#[test]
fn new_flight_starts_while_old_waiters_collect() {
    let mut cache = StatsCache::new(10, 100).unwrap();
    let k = key("r", "main");
    let first = lead(cache.begin(&k, 0));
    assert_eq!(wait(cache.begin(&k, 0)), first);
    cache.finish(first, Err(ComputeError::Fetch), 1).unwrap_err();
    let second = lead(cache.begin(&k, 2));
    assert_ne!(first, second);
    assert_eq!(wait(cache.begin(&k, 2)), second);
    assert!(matches!(cache.collect(first), Collected::Ready(Err(ComputeError::Fetch))));
    assert!(matches!(cache.collect(second), Collected::Pending));
    cache.finish(second, Ok(snapshot(8)), 3).unwrap();
    match cache.collect(second) {
        Collected::Ready(Ok(s)) => assert_eq!(code_of(&s), 8),
        _ => panic!("the second flight has its own result"),
    }
}

#[test]
fn tickets_are_used_again() {
    let mut cache = StatsCache::new(10, 100).unwrap();
    let a = lead(cache.begin(&key("a", "main"), 0));
    let b = lead(cache.begin(&key("b", "main"), 0));
    assert_eq!((a, b), (0, 1));
    cache.finish(a, Err(ComputeError::Fetch), 0).unwrap_err();
    assert_eq!(lead(cache.begin(&key("c", "main"), 0)), 0);
    assert_eq!(lead(cache.begin(&key("d", "main"), 0)), 2);
}

#[test]
fn waiter_that_gives_up_is_not_waited_for() {
    let mut cache = StatsCache::new(10, 100).unwrap();
    let k = key("r", "main");
    let ticket = lead(cache.begin(&k, 0));
    assert_eq!(wait(cache.begin(&k, 0)), ticket);
    cache.abandon(ticket);
    cache.finish(ticket, Ok(snapshot(1)), 1).unwrap();
    assert!(matches!(cache.collect(ticket), Collected::Unknown));
    cache.abandon(ticket);
    cache.abandon(99);
    assert_eq!(cache.len(), 1);
}

#[test]
fn finish_under_an_unknown_ticket_changes_nothing() {
    let mut cache = StatsCache::new(10, 100).unwrap();
    let k = key("r", "main");
    let back = cache.finish(7, Ok(snapshot(1)), 0).unwrap();
    assert_eq!(code_of(&back), 1);
    assert_eq!(cache.len(), 0);
    let ticket = lead(cache.begin(&k, 0));
    cache.finish(ticket, Ok(snapshot(2)), 1).unwrap();
    cache.finish(ticket, Ok(snapshot(3)), 2).unwrap();
    assert_eq!(code_of(&cache.lookup(&k, 3).unwrap()), 2);
    assert!(matches!(cache.collect(7), Collected::Unknown));
}

#[test]
fn counting_compute_runs_once() {
    let mut cache = StatsCache::new(10, 100).unwrap();
    let k = key("r", "main");
    let count = std::cell::Cell::new(0);
    for _ in 0..5 {
        let (s, _) = cache
            .get_or_compute(&k, 1, || {
                count.set(count.get() + 1);
                Ok(snapshot(9))
            })
            .unwrap();
        assert_eq!(code_of(&s), 9);
    }
    assert_eq!(count.get(), 1);
}

#[test]
fn get_or_compute_does_not_compute_while_in_flight() {
    let mut cache = StatsCache::new(10, 100).unwrap();
    let k = key("r", "main");
    let ticket = lead(cache.begin(&k, 0));
    let called = std::cell::Cell::new(false);
    let r = cache.get_or_compute(&k, 1, || {
        called.set(true);
        Ok(snapshot(1))
    });
    assert_eq!(r.err(), Some(ComputeError::InFlight));
    assert!(!called.get());
    assert!(cache.is_pending(&k));
    cache.finish(ticket, Ok(snapshot(2)), 2).unwrap();
    assert!(matches!(cache.collect(ticket), Collected::Unknown));
    let (s, cached) = cache.get_or_compute(&k, 3, || Ok(snapshot(9))).unwrap();
    assert_eq!((code_of(&s), cached), (2, true));
}

#[test]
fn entry_expires_after_its_time_to_live() {
    let mut cache = StatsCache::new(10, 100).unwrap();
    let k = key("r", "main");
    cache.get_or_compute(&k, 1000, || Ok(snapshot(1))).unwrap();
    let (s, cached) = cache.get_or_compute(&k, 1099, || Ok(snapshot(2))).unwrap();
    assert_eq!((code_of(&s), cached), (1, true));
    let (s, cached) = cache.get_or_compute(&k, 1100, || Ok(snapshot(2))).unwrap();
    assert_eq!((code_of(&s), cached), (2, false));
    let (s, cached) = cache.get_or_compute(&k, 1199, || Ok(snapshot(3))).unwrap();
    assert_eq!((code_of(&s), cached), (2, true));
    let (s, cached) = cache.get_or_compute(&k, 5000, || Ok(snapshot(3))).unwrap();
    assert_eq!((code_of(&s), cached), (3, false));
}

#[test]
fn expiry_does_not_depend_on_use() {
    let mut cache = StatsCache::new(10, 100).unwrap();
    let k = key("r", "main");
    cache.get_or_compute(&k, 0, || Ok(snapshot(1))).unwrap();
    for t in [10, 50, 90, 99] {
        assert!(cache.touch(&k, t));
    }
    assert!(!cache.touch(&k, 100));
    assert_eq!(cache.len(), 0);
}

#[test]
fn zero_time_to_live_serves_nothing() {
    let mut cache = StatsCache::new(10, 0).unwrap();
    let k = key("r", "main");
    cache.get_or_compute(&k, 5, || Ok(snapshot(1))).unwrap();
    let (s, cached) = cache.get_or_compute(&k, 5, || Ok(snapshot(2))).unwrap();
    assert_eq!((code_of(&s), cached), (2, false));
}

#[test]
fn full_cache_drops_the_least_recently_used() {
    let mut cache = StatsCache::new(3, 1000).unwrap();
    for (i, repo) in ["a", "b", "c"].iter().enumerate() {
        cache.get_or_compute(&key(repo, "main"), i as u64, || Ok(snapshot(i as u64))).unwrap();
    }
    assert_eq!(cache.len(), 3);
    cache.get_or_compute(&key("d", "main"), 3, || Ok(snapshot(3))).unwrap();
    assert_eq!(cache.len(), 3);
    assert!(cache.lookup(&key("a", "main"), 4).is_none());
    assert!(cache.lookup(&key("b", "main"), 4).is_some());
    assert!(cache.lookup(&key("c", "main"), 4).is_some());
    assert!(cache.lookup(&key("d", "main"), 4).is_some());
}

#[test]
fn use_protects_an_entry_from_eviction() {
    let mut cache = StatsCache::new(3, 1000).unwrap();
    for repo in ["a", "b", "c"] {
        cache.get_or_compute(&key(repo, "main"), 0, || Ok(snapshot(0))).unwrap();
    }
    assert!(cache.touch(&key("a", "main"), 1));
    cache.get_or_compute(&key("d", "main"), 2, || Ok(snapshot(3))).unwrap();
    assert!(cache.lookup(&key("a", "main"), 3).is_some());
    assert!(cache.lookup(&key("b", "main"), 3).is_none());
    assert!(cache.lookup(&key("c", "main"), 3).is_some());
    assert_eq!(cache.len(), 3);
}

#[test]
fn capacity_of_one_keeps_the_latest() {
    let mut cache = StatsCache::new(1, 1000).unwrap();
    cache.get_or_compute(&key("a", "main"), 0, || Ok(snapshot(1))).unwrap();
    cache.get_or_compute(&key("b", "main"), 0, || Ok(snapshot(2))).unwrap();
    assert_eq!(cache.len(), 1);
    assert!(cache.lookup(&key("a", "main"), 1).is_none());
    assert_eq!(code_of(&cache.lookup(&key("b", "main"), 1).unwrap()), 2);
}

#[test]
fn keys_that_differ_in_branch_are_cached_apart() {
    let mut cache = StatsCache::new(10, 1000).unwrap();
    let main = key("r", "main");
    let dev = key("r", "dev");
    cache.get_or_compute(&main, 0, || Ok(snapshot(1))).unwrap();
    let (s, cached) = cache.get_or_compute(&dev, 0, || Ok(snapshot(2))).unwrap();
    assert_eq!((code_of(&s), cached), (2, false));
    assert_eq!(cache.len(), 2);
    assert_eq!(code_of(&cache.lookup(&main, 1).unwrap()), 1);
    assert_eq!(code_of(&cache.lookup(&dev, 1).unwrap()), 2);
}

#[test]
fn keys_that_would_join_alike_are_cached_apart() {
    let mut cache = StatsCache::new(10, 1000).unwrap();
    let a = ContentKey::new("u", SHA, &format!("x#{}#y", SHA)).unwrap();
    let b = ContentKey::new(&format!("u#{}#x", SHA), SHA, "y").unwrap();
    cache.get_or_compute(&a, 0, || Ok(snapshot(1))).unwrap();
    assert!(cache.lookup(&b, 1).is_none());
    let (s, cached) = cache.get_or_compute(&b, 1, || Ok(snapshot(2))).unwrap();
    assert_eq!((code_of(&s), cached), (2, false));
    assert_eq!(code_of(&cache.lookup(&a, 2).unwrap()), 1);
    assert_eq!(cache.len(), 2);
}

#[test]
fn failure_is_not_cached() {
    let mut cache = StatsCache::new(10, 1000).unwrap();
    let k = key("r", "main");
    let r = cache.get_or_compute(&k, 0, || Err(ComputeError::Fetch));
    assert_eq!(r.err(), Some(ComputeError::Fetch));
    assert_eq!(cache.len(), 0);
    assert!(!cache.is_pending(&k));
    assert!(cache.lookup(&k, 0).is_none());
    let (s, cached) = cache.get_or_compute(&k, 1, || Ok(snapshot(4))).unwrap();
    assert_eq!((code_of(&s), cached), (4, false));
    let (s, cached) = cache.get_or_compute(&k, 2, || Err(ComputeError::Analysis)).unwrap();
    assert_eq!((code_of(&s), cached), (4, true));
}

#[test]
fn failure_lets_the_next_caller_compute() {
    let mut cache = StatsCache::new(10, 1000).unwrap();
    let k = key("r", "main");
    let ticket = lead(cache.begin(&k, 0));
    assert_eq!(wait(cache.begin(&k, 0)), ticket);
    assert_eq!(
        cache.finish(ticket, Err(ComputeError::Workspace), 1).err(),
        Some(ComputeError::Workspace)
    );
    assert!(matches!(cache.begin(&k, 2), Admission::Lead(_)));
}

#[test]
fn flights_of_different_keys_do_not_mix() {
    let mut cache = StatsCache::new(10, 1000).unwrap();
    let a = key("a", "main");
    let b = key("b", "main");
    let ticket_a = lead(cache.begin(&a, 0));
    let ticket_b = lead(cache.begin(&b, 0));
    assert_ne!(ticket_a, ticket_b);
    cache.finish(ticket_b, Ok(snapshot(2)), 1).unwrap();
    assert!(cache.is_pending(&a));
    assert!(!cache.is_pending(&b));
    assert_eq!(wait(cache.begin(&a, 2)), ticket_a);
    assert!(matches!(cache.begin(&b, 2), Admission::Hit(_)));
}

#[test]
fn lookup_hands_out_a_copy() {
    let mut cache = StatsCache::new(10, 1000).unwrap();
    let k = key("r", "main");
    cache.get_or_compute(&k, 0, || Ok(snapshot(6))).unwrap();
    let first = cache.lookup(&k, 1).unwrap();
    drop(first);
    let second = cache.lookup(&k, 1).unwrap();
    assert_eq!(code_of(&second), 6);
    assert_eq!(second.computed_at(), 6);
}

#[test]
fn clock_that_steps_back_keeps_entries_fresh() {
    let mut cache = StatsCache::new(10, 10).unwrap();
    let k = key("r", "main");
    cache.get_or_compute(&k, 100, || Ok(snapshot(1))).unwrap();
    assert!(cache.touch(&k, 50));
    assert!(cache.touch(&k, 109));
    assert!(!cache.touch(&k, 110));
}
