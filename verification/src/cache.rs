//! The statistics cache: a bounded store of snapshots under content keys,
//! each served for a fixed time after it was stored, with at most one
//! computation in flight for a key.
//!
//! Time is given by the caller, in seconds. A caller that asks for a key
//! is served from the cache, or told to compute, or told to wait for the
//! caller that computes already. The caller that computes reports the
//! outcome under its ticket when it has it, and the callers that wait
//! collect it under the same ticket.

use vstd::prelude::*;
use cached::SizedCache;
use crate::flight::{
    abandoned, collected, collection, lemma_flight_keeps_running, lemma_one_leader,
    lemma_running_from, lemma_running_is_the_one, lemma_settled_stops_running,
    lemma_steps_keep_sound, outcome_of, running, running_key, runs_at, seat_for, seated, settled,
    sound, Collected, CollectedModel, Flights, FlightsModel, OutcomeModel, Seat, SeatModel,
};
use crate::key::{
    identifier_of, lemma_branch_distinguishes, lemma_keys_have_their_own_identifier, ContentKey,
    ContentKeyModel,
};
use crate::stats::{ComputeError, Snapshot, SnapshotModel};
use crate::store::{
    distinct_keys, entry_under, inserted, lemma_inserted, lemma_inserted_other, lemma_removed,
    lemma_slot_of, lemma_touch_then_remove, lemma_touched, removed, store_get, store_limit,
    store_remove, store_set, store_size, store_with_size, stored, touched, CacheEntry,
    CacheEntryModel, Entries, MAX_CAPACITY,
};

verus! {

/// Number of entries that a cache holds when nothing else is asked for.
pub const DEFAULT_CAPACITY: usize = 1000;

/// Number of seconds in a day: the time for which an entry is served when
/// nothing else is asked for.
pub const DAY_IN_SECONDS: u64 = 86400;

/// Whether nothing is stored under the key of any computation that runs:
/// a computation runs only for a key that the cache does not hold.
pub open spec fn clear_of_flights(entries: Entries, flights: FlightsModel) -> bool {
    forall|t: int|
        #![trigger flights[t]]
        running_key(flights, t) is Some ==> entry_under(entries, running_key(flights, t)->0) is None
}

/// What a caller is told when it asks for the statistics of a key.
pub enum AdmissionModel {
    /// A fresh entry is in the cache; here is its snapshot.
    Hit(SnapshotModel),
    /// Nothing fresh is in the cache and nobody computes: the caller is to
    /// compute, and to report the outcome under this ticket.
    Lead(int),
    /// Nothing fresh is in the cache and another caller computes: the
    /// caller is to wait, and to collect the outcome under this ticket.
    Wait(int),
    /// Nothing fresh is in the cache, another caller computes, and no more
    /// callers can wait.
    Crowded,
}

/// What a cache holds.
pub struct CacheModel {
    /// The entries under the identifiers of their keys, the most recently
    /// used first.
    pub entries: Entries,
    /// The computations in flight, by their tickets.
    pub flights: FlightsModel,
    /// The number of entries that the cache holds at most.
    pub capacity: nat,
    /// The number of seconds for which an entry is served.
    pub ttl: nat,
}

impl CacheModel {
    /// The entry under `key` that is still served at time `now`.
    pub open spec fn fresh_entry(self, key: Seq<char>, now: nat) -> Option<CacheEntryModel> {
        match entry_under(self.entries, key) {
            Some(entry) => if entry.is_fresh(now, self.ttl) {
                Some(entry)
            } else {
                None
            },
            None => None,
        }
    }

    /// What a caller that asks for `key` at time `now` is told.
    pub open spec fn admission(self, key: Seq<char>, now: nat) -> AdmissionModel {
        match self.fresh_entry(key, now) {
            Some(entry) => AdmissionModel::Hit(entry.snapshot),
            None => match seat_for(self.flights, key) {
                SeatModel::Lead(t) => AdmissionModel::Lead(t),
                SeatModel::Wait(t) => AdmissionModel::Wait(t),
                SeatModel::Crowded => AdmissionModel::Crowded,
            },
        }
    }

    /// The cache after `key` was looked up at time `now`: a fresh entry
    /// counts as used, one that is no longer served is dropped.
    pub open spec fn after_lookup(self, key: Seq<char>, now: nat) -> CacheModel {
        CacheModel {
            entries: if self.fresh_entry(key, now) is Some {
                touched(self.entries, key)
            } else {
                removed(self.entries, key)
            },
            ..self
        }
    }

    /// The cache after a caller asked for `key` at time `now`: the key was
    /// looked up, and when nothing fresh was found the caller has its seat
    /// among the computations in flight.
    pub open spec fn after_begin(self, key: Seq<char>, now: nat) -> CacheModel {
        let looked = self.after_lookup(key, now);
        if self.fresh_entry(key, now) is Some {
            looked
        } else {
            CacheModel { flights: seated(self.flights, key), ..looked }
        }
    }

    /// The cache after the computation under `ticket` ended at time `now`:
    /// the computation is settled, and a snapshot that was computed is
    /// stored under its key with that time. A failure stores nothing, and
    /// so does a ticket under which no computation runs.
    pub open spec fn after_finish(self, ticket: int, outcome: OutcomeModel, now: nat) -> CacheModel {
        CacheModel {
            entries: match (running_key(self.flights, ticket), outcome) {
                (Some(key), Ok(snapshot)) => inserted(
                    self.entries,
                    self.capacity,
                    key,
                    CacheEntryModel { snapshot, inserted_at: now },
                ),
                _ => self.entries,
            },
            flights: settled(self.flights, ticket, outcome),
            ..self
        }
    }

    /// The cache after a caller collected under `ticket`.
    pub open spec fn after_collect(self, ticket: int) -> CacheModel {
        CacheModel { flights: collected(self.flights, ticket), ..self }
    }

    /// The cache after a caller that waited under `ticket` gave up.
    pub open spec fn after_abandon(self, ticket: int) -> CacheModel {
        CacheModel { flights: abandoned(self.flights, ticket), ..self }
    }

    /// Whether the cache is as every cache is: within its capacity, with
    /// no two entries under one key, no two computations for one key, and
    /// no computation for a key that it holds.
    pub open spec fn well_formed(self) -> bool {
        &&& 0 < self.capacity <= MAX_CAPACITY
        &&& self.entries.len() <= self.capacity
        &&& distinct_keys(self.entries)
        &&& sound(self.flights)
        &&& clear_of_flights(self.entries, self.flights)
    }
}

/// What a caller is told when it asks for the statistics of a key.
pub enum Admission {
    /// A fresh entry is in the cache; here is a copy of its snapshot.
    Hit(Snapshot),
    /// Nothing fresh is in the cache and nobody computes: the caller is to
    /// compute, and to report the outcome with `finish` under this ticket.
    Lead(usize),
    /// Nothing fresh is in the cache and another caller computes: the
    /// caller is to wait, and to `collect` the outcome under this ticket.
    Wait(usize),
    /// Nothing fresh is in the cache, another caller computes, and no more
    /// callers can wait.
    Crowded,
}

impl View for Admission {
    type V = AdmissionModel;

    open spec fn view(&self) -> AdmissionModel {
        match self {
            Admission::Hit(snapshot) => AdmissionModel::Hit(snapshot@),
            Admission::Lead(t) => AdmissionModel::Lead(*t as int),
            Admission::Wait(t) => AdmissionModel::Wait(*t as int),
            Admission::Crowded => AdmissionModel::Crowded,
        }
    }
}

/// A bounded cache of snapshots under content keys.
///
/// An entry is served for a fixed number of seconds after it was stored,
/// whether it was used in between or not. When the cache is full, storing
/// an entry under a new key drops the entry that was used least recently.
/// For each key at most one computation is in flight.
pub struct StatsCache {
    store: SizedCache<String, CacheEntry>,
    flights: Flights,
    capacity: usize,
    ttl_seconds: u64,
}

impl View for StatsCache {
    type V = CacheModel;

    closed spec fn view(&self) -> CacheModel {
        CacheModel {
            entries: stored(self.store),
            flights: self.flights@,
            capacity: self.capacity as nat,
            ttl: self.ttl_seconds as nat,
        }
    }
}

impl StatsCache {
    #[verifier::type_invariant]
    spec fn sound(self) -> bool {
        &&& 0 < self.capacity <= MAX_CAPACITY
        &&& store_limit(self.store) == self.capacity
        &&& stored(self.store).len() <= self.capacity
        &&& distinct_keys(stored(self.store))
        &&& clear_of_flights(stored(self.store), self.flights@)
    }

    /// Makes an empty cache that holds at most `capacity` entries and
    /// serves each for `ttl_seconds` seconds; `None` when `capacity` is
    /// zero or above `MAX_CAPACITY`.
    pub fn new(capacity: usize, ttl_seconds: u64) -> (r: Option<StatsCache>)
        ensures
            r is Some <==> 0 < capacity <= MAX_CAPACITY,
            r matches Some(cache) ==> cache@ == (CacheModel {
                entries: Seq::empty(),
                flights: Seq::empty(),
                capacity: capacity as nat,
                ttl: ttl_seconds as nat,
            }) && cache@.well_formed(),
    {
        if capacity == 0 || capacity > MAX_CAPACITY {
            None
        } else {
            Some(
                StatsCache {
                    store: store_with_size(capacity),
                    flights: Flights::new(),
                    capacity,
                    ttl_seconds,
                },
            )
        }
    }

    /// Makes an empty cache of `DEFAULT_CAPACITY` entries, each served for
    /// a day.
    pub fn with_defaults() -> (cache: StatsCache)
        ensures
            cache@ == (CacheModel {
                entries: Seq::empty(),
                flights: Seq::empty(),
                capacity: DEFAULT_CAPACITY as nat,
                ttl: DAY_IN_SECONDS as nat,
            }),
            cache@.well_formed(),
    {
        StatsCache {
            store: store_with_size(DEFAULT_CAPACITY),
            flights: Flights::new(),
            capacity: DEFAULT_CAPACITY,
            ttl_seconds: DAY_IN_SECONDS,
        }
    }

    /// The number of entries that the cache holds at most.
    pub fn capacity(&self) -> (r: usize)
        ensures
            r == self@.capacity,
            0 < r <= MAX_CAPACITY,
    {
        proof {
            use_type_invariant(self);
        }
        self.capacity
    }

    /// The number of seconds for which an entry is served.
    pub fn ttl_seconds(&self) -> (r: u64)
        ensures
            r == self@.ttl,
    {
        self.ttl_seconds
    }

    /// The number of entries in the cache, those no longer served among
    /// them.
    pub fn len(&self) -> (r: usize)
        ensures
            r == self@.entries.len(),
            r <= self@.capacity,
    {
        proof {
            use_type_invariant(self);
        }
        store_size(&self.store)
    }

    /// Whether a computation for `key` is in flight.
    pub fn is_pending(&self, key: &ContentKey) -> (r: bool)
        ensures
            r == running(self@.flights, key@.identifier()) is Some,
    {
        let id = key.identifier();
        self.flights.running_for(id.as_str()).is_some()
    }

    /// Whether the entry stored at `inserted_at` is still served at `now`.
    fn still_served(&self, inserted_at: u64, now: u64) -> (r: bool)
        ensures
            r == (now < inserted_at + self@.ttl),
    {
        now < inserted_at || now - inserted_at < self.ttl_seconds
    }

    /// Looks `key` up at time `now`. A fresh entry counts as used and its
    /// snapshot is handed out as a copy; an entry that is no longer served
    /// is dropped.
    pub fn lookup(&mut self, key: &ContentKey, now: u64) -> (r: Option<Snapshot>)
        ensures
            final(self)@ == old(self)@.after_lookup(key@.identifier(), now as nat),
            final(self)@.well_formed(),
            match r {
                Some(snapshot) => old(self)@.fresh_entry(key@.identifier(), now as nat) matches Some(
                    entry,
                ) && entry.snapshot == snapshot@,
                None => old(self)@.fresh_entry(key@.identifier(), now as nat) is None,
            },
    {
        let id = key.identifier();
        self.lookup_id(id.as_str(), now)
    }

    fn lookup_id(&mut self, id: &str, now: u64) -> (r: Option<Snapshot>)
        ensures
            final(self)@ == old(self)@.after_lookup(id@, now as nat),
            final(self)@.well_formed(),
            r is None ==> entry_under(final(self)@.entries, id@) is None,
            match r {
                Some(snapshot) => old(self)@.fresh_entry(id@, now as nat) matches Some(entry)
                    && entry.snapshot == snapshot@,
                None => old(self)@.fresh_entry(id@, now as nat) is None,
            },
    {
        proof {
            use_type_invariant(&*self);
            lemma_touched(stored(self.store), id@, id@);
            lemma_removed(stored(self.store), id@, id@);
            lemma_touch_then_remove(stored(self.store), id@);
            use_type_invariant(&self.flights);
            lemma_lookup_keeps_clear(stored(self.store), self.flights@, id@);
        }
        match store_get(&mut self.store, id) {
            Some(entry) => {
                if self.still_served(entry.inserted_at, now) {
                    Some(entry.snapshot)
                } else {
                    store_remove(&mut self.store, id);
                    None
                }
            },
            None => None,
        }
    }

    /// Looks `key` up at time `now` for the sake of marking it as used.
    /// Returns whether a fresh entry was found.
    pub fn touch(&mut self, key: &ContentKey, now: u64) -> (r: bool)
        ensures
            final(self)@ == old(self)@.after_lookup(key@.identifier(), now as nat),
            final(self)@.well_formed(),
            r == old(self)@.fresh_entry(key@.identifier(), now as nat) is Some,
    {
        self.lookup(key, now).is_some()
    }

    /// Asks for the statistics of `key` at time `now`.
    ///
    /// A fresh entry is served. Otherwise the caller is told to compute
    /// when no computation for the key is in flight, and the key is then
    /// in flight until `finish`; and told to wait when one is.
    pub fn begin(&mut self, key: &ContentKey, now: u64) -> (r: Admission)
        ensures
            r@ == old(self)@.admission(key@.identifier(), now as nat),
            final(self)@ == old(self)@.after_begin(key@.identifier(), now as nat),
            final(self)@.well_formed(),
    {
        let id = key.identifier();
        match self.lookup_id(id.as_str(), now) {
            Some(snapshot) => Admission::Hit(snapshot),
            None => {
                proof {
                    use_type_invariant(&*self);
                    use_type_invariant(&self.flights);
                    lemma_seat_keeps_clear(stored(self.store), self.flights@, id@);
                }
                let mut flights = Flights::new();
                std::mem::swap(&mut self.flights, &mut flights);
                let seat = flights.take_seat(id.as_str());
                self.flights = flights;
                match seat {
                    Seat::Lead(t) => Admission::Lead(t),
                    Seat::Wait(t) => Admission::Wait(t),
                    Seat::Crowded => Admission::Crowded,
                }
            },
        }
    }

    /// Reports the outcome of the computation under `ticket`, which ended
    /// at time `now`, and hands the outcome back.
    ///
    /// The computation is settled: the callers that wait for it collect
    /// this outcome. A snapshot is stored under the key of the computation
    /// with the time `now`; a failure stores nothing, so that the next
    /// caller is told to compute.
    pub fn finish(&mut self, ticket: usize, outcome: Result<Snapshot, ComputeError>, now: u64) -> (r:
        Result<Snapshot, ComputeError>)
        ensures
            outcome_of(r) == outcome_of(outcome),
            final(self)@ == old(self)@.after_finish(ticket as int, outcome_of(outcome), now as nat),
            final(self)@.well_formed(),
    {
        proof {
            use_type_invariant(&*self);
            use_type_invariant(&self.flights);
            lemma_settle_keeps_clear(
                stored(self.store),
                self.flights@,
                self.capacity as nat,
                ticket as int,
                outcome_of(outcome),
                now as nat,
            );
        }
        let mut flights = Flights::new();
        std::mem::swap(&mut self.flights, &mut flights);
        let settled_key = flights.settle(ticket, &outcome);
        self.flights = flights;
        match settled_key {
            Some(id) => match outcome {
                Ok(snapshot) => {
                    let entry = CacheEntry { snapshot: snapshot.clone(), inserted_at: now };
                    proof {
                        lemma_inserted(stored(self.store), self.capacity as nat, id@, entry@);
                    }
                    store_set(&mut self.store, id, entry);
                    Ok(snapshot)
                },
                Err(e) => Err(e),
            },
            None => outcome,
        }
    }

    /// Collects, for one caller that was told to wait under `ticket`, the
    /// outcome of the computation it waits for.
    ///
    /// While the computation runs the caller is told so, and is to wait
    /// on. Once it is settled each caller that waits receives its outcome
    /// once.
    pub fn collect(&mut self, ticket: usize) -> (r: Collected)
        ensures
            r@ == collection(old(self)@.flights, ticket as int),
            final(self)@ == old(self)@.after_collect(ticket as int),
            final(self)@.well_formed(),
    {
        proof {
            use_type_invariant(&*self);
            use_type_invariant(&self.flights);
            lemma_waiting_keeps_clear(stored(self.store), self.flights@, ticket as int);
        }
        let mut flights = Flights::new();
        std::mem::swap(&mut self.flights, &mut flights);
        let told = flights.collect(ticket);
        self.flights = flights;
        told
    }

    /// Takes a caller that was told to wait under `ticket` off the ticket,
    /// when it will not collect.
    pub fn abandon(&mut self, ticket: usize)
        ensures
            final(self)@ == old(self)@.after_abandon(ticket as int),
            final(self)@.well_formed(),
    {
        proof {
            use_type_invariant(&*self);
            use_type_invariant(&self.flights);
            lemma_waiting_keeps_clear(stored(self.store), self.flights@, ticket as int);
        }
        let mut flights = Flights::new();
        std::mem::swap(&mut self.flights, &mut flights);
        flights.abandon(ticket);
        self.flights = flights;
    }
}

/// What a caller receives for the outcome of a computation: the snapshot,
/// marked as not served from the cache, or the failure.
pub open spec fn computed_answer(outcome: OutcomeModel) -> Result<(SnapshotModel, bool), ComputeError> {
    match outcome {
        Ok(snapshot) => Ok((snapshot, false)),
        Err(e) => Err(e),
    }
}

/// What an answer holds.
pub open spec fn answer_of(answer: Result<(Snapshot, bool), ComputeError>) -> Result<
    (SnapshotModel, bool),
    ComputeError,
> {
    match answer {
        Ok((snapshot, was_cached)) => Ok((snapshot@, was_cached)),
        Err(e) => Err(e),
    }
}

/// The answer for the outcome of a computation, for the caller that
/// computed and for each caller that waited alike.
pub fn answer_for(outcome: Result<Snapshot, ComputeError>) -> (r: Result<
    (Snapshot, bool),
    ComputeError,
>)
    ensures
        answer_of(r) == computed_answer(outcome_of(outcome)),
{
    match outcome {
        Ok(snapshot) => Ok((snapshot, false)),
        Err(e) => Err(e),
    }
}

impl StatsCache {
    /// The statistics of `key` at time `now`, for a caller that holds the
    /// cache alone: from the cache when a fresh entry is there, and else
    /// from `compute`, whose snapshot is stored with the time `now`.
    ///
    /// The flag of the answer tells whether the snapshot came from the
    /// cache. A failure of `compute` is handed on and stores nothing.
    /// When a computation for the key is in flight already, `compute` is
    /// not called, nothing but the lookup happens, and the answer is
    /// `ComputeError::InFlight`: a caller that holds the cache alone
    /// cannot wait.
    pub fn get_or_compute<F: FnOnce() -> Result<Snapshot, ComputeError>>(
        &mut self,
        key: &ContentKey,
        now: u64,
        compute: F,
    ) -> (r: Result<(Snapshot, bool), ComputeError>)
        requires
            call_requires(compute, ()),
        ensures
            final(self)@.well_formed(),
            match old(self)@.admission(key@.identifier(), now as nat) {
                AdmissionModel::Hit(snapshot) => answer_of(r) == Ok::<
                    (SnapshotModel, bool),
                    ComputeError,
                >((snapshot, true)) && final(self)@ == old(self)@.after_lookup(
                    key@.identifier(),
                    now as nat,
                ),
                AdmissionModel::Lead(ticket) => exists|outcome: Result<Snapshot, ComputeError>|
                    call_ensures(compute, (), outcome) && answer_of(r) == computed_answer(
                        outcome_of(outcome),
                    ) && final(self)@ == old(self)@.after_begin(
                        key@.identifier(),
                        now as nat,
                    ).after_finish(ticket, outcome_of(outcome), now as nat),
                _ => answer_of(r) == Err::<(SnapshotModel, bool), ComputeError>(
                    ComputeError::InFlight,
                ) && final(self)@ == old(self)@.after_lookup(key@.identifier(), now as nat),
            },
    {
        let ghost looked = self@.after_lookup(key@.identifier(), now as nat);
        match self.begin(key, now) {
            Admission::Hit(snapshot) => Ok((snapshot, true)),
            Admission::Lead(ticket) => {
                let outcome = compute();
                answer_for(self.finish(ticket, outcome, now))
            },
            Admission::Wait(ticket) => {
                self.abandon(ticket);
                proof {
                    lemma_running_from(looked.flights, key@.identifier(), 0);
                    assert(self@.flights =~= looked.flights);
                }
                Err(ComputeError::InFlight)
            },
            Admission::Crowded => Err(ComputeError::InFlight),
        }
    }
}

/// Looking a key up stores nothing under the key of a computation that
/// runs.
proof fn lemma_lookup_keeps_clear(entries: Entries, flights: FlightsModel, key: Seq<char>)
    requires
        distinct_keys(entries),
        clear_of_flights(entries, flights),
    ensures
        clear_of_flights(touched(entries, key), flights),
        clear_of_flights(removed(entries, key), flights),
        clear_of_flights(removed(touched(entries, key), key), flights),
{
    lemma_touch_then_remove(entries, key);
    assert forall|t: int| #![trigger flights[t]] running_key(flights, t) is Some implies entry_under(
        touched(entries, key),
        running_key(flights, t)->0,
    ) is None && entry_under(removed(entries, key), running_key(flights, t)->0) is None by {
        lemma_touched(entries, key, running_key(flights, t)->0);
        lemma_removed(entries, key, running_key(flights, t)->0);
    }
}

/// A caller that takes a seat for a key that the cache does not hold
/// leaves nothing stored under the key of a computation that runs.
proof fn lemma_seat_keeps_clear(entries: Entries, flights: FlightsModel, key: Seq<char>)
    requires
        sound(flights),
        clear_of_flights(entries, flights),
        entry_under(entries, key) is None,
    ensures
        clear_of_flights(entries, seated(flights, key)),
{
    lemma_running_from(flights, key, 0);
    crate::flight::lemma_free_from(flights, 0);
    let after = seated(flights, key);
    assert forall|t: int| #![trigger after[t]] running_key(after, t) is Some implies entry_under(
        entries,
        running_key(after, t)->0,
    ) is None by {
        if t < flights.len() && after[t] != flights[t] {
            if running(flights, key) is Some {
                assert(running_key(flights, t) == running_key(after, t));
            }
        } else if t < flights.len() {
            assert(running_key(flights, t) == running_key(after, t));
        }
    }
}

/// Settling a computation, and storing what it computed, leaves nothing
/// stored under the key of a computation that still runs.
proof fn lemma_settle_keeps_clear(
    entries: Entries,
    flights: FlightsModel,
    capacity: nat,
    ticket: int,
    outcome: OutcomeModel,
    now: nat,
)
    requires
        distinct_keys(entries),
        entries.len() <= capacity,
        capacity > 0,
        sound(flights),
        clear_of_flights(entries, flights),
    ensures
        clear_of_flights(entries, settled(flights, ticket, outcome)),
        (running_key(flights, ticket), outcome) matches (Some(key), Ok(snapshot))
            ==> clear_of_flights(
            inserted(entries, capacity, key, CacheEntryModel { snapshot, inserted_at: now }),
            settled(flights, ticket, outcome),
        ),
{
    let after = settled(flights, ticket, outcome);
    assert forall|t: int| #![trigger after[t]] running_key(after, t) is Some implies entry_under(
        entries,
        running_key(after, t)->0,
    ) is None by {
        assert(running_key(flights, t) == running_key(after, t));
    }
    match (running_key(flights, ticket), outcome) {
        (Some(key), Ok(snapshot)) => {
            let entry = CacheEntryModel { snapshot, inserted_at: now };
            let stored = inserted(entries, capacity, key, entry);
            assert forall|t: int| #![trigger after[t]] running_key(after, t) is Some implies entry_under(
                stored,
                running_key(after, t)->0,
            ) is None by {
                let other = running_key(after, t)->0;
                assert(running_key(flights, t) == Some(other));
                assert(t != ticket);
                assert(other != key) by {
                    if other == key {
                        lemma_running_is_the_one(flights, key, ticket);
                        lemma_running_is_the_one(flights, key, t);
                    }
                }
                lemma_inserted_other(entries, capacity, key, entry, other);
            }
        },
        _ => {},
    }
}

/// Collecting and giving up change no computation that runs.
proof fn lemma_waiting_keeps_clear(entries: Entries, flights: FlightsModel, ticket: int)
    requires
        sound(flights),
        clear_of_flights(entries, flights),
    ensures
        clear_of_flights(entries, collected(flights, ticket)),
        clear_of_flights(entries, abandoned(flights, ticket)),
{
    let a = collected(flights, ticket);
    let b = abandoned(flights, ticket);
    assert forall|t: int| #![trigger a[t]] running_key(a, t) is Some implies entry_under(
        entries,
        running_key(a, t)->0,
    ) is None by {
        assert(running_key(flights, t) == running_key(a, t));
    }
    assert forall|t: int| #![trigger b[t]] running_key(b, t) is Some implies entry_under(
        entries,
        running_key(b, t)->0,
    ) is None by {
        assert(running_key(flights, t) == running_key(b, t));
    }
}

/// Every step of a cache leaves it well formed.
pub proof fn lemma_steps_keep_well_formed(
    cache: CacheModel,
    key: Seq<char>,
    ticket: int,
    now: nat,
    outcome: OutcomeModel,
)
    requires
        cache.well_formed(),
    ensures
        cache.after_lookup(key, now).well_formed(),
        cache.after_begin(key, now).well_formed(),
        cache.after_finish(ticket, outcome, now).well_formed(),
        cache.after_collect(ticket).well_formed(),
        cache.after_abandon(ticket).well_formed(),
{
    lemma_touched(cache.entries, key, key);
    lemma_removed(cache.entries, key, key);
    lemma_steps_keep_sound(cache.flights, key, ticket, outcome);
    lemma_lookup_keeps_clear(cache.entries, cache.flights, key);
    if cache.fresh_entry(key, now) is None {
        lemma_seat_keeps_clear(cache.after_lookup(key, now).entries, cache.flights, key);
    }
    lemma_settle_keeps_clear(cache.entries, cache.flights, cache.capacity, ticket, outcome, now);
    lemma_waiting_keeps_clear(cache.entries, cache.flights, ticket);
    match (running_key(cache.flights, ticket), outcome) {
        (Some(settled_key), Ok(snapshot)) => {
            lemma_inserted(
                cache.entries,
                cache.capacity,
                settled_key,
                CacheEntryModel { snapshot, inserted_at: now },
            );
        },
        _ => {},
    }
}

/// Looking a key up adds nothing and changes no value: whatever stands
/// under any key afterwards stood there before, there are no more entries
/// than before, and the computations in flight are as they were.
pub proof fn lemma_lookup_adds_nothing(cache: CacheModel, key: Seq<char>, now: nat, other: Seq<char>)
    requires
        cache.well_formed(),
    ensures
        entry_under(cache.after_lookup(key, now).entries, other) is Some ==> entry_under(
            cache.after_lookup(key, now).entries,
            other,
        ) == entry_under(cache.entries, other),
        cache.after_lookup(key, now).entries.len() <= cache.entries.len(),
        cache.after_lookup(key, now).flights == cache.flights,
{
    lemma_touched(cache.entries, key, other);
    lemma_removed(cache.entries, key, other);
}

/// Single flight: once a caller was told to compute for a key, the
/// computation runs under its ticket with nothing stored under the key,
/// and whoever asks for the key before the outcome is reported is told to
/// wait under that ticket, whenever that is; none is told to compute.
pub proof fn lemma_single_flight(cache: CacheModel, key: Seq<char>, now: nat, later: nat)
    requires
        cache.well_formed(),
        cache.admission(key, now) is Lead,
    ensures
        runs_at(cache.after_begin(key, now).flights, cache.admission(key, now)->Lead_0, key),
        entry_under(cache.after_begin(key, now).entries, key) is None,
        cache.after_begin(key, now).admission(key, later) == AdmissionModel::Wait(
            cache.admission(key, now)->Lead_0,
        ),
        cache.after_begin(key, now).after_begin(key, later).admission(key, later) !is Lead,
        cache.after_begin(key, now).after_begin(key, later).admission(key, later) !is Hit,
{
    lemma_removed(cache.entries, key, key);
    lemma_one_leader(cache.flights, key);
    lemma_running_from(seated(cache.flights, key), key, 0);
    let flying = cache.after_begin(key, now);
    lemma_slot_of(flying.entries, key);
    assert(removed(flying.entries, key) == flying.entries);
}

/// A computation in flight stays in flight, with nothing stored under its
/// key, whatever happens with another key and under other tickets.
pub proof fn lemma_in_flight_survives_others(
    cache: CacheModel,
    key: Seq<char>,
    ticket: int,
    other_key: Seq<char>,
    other_ticket: int,
    now: nat,
    outcome: OutcomeModel,
)
    requires
        cache.well_formed(),
        runs_at(cache.flights, ticket, key),
        other_key != key,
        other_ticket != ticket,
    ensures
        runs_at(cache.after_lookup(other_key, now).flights, ticket, key),
        entry_under(cache.after_lookup(other_key, now).entries, key) is None,
        runs_at(cache.after_begin(other_key, now).flights, ticket, key),
        entry_under(cache.after_begin(other_key, now).entries, key) is None,
        runs_at(cache.after_finish(other_ticket, outcome, now).flights, ticket, key),
        entry_under(cache.after_finish(other_ticket, outcome, now).entries, key) is None,
        runs_at(cache.after_collect(other_ticket).flights, ticket, key),
        runs_at(cache.after_abandon(other_ticket).flights, ticket, key),
{
    assert(running_key(cache.flights, ticket) == Some(key));
    lemma_touched(cache.entries, other_key, key);
    lemma_removed(cache.entries, other_key, key);
    lemma_flight_keeps_running(cache.flights, key, ticket, other_key, other_ticket, outcome);
    match (running_key(cache.flights, other_ticket), outcome) {
        (Some(settled_key), Ok(snapshot)) => {
            assert(settled_key != key) by {
                if settled_key == key {
                    assert(runs_at(cache.flights, other_ticket, key));
                    lemma_running_is_the_one(cache.flights, key, ticket);
                    lemma_running_is_the_one(cache.flights, key, other_ticket);
                }
            }
            lemma_inserted_other(
                cache.entries,
                cache.capacity,
                settled_key,
                CacheEntryModel { snapshot, inserted_at: now },
                key,
            );
        },
        _ => {},
    }
}

/// One result for all: when the computation under a ticket is reported
/// while callers wait for it, what each of them collects is the outcome
/// that was reported, and so their answer is the answer of the caller
/// that computed.
pub proof fn lemma_waiters_share_the_outcome(
    cache: CacheModel,
    ticket: int,
    outcome: OutcomeModel,
    now: nat,
)
    requires
        cache.well_formed(),
        running_key(cache.flights, ticket) is Some,
        cache.flights[ticket]->0.waiters > 0,
    ensures
        collection(cache.after_finish(ticket, outcome, now).flights, ticket)
            == CollectedModel::Ready(outcome),
        cache.flights[ticket]->0.waiters > 1 ==> collection(
            cache.after_finish(ticket, outcome, now).after_collect(ticket).flights,
            ticket,
        ) == CollectedModel::Ready(outcome),
{
}

/// Expiry: a snapshot stored at one time is served until that time plus
/// the time to live, and from then on it is not: the next caller is not
/// served from the cache, and the old entry is dropped.
pub proof fn lemma_entry_expires(
    cache: CacheModel,
    key: Seq<char>,
    ticket: int,
    snapshot: SnapshotModel,
    stored_at: nat,
    now: nat,
)
    requires
        cache.well_formed(),
        runs_at(cache.flights, ticket, key),
    ensures
        now < stored_at + cache.ttl ==> cache.after_finish(ticket, Ok(snapshot), stored_at).admission(
            key,
            now,
        ) == AdmissionModel::Hit(snapshot),
        now >= stored_at + cache.ttl ==> cache.after_finish(
            ticket,
            Ok(snapshot),
            stored_at,
        ).admission(key, now) is Lead,
        now >= stored_at + cache.ttl ==> entry_under(
            cache.after_finish(ticket, Ok(snapshot), stored_at).after_begin(key, now).entries,
            key,
        ) is None,
{
    let entry = CacheEntryModel { snapshot, inserted_at: stored_at };
    lemma_inserted(cache.entries, cache.capacity, key, entry);
    let after = cache.after_finish(ticket, Ok(snapshot), stored_at);
    lemma_removed(after.entries, key, key);
    lemma_settled_stops_running(cache.flights, key, ticket, Ok(snapshot));
}

/// Recomputation after expiry: when an entry is no longer served, the
/// caller that asks is told to compute, and the snapshot that it reports
/// takes the place of the old one and is served from then on.
pub proof fn lemma_expired_entry_is_replaced(
    cache: CacheModel,
    key: Seq<char>,
    ticket: int,
    old_snapshot: SnapshotModel,
    new_snapshot: SnapshotModel,
    stored_at: nat,
    now: nat,
    later: nat,
)
    requires
        cache.well_formed(),
        runs_at(cache.flights, ticket, key),
        now >= stored_at + cache.ttl,
        later < now + cache.ttl,
    ensures
        ({
            let stale = cache.after_finish(ticket, Ok(old_snapshot), stored_at);
            &&& stale.admission(key, now) is Lead
            &&& stale.after_begin(key, now).after_finish(
                stale.admission(key, now)->Lead_0,
                Ok(new_snapshot),
                now,
            ).admission(key, later) == AdmissionModel::Hit(new_snapshot)
        }),
{
    let stale = cache.after_finish(ticket, Ok(old_snapshot), stored_at);
    lemma_steps_keep_well_formed(cache, key, ticket, stored_at, Ok(old_snapshot));
    lemma_entry_expires(cache, key, ticket, old_snapshot, stored_at, now);
    let begun = stale.after_begin(key, now);
    lemma_steps_keep_well_formed(stale, key, ticket, now, Ok(old_snapshot));
    lemma_single_flight(stale, key, now, later);
    lemma_entry_expires(begun, key, stale.admission(key, now)->Lead_0, new_snapshot, now, later);
}

/// The bound: storing what a computation reports in a full cache drops
/// exactly one entry, the one used least recently, and keeps the others
/// in their order behind the new one. With room left nothing is dropped.
pub proof fn lemma_full_cache_drops_least_recent(
    cache: CacheModel,
    key: Seq<char>,
    ticket: int,
    snapshot: SnapshotModel,
    now: nat,
)
    requires
        cache.well_formed(),
        runs_at(cache.flights, ticket, key),
    ensures
        cache.entries.len() == cache.capacity ==> cache.after_finish(
            ticket,
            Ok(snapshot),
            now,
        ).entries == seq![(key, CacheEntryModel { snapshot, inserted_at: now })]
            + cache.entries.drop_last(),
        cache.entries.len() < cache.capacity ==> cache.after_finish(
            ticket,
            Ok(snapshot),
            now,
        ).entries == seq![(key, CacheEntryModel { snapshot, inserted_at: now })] + cache.entries,
        cache.after_finish(ticket, Ok(snapshot), now).entries.len() <= cache.capacity,
{
    assert(running_key(cache.flights, ticket) == Some(key));
    lemma_inserted(
        cache.entries,
        cache.capacity,
        key,
        CacheEntryModel { snapshot, inserted_at: now },
    );
}

/// Key identity: two keys that differ only in the branch are computed
/// apart and stored as two entries, each with its own snapshot, in a
/// cache that has room for two.
pub proof fn lemma_branches_are_cached_apart(
    cache: CacheModel,
    url: Seq<char>,
    commit: Seq<char>,
    branch_a: Seq<char>,
    branch_b: Seq<char>,
    ticket_a: int,
    ticket_b: int,
    snapshot_a: SnapshotModel,
    snapshot_b: SnapshotModel,
    now: nat,
)
    requires
        cache.well_formed(),
        cache.capacity >= 2,
        branch_a != branch_b,
        runs_at(cache.flights, ticket_a, identifier_of(url, commit, branch_a)),
        runs_at(cache.flights, ticket_b, identifier_of(url, commit, branch_b)),
    ensures
        ({
            let key_a = identifier_of(url, commit, branch_a);
            let key_b = identifier_of(url, commit, branch_b);
            let after = cache.after_finish(ticket_a, Ok(snapshot_a), now).after_finish(
                ticket_b,
                Ok(snapshot_b),
                now,
            );
            &&& key_a != key_b
            &&& ticket_a != ticket_b
            &&& entry_under(after.entries, key_a) == Some(
                CacheEntryModel { snapshot: snapshot_a, inserted_at: now },
            )
            &&& entry_under(after.entries, key_b) == Some(
                CacheEntryModel { snapshot: snapshot_b, inserted_at: now },
            )
        }),
{
    let key_a = identifier_of(url, commit, branch_a);
    let key_b = identifier_of(url, commit, branch_b);
    lemma_branch_distinguishes(url, commit, branch_a, branch_b);
    assert(running_key(cache.flights, ticket_a) == Some(key_a));
    let entry_a = CacheEntryModel { snapshot: snapshot_a, inserted_at: now };
    let entry_b = CacheEntryModel { snapshot: snapshot_b, inserted_at: now };
    lemma_inserted(cache.entries, cache.capacity, key_a, entry_a);
    let first = cache.after_finish(ticket_a, Ok(snapshot_a), now);
    assert(runs_at(first.flights, ticket_b, key_b));
    assert(first.entries[0] == (key_a, entry_a));
    lemma_inserted(first.entries, cache.capacity, key_b, entry_b);
    lemma_inserted_other(first.entries, cache.capacity, key_b, entry_b, key_a);
    if first.entries.len() == cache.capacity && first.entries.last().0 == key_a {
        assert(first.entries[first.entries.len() - 1].0 != first.entries[0].0 || first.entries.len()
            == 1);
    }
}

/// Key identity, for any two keys: what is stored for one key is never
/// served for another. After the computation for one key is reported,
/// whatever stands under a different key stood there before.
pub proof fn lemma_keys_are_cached_apart(
    cache: CacheModel,
    key: ContentKeyModel,
    other: ContentKeyModel,
    ticket: int,
    outcome: OutcomeModel,
    now: nat,
)
    requires
        cache.well_formed(),
        runs_at(cache.flights, ticket, key.identifier()),
        other != key,
    ensures
        other.identifier() != key.identifier(),
        entry_under(cache.after_finish(ticket, outcome, now).entries, other.identifier()) is Some
            ==> entry_under(
            cache.after_finish(ticket, outcome, now).entries,
            other.identifier(),
        ) == entry_under(cache.entries, other.identifier()),
{
    if other.identifier() == key.identifier() {
        lemma_keys_have_their_own_identifier(other, key);
    }
    assert(running_key(cache.flights, ticket) == Some(key.identifier()));
    match outcome {
        Ok(snapshot) => {
            lemma_inserted_other(
                cache.entries,
                cache.capacity,
                key.identifier(),
                CacheEntryModel { snapshot, inserted_at: now },
                other.identifier(),
            );
        },
        Err(_) => {},
    }
}

/// Failures are not stored: when the computation for a key fails, the
/// entries are as they were when it began, nothing stands under the key,
/// no computation runs for the key, and the next caller is told to
/// compute.
pub proof fn lemma_failure_stores_nothing(
    cache: CacheModel,
    key: Seq<char>,
    now: nat,
    failure: ComputeError,
    failed_at: nat,
    later: nat,
)
    requires
        cache.well_formed(),
        cache.admission(key, now) is Lead,
    ensures
        ({
            let ticket = cache.admission(key, now)->Lead_0;
            let failed = cache.after_begin(key, now).after_finish(ticket, Err(failure), failed_at);
            &&& failed.entries == cache.after_begin(key, now).entries
            &&& entry_under(failed.entries, key) is None
            &&& running(failed.flights, key) is None
            &&& failed.admission(key, later) is Lead
            &&& failed.well_formed()
        }),
{
    let ticket = cache.admission(key, now)->Lead_0;
    lemma_single_flight(cache, key, now, later);
    lemma_steps_keep_well_formed(cache, key, ticket, now, Err(failure));
    let begun = cache.after_begin(key, now);
    lemma_steps_keep_well_formed(begun, key, ticket, failed_at, Err(failure));
    lemma_settled_stops_running(begun.flights, key, ticket, Err(failure));
}

/// After a failure the next computation populates the cache as any
/// other: its snapshot is served while it is fresh.
pub proof fn lemma_success_after_failure(
    cache: CacheModel,
    key: Seq<char>,
    now: nat,
    failure: ComputeError,
    snapshot: SnapshotModel,
    retried_at: nat,
    later: nat,
)
    requires
        cache.well_formed(),
        cache.admission(key, now) is Lead,
        later < retried_at + cache.ttl,
    ensures
        ({
            let failed = cache.after_begin(key, now).after_finish(
                cache.admission(key, now)->Lead_0,
                Err(failure),
                now,
            );
            &&& failed.admission(key, retried_at) is Lead
            &&& failed.after_begin(key, retried_at).after_finish(
                failed.admission(key, retried_at)->Lead_0,
                Ok(snapshot),
                retried_at,
            ).admission(key, later) == AdmissionModel::Hit(snapshot)
        }),
{
    lemma_failure_stores_nothing(cache, key, now, failure, now, retried_at);
    let failed = cache.after_begin(key, now).after_finish(
        cache.admission(key, now)->Lead_0,
        Err(failure),
        now,
    );
    lemma_single_flight(failed, key, retried_at, later);
    lemma_steps_keep_well_formed(failed, key, 0, retried_at, Ok(snapshot));
    lemma_entry_expires(
        failed.after_begin(key, retried_at),
        key,
        failed.admission(key, retried_at)->Lead_0,
        snapshot,
        retried_at,
        later,
    );
}

} // verus!
