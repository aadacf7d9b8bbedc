//! Computations in flight: for each key at most one computation runs at a
//! time, and the callers that ask for the key meanwhile wait for its
//! outcome and all receive it.
//!
//! A computation is known by its ticket. The caller that was told to
//! compute settles the ticket with the outcome; each caller that was told
//! to wait collects the outcome under the same ticket. When the last of
//! them has collected, the ticket is free for another computation.

use vstd::prelude::*;
use crate::stats::{ComputeError, Snapshot, SnapshotModel};
use crate::text::same_text;

verus! {

/// The outcome of a computation.
pub type OutcomeModel = Result<SnapshotModel, ComputeError>;

/// What the outcome of a computation holds.
pub open spec fn outcome_of(outcome: Result<Snapshot, ComputeError>) -> OutcomeModel {
    match outcome {
        Ok(snapshot) => Ok(snapshot@),
        Err(e) => Err(e),
    }
}

/// What is known of one computation.
pub struct FlightModel {
    /// The identifier of the key that is computed.
    pub key: Seq<char>,
    /// The number of callers that wait and have not collected yet.
    pub waiters: nat,
    /// The outcome, once the computation is settled.
    pub outcome: Option<OutcomeModel>,
}

/// The computations by their tickets; a ticket without a computation is
/// free.
pub type FlightsModel = Seq<Option<FlightModel>>;

/// What a caller that asks for a seat is told.
#[derive(Clone, Copy, Debug, PartialEq, Eq, Structural)]
pub enum Seat {
    /// Nobody computes for the key: the caller is to compute, and to
    /// settle this ticket.
    Lead(usize),
    /// Another caller computes for the key: the caller is to wait, and to
    /// collect under this ticket.
    Wait(usize),
    /// Another caller computes for the key, and no more callers can wait.
    Crowded,
}

/// What a caller that asks for a seat is told.
pub enum SeatModel {
    Lead(int),
    Wait(int),
    Crowded,
}

impl View for Seat {
    type V = SeatModel;

    open spec fn view(&self) -> SeatModel {
        match self {
            Seat::Lead(t) => SeatModel::Lead(*t as int),
            Seat::Wait(t) => SeatModel::Wait(*t as int),
            Seat::Crowded => SeatModel::Crowded,
        }
    }
}

/// What a caller that collects is told.
pub enum Collected {
    /// The computation is settled; this is its outcome.
    Ready(Result<Snapshot, ComputeError>),
    /// The computation still runs.
    Pending,
    /// Nobody waits under the ticket.
    Unknown,
}

/// What a caller that collects is told.
pub enum CollectedModel {
    Ready(OutcomeModel),
    Pending,
    Unknown,
}

impl View for Collected {
    type V = CollectedModel;

    open spec fn view(&self) -> CollectedModel {
        match self {
            Collected::Ready(outcome) => CollectedModel::Ready(outcome_of(*outcome)),
            Collected::Pending => CollectedModel::Pending,
            Collected::Unknown => CollectedModel::Unknown,
        }
    }
}

/// Whether the computation under ticket `t` is for `key` and still runs.
pub open spec fn runs_at(flights: FlightsModel, t: int, key: Seq<char>) -> bool {
    0 <= t < flights.len() && (flights[t] matches Some(flight) && flight.key == key
        && flight.outcome is None)
}

/// The first ticket at or after `from` whose computation is for `key` and
/// still runs.
pub open spec fn running_from(flights: FlightsModel, key: Seq<char>, from: int) -> Option<int>
    decreases flights.len() - from,
{
    if from < 0 || from >= flights.len() {
        None
    } else if runs_at(flights, from, key) {
        Some(from)
    } else {
        running_from(flights, key, from + 1)
    }
}

/// The ticket of the computation that runs for `key`.
pub open spec fn running(flights: FlightsModel, key: Seq<char>) -> Option<int> {
    running_from(flights, key, 0)
}

/// The first free ticket at or after `from`; the number of tickets when
/// none is free.
pub open spec fn free_from(flights: FlightsModel, from: int) -> int
    decreases flights.len() - from,
{
    if from < 0 || from >= flights.len() {
        flights.len() as int
    } else if flights[from] is None {
        from
    } else {
        free_from(flights, from + 1)
    }
}

/// The flights with `flight` under ticket `t`, which is a ticket of
/// `flights` or the next one.
pub open spec fn placed(flights: FlightsModel, t: int, flight: FlightModel) -> FlightsModel {
    if t < flights.len() {
        flights.update(t, Some(flight))
    } else {
        flights.push(Some(flight))
    }
}

/// What a caller that asks for a seat for `key` is told.
pub open spec fn seat_for(flights: FlightsModel, key: Seq<char>) -> SeatModel {
    match running(flights, key) {
        Some(t) => if flights[t]->0.waiters < u64::MAX {
            SeatModel::Wait(t)
        } else {
            SeatModel::Crowded
        },
        None => SeatModel::Lead(free_from(flights, 0)),
    }
}

/// The flights after a caller asked for a seat for `key`: it waits for
/// the computation that runs, or a computation is opened for it under the
/// first free ticket.
pub open spec fn seated(flights: FlightsModel, key: Seq<char>) -> FlightsModel {
    match running(flights, key) {
        Some(t) => if flights[t]->0.waiters < u64::MAX {
            flights.update(
                t,
                Some(FlightModel { waiters: flights[t]->0.waiters + 1, ..flights[t]->0 }),
            )
        } else {
            flights
        },
        None => placed(
            flights,
            free_from(flights, 0),
            FlightModel { key, waiters: 0, outcome: None },
        ),
    }
}

/// The key of the computation that runs under ticket `t`.
pub open spec fn running_key(flights: FlightsModel, t: int) -> Option<Seq<char>> {
    if 0 <= t < flights.len() && (flights[t] matches Some(flight) && flight.outcome is None) {
        Some(flights[t]->0.key)
    } else {
        None
    }
}

/// The flights after the computation under ticket `t` was settled with
/// `outcome`: the outcome is kept for the callers that wait, and the
/// ticket is free at once when there are none. A ticket under which no
/// computation runs changes nothing.
pub open spec fn settled(flights: FlightsModel, t: int, outcome: OutcomeModel) -> FlightsModel {
    if running_key(flights, t) is Some {
        if flights[t]->0.waiters == 0 {
            flights.update(t, None)
        } else {
            flights.update(t, Some(FlightModel { outcome: Some(outcome), ..flights[t]->0 }))
        }
    } else {
        flights
    }
}

/// What a caller that collects under ticket `t` is told.
pub open spec fn collection(flights: FlightsModel, t: int) -> CollectedModel {
    if 0 <= t < flights.len() && (flights[t] matches Some(flight) && flight.waiters > 0) {
        match flights[t]->0.outcome {
            Some(outcome) => CollectedModel::Ready(outcome),
            None => CollectedModel::Pending,
        }
    } else {
        CollectedModel::Unknown
    }
}

/// The flights with one caller less under ticket `t`; the ticket is free
/// when that was the last one and the computation is settled.
pub open spec fn one_less(flights: FlightsModel, t: int) -> FlightsModel {
    if flights[t]->0.waiters == 1 && flights[t]->0.outcome is Some {
        flights.update(t, None)
    } else {
        flights.update(
            t,
            Some(FlightModel { waiters: (flights[t]->0.waiters - 1) as nat, ..flights[t]->0 }),
        )
    }
}

/// The flights after a caller collected under ticket `t`: when it
/// received the outcome it waits no longer.
pub open spec fn collected(flights: FlightsModel, t: int) -> FlightsModel {
    if collection(flights, t) is Ready {
        one_less(flights, t)
    } else {
        flights
    }
}

/// The flights after a caller that waited under ticket `t` gave up.
pub open spec fn abandoned(flights: FlightsModel, t: int) -> FlightsModel {
    if collection(flights, t) is Unknown {
        flights
    } else {
        one_less(flights, t)
    }
}

/// Whether the flights are as all flights are: no two computations run
/// for one key, and a settled computation is kept only while callers wait
/// for its outcome.
pub open spec fn sound(flights: FlightsModel) -> bool {
    &&& forall|i: int, j: int|
        0 <= i < j < flights.len() && (#[trigger] flights[i]) is Some && flights[i]->0.outcome is None
            && (#[trigger] flights[j]) is Some && flights[j]->0.outcome is None
            ==> flights[i]->0.key != flights[j]->0.key
    &&& forall|i: int|
        0 <= i < flights.len() && (#[trigger] flights[i]) is Some && flights[i]->0.outcome is Some
            ==> flights[i]->0.waiters > 0
    &&& forall|i: int|
        0 <= i < flights.len() && (#[trigger] flights[i]) is Some ==> flights[i]->0.waiters
            <= u64::MAX
}

/// `running_from` gives the least ticket at or after `from` whose
/// computation is for the key and still runs.
pub proof fn lemma_running_from(flights: FlightsModel, key: Seq<char>, from: int)
    requires
        0 <= from,
    ensures
        match running_from(flights, key, from) {
            Some(t) => from <= t && runs_at(flights, t, key) && forall|j: int|
                from <= j < t ==> !runs_at(flights, j, key),
            None => forall|j: int| from <= j ==> !runs_at(flights, j, key),
        },
    decreases flights.len() - from,
{
    if from < flights.len() && !runs_at(flights, from, key) {
        lemma_running_from(flights, key, from + 1);
    }
}

/// `free_from` gives the least free ticket at or after `from`, or the
/// number of tickets.
pub proof fn lemma_free_from(flights: FlightsModel, from: int)
    requires
        0 <= from <= flights.len(),
    ensures
        from <= free_from(flights, from) <= flights.len(),
        free_from(flights, from) < flights.len() ==> flights[free_from(flights, from)] is None,
        forall|j: int| from <= j < free_from(flights, from) ==> (#[trigger] flights[j]) is Some,
    decreases flights.len() - from,
{
    if from < flights.len() && flights[from] is Some {
        lemma_free_from(flights, from + 1);
    }
}

/// Among sound flights, the computation that runs for a key is the one
/// that `running` gives.
pub proof fn lemma_running_is_the_one(flights: FlightsModel, key: Seq<char>, t: int)
    requires
        sound(flights),
        runs_at(flights, t, key),
    ensures
        running(flights, key) == Some(t),
{
    lemma_running_from(flights, key, 0);
    let found = running(flights, key)->0;
    if found != t {
        if found < t {
            assert(flights[found]->0.key != flights[t]->0.key);
        } else {
            assert(flights[t]->0.key != flights[found]->0.key);
        }
    }
}

/// Every step leaves sound flights sound.
pub proof fn lemma_steps_keep_sound(
    flights: FlightsModel,
    key: Seq<char>,
    t: int,
    outcome: OutcomeModel,
)
    requires
        sound(flights),
    ensures
        sound(seated(flights, key)),
        sound(settled(flights, t, outcome)),
        sound(collected(flights, t)),
        sound(abandoned(flights, t)),
{
    lemma_running_from(flights, key, 0);
    lemma_free_from(flights, 0);
    let after = seated(flights, key);
    match running(flights, key) {
        Some(seat) => {},
        None => {
            let free = free_from(flights, 0);
            assert forall|i: int, j: int|
                0 <= i < j < after.len() && (#[trigger] after[i]) is Some && after[i]->0.outcome is None
                    && (#[trigger] after[j]) is Some && after[j]->0.outcome is None implies after[i]->0.key
                != after[j]->0.key by {
                if i == free {
                    assert(!runs_at(flights, j, key));
                    assert(after[j] == flights[j]);
                } else if j == free {
                    assert(!runs_at(flights, i, key));
                    assert(after[i] == flights[i]);
                } else {
                    assert(after[i] == flights[i] && after[j] == flights[j]);
                }
            }
        },
    }
}

/// Single flight: once a computation is opened for a key, every caller
/// that asks for a seat for the key is told to wait under the same ticket,
/// or that no more can wait; none is told to compute.
pub proof fn lemma_one_leader(flights: FlightsModel, key: Seq<char>)
    requires
        sound(flights),
        seat_for(flights, key) is Lead,
    ensures
        running(seated(flights, key), key) == Some(seat_for(flights, key)->Lead_0),
        seat_for(seated(flights, key), key) == SeatModel::Wait(seat_for(flights, key)->Lead_0),
        seat_for(seated(seated(flights, key), key), key) !is Lead,
{
    lemma_running_from(flights, key, 0);
    lemma_free_from(flights, 0);
    lemma_steps_keep_sound(flights, key, 0, Err(ComputeError::InFlight));
    let first = seated(flights, key);
    let t = free_from(flights, 0);
    assert(runs_at(first, t, key));
    lemma_running_is_the_one(first, key, t);
    let second = seated(first, key);
    assert(runs_at(second, t, key));
    lemma_steps_keep_sound(first, key, 0, Err(ComputeError::InFlight));
    lemma_running_is_the_one(second, key, t);
}

/// Settling ends the flight: once the computation for a key is settled,
/// no computation runs for the key.
pub proof fn lemma_settled_stops_running(
    flights: FlightsModel,
    key: Seq<char>,
    t: int,
    outcome: OutcomeModel,
)
    requires
        sound(flights),
        runs_at(flights, t, key),
    ensures
        running(settled(flights, t, outcome), key) is None,
        seat_for(settled(flights, t, outcome), key) is Lead,
{
    let after = settled(flights, t, outcome);
    lemma_running_from(after, key, 0);
    if running(after, key) is Some {
        let found = running(after, key)->0;
        assert(found != t);
        assert(after[found] == flights[found]);
        assert(runs_at(flights, found, key));
        if found < t {
            assert(flights[found]->0.key != flights[t]->0.key);
        } else {
            assert(flights[t]->0.key != flights[found]->0.key);
        }
    }
}

/// Waiting does not disturb the computation: while it runs, callers that
/// take a seat for its key, and anything that happens under other
/// tickets, leave it running under its ticket.
pub proof fn lemma_flight_keeps_running(
    flights: FlightsModel,
    key: Seq<char>,
    t: int,
    other_key: Seq<char>,
    other: int,
    outcome: OutcomeModel,
)
    requires
        sound(flights),
        runs_at(flights, t, key),
        other != t,
    ensures
        runs_at(seated(flights, other_key), t, key),
        runs_at(settled(flights, other, outcome), t, key),
        runs_at(collected(flights, other), t, key),
        runs_at(abandoned(flights, other), t, key),
{
    lemma_running_from(flights, other_key, 0);
    lemma_free_from(flights, 0);
}

/// The flights after `n` callers in a row asked for a seat for `key`.
pub open spec fn seated_times(flights: FlightsModel, key: Seq<char>, n: nat) -> FlightsModel
    decreases n,
{
    if n == 0 {
        flights
    } else {
        seated(seated_times(flights, key, (n - 1) as nat), key)
    }
}

/// The flights after `n` callers in a row collected under ticket `t`.
pub open spec fn collected_times(flights: FlightsModel, t: int, n: nat) -> FlightsModel
    decreases n,
{
    if n == 0 {
        flights
    } else {
        collected(collected_times(flights, t, (n - 1) as nat), t)
    }
}

/// While a computation runs, each caller that asks for a seat for its key
/// is told to wait under its ticket, and is counted.
pub proof fn lemma_seated_times(flights: FlightsModel, key: Seq<char>, t: int, n: nat)
    requires
        sound(flights),
        runs_at(flights, t, key),
        flights[t]->0.waiters + n <= u64::MAX,
    ensures
        sound(seated_times(flights, key, n)),
        runs_at(seated_times(flights, key, n), t, key),
        seated_times(flights, key, n)[t]->0.waiters == flights[t]->0.waiters + n,
        n > 0 ==> seat_for(seated_times(flights, key, (n - 1) as nat), key) == SeatModel::Wait(t),
    decreases n,
{
    if n > 0 {
        let before = seated_times(flights, key, (n - 1) as nat);
        lemma_seated_times(flights, key, t, (n - 1) as nat);
        lemma_running_is_the_one(before, key, t);
        lemma_steps_keep_sound(before, key, t, Err(ComputeError::InFlight));
    }
}

/// Once a computation is settled, each caller that collects under its
/// ticket receives its outcome, until all that waited have collected; the
/// ticket is free then.
pub proof fn lemma_collected_times(flights: FlightsModel, t: int, outcome: OutcomeModel, n: nat)
    requires
        sound(flights),
        0 <= t < flights.len(),
        flights[t] is Some,
        flights[t]->0.outcome == Some(outcome),
        n <= flights[t]->0.waiters,
    ensures
        sound(collected_times(flights, t, n)),
        collected_times(flights, t, n).len() == flights.len(),
        n < flights[t]->0.waiters ==> collection(collected_times(flights, t, n), t)
            == CollectedModel::Ready(outcome) && collected_times(flights, t, n)[t]->0.waiters
            == flights[t]->0.waiters - n,
        n == flights[t]->0.waiters ==> collected_times(flights, t, n)[t] is None,
    decreases n,
{
    if n > 0 {
        let before = collected_times(flights, t, (n - 1) as nat);
        lemma_collected_times(flights, t, outcome, (n - 1) as nat);
        lemma_steps_keep_sound(before, Seq::empty(), t, outcome);
    }
}

/// One computation, one result for all: when a caller was told to compute
/// for a key and `n` more ask for the key while it computes, each of them
/// is told to wait under the ticket of the first; and when the first
/// settles its ticket, each of the `n` collects the outcome it settled
/// with, after which the ticket is free.
pub proof fn lemma_one_result_for_all(
    flights: FlightsModel,
    key: Seq<char>,
    n: nat,
    i: nat,
    outcome: OutcomeModel,
)
    requires
        sound(flights),
        seat_for(flights, key) is Lead,
        i < n <= u64::MAX,
    ensures
        ({
            let t = seat_for(flights, key)->Lead_0;
            let led = seated(flights, key);
            let told = settled(seated_times(led, key, n), t, outcome);
            &&& seat_for(seated_times(led, key, i), key) == SeatModel::Wait(t)
            &&& collection(collected_times(told, t, i), t) == CollectedModel::Ready(outcome)
            &&& collected_times(told, t, n)[t] is None
        }),
{
    let t = seat_for(flights, key)->Lead_0;
    let led = seated(flights, key);
    lemma_one_leader(flights, key);
    lemma_running_from(led, key, 0);
    lemma_running_from(flights, key, 0);
    lemma_free_from(flights, 0);
    lemma_steps_keep_sound(flights, key, t, outcome);
    assert(led[t]->0.waiters == 0);
    lemma_seated_times(led, key, t, (i + 1) as nat);
    lemma_seated_times(led, key, t, n);
    let crowd = seated_times(led, key, n);
    lemma_steps_keep_sound(crowd, key, t, outcome);
    let told = settled(crowd, t, outcome);
    lemma_collected_times(told, t, outcome, i);
    lemma_collected_times(told, t, outcome, n);
}

/// What is known of one computation.
pub struct Flight {
    key: String,
    waiters: u64,
    outcome: Option<Result<Snapshot, ComputeError>>,
}

impl View for Flight {
    type V = FlightModel;

    closed spec fn view(&self) -> FlightModel {
        FlightModel {
            key: self.key@,
            waiters: self.waiters as nat,
            outcome: match self.outcome {
                Some(outcome) => Some(outcome_of(outcome)),
                None => None,
            },
        }
    }
}

/// What the slots of computations hold.
pub open spec fn flights_of(slots: Seq<Option<Flight>>) -> FlightsModel {
    slots.map_values(
        |slot: Option<Flight>|
            match slot {
                Some(flight) => Some(flight@),
                None => None,
            },
    )
}

/// A copy of `outcome`.
pub fn clone_outcome(outcome: &Result<Snapshot, ComputeError>) -> (r: Result<Snapshot, ComputeError>)
    ensures
        outcome_of(r) == outcome_of(*outcome),
{
    match outcome {
        Ok(snapshot) => Ok(snapshot.clone()),
        Err(e) => Err(*e),
    }
}

/// The computations in flight, by their tickets.
pub struct Flights {
    slots: Vec<Option<Flight>>,
}

impl View for Flights {
    type V = FlightsModel;

    closed spec fn view(&self) -> FlightsModel {
        flights_of(self.slots@)
    }
}

impl Flights {
    /// What holds of all flights at all times.
    #[verifier::type_invariant]
    pub open spec fn well_formed(self) -> bool {
        sound(self@)
    }

    /// No computations.
    pub fn new() -> (r: Flights)
        ensures
            r@ == Seq::<Option<FlightModel>>::empty(),
            sound(r@),
    {
        let r = Flights { slots: Vec::new() };
        assert(flights_of(r.slots@) =~= Seq::empty());
        r
    }

    /// The number of tickets, free ones among them.
    pub fn tickets(&self) -> (n: usize)
        ensures
            n == self@.len(),
            sound(self@),
    {
        proof {
            use_type_invariant(self);
        }
        self.slots.len()
    }

    /// The ticket of the computation that runs for `key`.
    pub fn running_for(&self, key: &str) -> (r: Option<usize>)
        ensures
            sound(self@),
            match r {
                Some(t) => running(self@, key@) == Some(t as int),
                None => running(self@, key@) is None,
            },
    {
        proof {
            use_type_invariant(self);
        }
        let mut i: usize = 0;
        while i < self.slots.len()
            invariant
                i <= self.slots.len(),
                sound(flights_of(self.slots@)),
                running(flights_of(self.slots@), key@) == running_from(
                    flights_of(self.slots@),
                    key@,
                    i as int,
                ),
            decreases self.slots.len() - i,
        {
            let found = match &self.slots[i] {
                Some(flight) => flight.outcome.is_none() && same_text(flight.key.as_str(), key),
                None => false,
            };
            assert(found == runs_at(flights_of(self.slots@), i as int, key@));
            if found {
                return Some(i);
            }
            i += 1;
        }
        None
    }

    /// The first free ticket; the number of tickets when none is free.
    fn free(&self) -> (r: usize)
        ensures
            r == free_from(self@, 0),
            r <= self.slots.len(),
    {
        let mut i: usize = 0;
        while i < self.slots.len()
            invariant
                i <= self.slots.len(),
                free_from(flights_of(self.slots@), 0) == free_from(
                    flights_of(self.slots@),
                    i as int,
                ),
            decreases self.slots.len() - i,
        {
            assert(flights_of(self.slots@)[i as int] is None == self.slots@[i as int] is None);
            if self.slots[i].is_none() {
                return i;
            }
            i += 1;
        }
        i
    }

    /// Takes a seat for `key`: the caller waits for the computation that
    /// runs for the key, or a computation is opened for it.
    pub fn take_seat(&mut self, key: &str) -> (r: Seat)
        ensures
            r@ == seat_for(old(self)@, key@),
            final(self)@ == seated(old(self)@, key@),
            sound(final(self)@),
    {
        proof {
            use_type_invariant(&*self);
            lemma_steps_keep_sound(self@, key@, 0, Err(ComputeError::InFlight));
            lemma_running_from(self@, key@, 0);
        }
        let ghost before = self@;
        match self.running_for(key) {
            Some(t) => {
                let mut slots: Vec<Option<Flight>> = Vec::new();
                std::mem::swap(&mut self.slots, &mut slots);
                let seat = match slots.remove(t) {
                    Some(flight) => {
                        if flight.waiters < u64::MAX {
                            slots.insert(
                                t,
                                Some(
                                    Flight {
                                        key: flight.key,
                                        waiters: flight.waiters + 1,
                                        outcome: flight.outcome,
                                    },
                                ),
                            );
                            Seat::Wait(t)
                        } else {
                            slots.insert(t, Some(flight));
                            Seat::Crowded
                        }
                    },
                    None => {
                        // Cannot be: a computation runs under the ticket.
                        slots.insert(t, None);
                        Seat::Crowded
                    },
                };
                assert(flights_of(slots@) =~= seated(before, key@));
                self.slots = slots;
                seat
            },
            None => {
                let t = self.free();
                let opened = Flight { key: key.to_owned(), waiters: 0, outcome: None };
                let mut slots: Vec<Option<Flight>> = Vec::new();
                std::mem::swap(&mut self.slots, &mut slots);
                if t < slots.len() {
                    slots.remove(t);
                    slots.insert(t, Some(opened));
                } else {
                    slots.push(Some(opened));
                }
                assert(flights_of(slots@) =~= seated(before, key@));
                self.slots = slots;
                Seat::Lead(t)
            },
        }
    }

    /// Settles the computation under `ticket` with `outcome`, and returns
    /// the key that was computed; `None`, and no change, when no
    /// computation runs under the ticket.
    pub fn settle(&mut self, ticket: usize, outcome: &Result<Snapshot, ComputeError>) -> (r: Option<
        String,
    >)
        ensures
            final(self)@ == settled(old(self)@, ticket as int, outcome_of(*outcome)),
            sound(final(self)@),
            match r {
                Some(key) => running_key(old(self)@, ticket as int) == Some(key@),
                None => running_key(old(self)@, ticket as int) is None,
            },
    {
        proof {
            use_type_invariant(&*self);
            lemma_steps_keep_sound(self@, Seq::empty(), ticket as int, outcome_of(*outcome));
        }
        let ghost before = self@;
        if ticket >= self.slots.len() {
            return None;
        }
        let mut slots: Vec<Option<Flight>> = Vec::new();
        std::mem::swap(&mut self.slots, &mut slots);
        let key = match slots.remove(ticket) {
            Some(flight) => {
                if flight.outcome.is_some() {
                    slots.insert(ticket, Some(flight));
                    None
                } else if flight.waiters == 0 {
                    slots.insert(ticket, None);
                    Some(flight.key)
                } else {
                    let key = flight.key.clone();
                    slots.insert(
                        ticket,
                        Some(
                            Flight {
                                key: flight.key,
                                waiters: flight.waiters,
                                outcome: Some(clone_outcome(outcome)),
                            },
                        ),
                    );
                    Some(key)
                }
            },
            None => {
                slots.insert(ticket, None);
                None
            },
        };
        assert(flights_of(slots@) =~= settled(before, ticket as int, outcome_of(*outcome)));
        self.slots = slots;
        key
    }

    /// Collects the outcome of the computation under `ticket` for one
    /// caller that waits for it.
    pub fn collect(&mut self, ticket: usize) -> (r: Collected)
        ensures
            r@ == collection(old(self)@, ticket as int),
            final(self)@ == collected(old(self)@, ticket as int),
            sound(final(self)@),
    {
        proof {
            use_type_invariant(&*self);
            lemma_steps_keep_sound(self@, Seq::empty(), ticket as int, Err(ComputeError::InFlight));
        }
        let ghost before = self@;
        if ticket >= self.slots.len() {
            return Collected::Unknown;
        }
        let mut slots: Vec<Option<Flight>> = Vec::new();
        std::mem::swap(&mut self.slots, &mut slots);
        let told = match slots.remove(ticket) {
            Some(flight) => {
                if flight.waiters == 0 {
                    slots.insert(ticket, Some(flight));
                    Collected::Unknown
                } else {
                    match flight.outcome {
                        None => {
                            slots.insert(
                                ticket,
                                Some(
                                    Flight {
                                        key: flight.key,
                                        waiters: flight.waiters,
                                        outcome: None,
                                    },
                                ),
                            );
                            Collected::Pending
                        },
                        Some(outcome) => {
                            if flight.waiters == 1 {
                                slots.insert(ticket, None);
                                Collected::Ready(outcome)
                            } else {
                                let copy = clone_outcome(&outcome);
                                slots.insert(
                                    ticket,
                                    Some(
                                        Flight {
                                            key: flight.key,
                                            waiters: flight.waiters - 1,
                                            outcome: Some(outcome),
                                        },
                                    ),
                                );
                                Collected::Ready(copy)
                            }
                        },
                    }
                }
            },
            None => {
                slots.insert(ticket, None);
                Collected::Unknown
            },
        };
        assert(flights_of(slots@) =~= collected(before, ticket as int));
        self.slots = slots;
        told
    }

    /// Takes one caller that waits under `ticket` off it, without an
    /// outcome.
    pub fn abandon(&mut self, ticket: usize)
        ensures
            final(self)@ == abandoned(old(self)@, ticket as int),
            sound(final(self)@),
    {
        proof {
            use_type_invariant(&*self);
            lemma_steps_keep_sound(self@, Seq::empty(), ticket as int, Err(ComputeError::InFlight));
        }
        let ghost before = self@;
        if ticket >= self.slots.len() {
            return ;
        }
        let mut slots: Vec<Option<Flight>> = Vec::new();
        std::mem::swap(&mut self.slots, &mut slots);
        match slots.remove(ticket) {
            Some(flight) => {
                if flight.waiters == 0 {
                    slots.insert(ticket, Some(flight));
                } else if flight.waiters == 1 && flight.outcome.is_some() {
                    slots.insert(ticket, None);
                } else {
                    slots.insert(
                        ticket,
                        Some(
                            Flight {
                                key: flight.key,
                                waiters: flight.waiters - 1,
                                outcome: flight.outcome,
                            },
                        ),
                    );
                }
            },
            None => {
                slots.insert(ticket, None);
            },
        }
        assert(flights_of(slots@) =~= abandoned(before, ticket as int));
        self.slots = slots;
    }
}

} // verus!
