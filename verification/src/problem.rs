use vstd::prelude::*;

use crate::allocation_penalty::{ap_valid, AllocationPenalty};

verus! {

/// A half-open interval of days: `start` inclusive, `end` exclusive.
#[derive(Debug, Clone, Copy, PartialEq, Eq, Structural)]
pub struct DayRange {
    pub start: usize,
    pub end: usize,
}

impl DayRange {
    pub fn new(start: usize, end: usize) -> (r: DayRange)
        ensures
            r.start == start,
            r.end == end,
    {
        DayRange { start, end }
    }

    pub open spec fn spec_len(self) -> int {
        self.end - self.start
    }
}

/// The immutable cottage table: one entry per cottage, columns stored as
/// parallel vectors. `preference` holds the ten amenity flags of each cottage.
#[derive(Debug, Clone)]
pub struct Cottages {
    pub id: Vec<usize>,
    pub capacity: Vec<usize>,
    pub class: Vec<usize>,
    pub preference: Vec<[bool; 10]>,
}

impl Cottages {
    /// All columns have one row per cottage.
    pub open spec fn wf(self) -> bool {
        &&& self.capacity@.len() == self.id@.len()
        &&& self.class@.len() == self.id@.len()
        &&& self.preference@.len() == self.id@.len()
    }

    pub open spec fn spec_cottages(self) -> int {
        self.id@.len() as int
    }

    pub fn empty(size: usize) -> (r: Self)
        ensures
            r.wf(),
            r.spec_cottages() == size,
            forall|i: int| 0 <= i < size ==> r.id@[i] == 0usize,
            forall|i: int| 0 <= i < size ==> r.capacity@[i] == 0usize,
            forall|i: int| 0 <= i < size ==> r.class@[i] == 0usize,
            forall|i: int, j: int| 0 <= i < size && 0 <= j < 10 ==> !r.preference@[i][j],
    {
        Self {
            id: vec![0; size],
            capacity: vec![0; size],
            class: vec![0; size],
            preference: vec![[false; 10]; size],
        }
    }

    pub fn cottages(&self) -> (r: usize)
        ensures
            r == self.spec_cottages(),
    {
        self.id.len()
    }

    pub fn new(
        id: Vec<usize>,
        capacity: Vec<usize>,
        class: Vec<usize>,
        preference: Vec<[bool; 10]>,
    ) -> (r: Self)
        ensures
            r.id == id,
            r.capacity == capacity,
            r.class == class,
            r.preference == preference,
    {
        Self { id, capacity, class, preference }
    }
}

/// The immutable reservation table, columns stored as parallel vectors.
/// `departure` is derived: `departure[i] == arrival[i] + stay[i]`.
/// `cottage_number` is the optional forced cottage index.
#[derive(Debug, Clone)]
pub struct Reservations {
    pub id: Vec<usize>,
    pub arrival: Vec<usize>,
    pub stay: Vec<usize>,
    pub departure: Vec<usize>,
    pub people: Vec<usize>,
    pub class: Vec<usize>,
    pub preference: Vec<[bool; 10]>,
    pub cottage_number: Vec<Option<usize>>,
}

/// Largest `arrival[i] + stay[i]` among the first `n` reservations (0 when
/// `n == 0`): the number of days the schedule must cover.
pub open spec fn spec_max_slot(arrival: Seq<usize>, stay: Seq<usize>, n: int) -> int
    decreases n,
{
    if n <= 0 {
        0
    } else {
        let prev = spec_max_slot(arrival, stay, n - 1);
        let cur = arrival[n - 1] + stay[n - 1];
        if cur > prev {
            cur
        } else {
            prev
        }
    }
}

pub proof fn lemma_max_slot_ge(arrival: Seq<usize>, stay: Seq<usize>, n: int)
    ensures
        forall|i: int| 0 <= i < n ==> arrival[i] + stay[i] <= spec_max_slot(arrival, stay, n),
    decreases n,
{
    if n > 0 {
        lemma_max_slot_ge(arrival, stay, n - 1);
    }
}

impl Reservations {
    /// All columns have one row per reservation.
    pub open spec fn len_ok(self) -> bool {
        &&& self.id@.len() == self.arrival@.len()
        &&& self.stay@.len() == self.arrival@.len()
        &&& self.departure@.len() == self.arrival@.len()
        &&& self.people@.len() == self.arrival@.len()
        &&& self.class@.len() == self.arrival@.len()
        &&& self.preference@.len() == self.arrival@.len()
        &&& self.cottage_number@.len() == self.arrival@.len()
    }

    /// Every stay lasts at least one day and `departure` is in sync with
    /// `arrival` and `stay`.
    pub open spec fn times_ok(self) -> bool {
        forall|i: int|
            0 <= i < self.arrival@.len() ==> (#[trigger] self.stay@[i] >= 1
                && self.departure@[i] == self.arrival@[i] + self.stay@[i])
    }

    pub open spec fn wf(self) -> bool {
        self.len_ok() && self.times_ok()
    }

    pub open spec fn spec_reservations(self) -> int {
        self.id@.len() as int
    }

    pub fn empty(size: usize) -> (r: Self)
        ensures
            r.wf(),
            r.spec_reservations() == size,
            forall|i: int| 0 <= i < size ==> r.id@[i] == 0usize,
            forall|i: int| 0 <= i < size ==> r.arrival@[i] == 0usize,
            forall|i: int| 0 <= i < size ==> r.stay@[i] == 1usize,
            forall|i: int| 0 <= i < size ==> r.departure@[i] == 1usize,
            forall|i: int| 0 <= i < size ==> r.people@[i] == 0usize,
            forall|i: int| 0 <= i < size ==> r.class@[i] == 0usize,
            forall|i: int, j: int| 0 <= i < size && 0 <= j < 10 ==> !r.preference@[i][j],
            forall|i: int| 0 <= i < size ==> r.cottage_number@[i] is None,
    {
        let arrival = vec![0; size];
        let stay = vec![1; size];
        let departure = Self::calculate_departure(&arrival, &stay);
        Self {
            id: vec![0; size],
            arrival,
            stay,
            departure,
            people: vec![0; size],
            class: vec![0; size],
            preference: vec![[false; 10]; size],
            cottage_number: vec![None; size],
        }
    }

    pub fn new(
        id: Vec<usize>,
        arrival: Vec<usize>,
        stay: Vec<usize>,
        people: Vec<usize>,
        class: Vec<usize>,
        preference: Vec<[bool; 10]>,
        cottage_number: Vec<Option<usize>>,
    ) -> (r: Self)
        requires
            arrival@.len() == stay@.len(),
            forall|i: int| 0 <= i < arrival@.len() ==> arrival@[i] + stay@[i] <= usize::MAX,
        ensures
            r.id == id,
            r.arrival == arrival,
            r.stay == stay,
            r.people == people,
            r.class == class,
            r.preference == preference,
            r.cottage_number == cottage_number,
            r.departure@.len() == arrival@.len(),
            forall|i: int|
                0 <= i < arrival@.len() ==> r.departure@[i] == arrival@[i] + stay@[i],
    {
        let departure = Self::calculate_departure(&arrival, &stay);
        Self { id, arrival, stay, departure, people, class, preference, cottage_number }
    }

    /// An unverified caller would check here that the columns agree in
    /// length and fail fast otherwise; verified callers establish that shape
    /// up front, so there is nothing left to check at run time.
    pub fn validate(&self)
        requires
            self.len_ok(),
    {
    }

    pub fn update(&mut self)
        requires
            old(self).arrival@.len() == old(self).stay@.len(),
            forall|i: int|
                0 <= i < old(self).arrival@.len() ==> old(self).arrival@[i] + old(self).stay@[i]
                    <= usize::MAX,
        ensures
            final(self).id == old(self).id,
            final(self).arrival == old(self).arrival,
            final(self).stay == old(self).stay,
            final(self).people == old(self).people,
            final(self).class == old(self).class,
            final(self).preference == old(self).preference,
            final(self).cottage_number == old(self).cottage_number,
            final(self).departure@.len() == final(self).arrival@.len(),
            forall|i: int|
                0 <= i < final(self).arrival@.len() ==> final(self).departure@[i]
                    == final(self).arrival@[i] + final(self).stay@[i],
    {
        self.departure = Self::calculate_departure(&self.arrival, &self.stay);
    }

    pub fn calculate_departure(arrival: &Vec<usize>, stay: &Vec<usize>) -> (r: Vec<usize>)
        requires
            arrival@.len() == stay@.len(),
            forall|i: int| 0 <= i < arrival@.len() ==> arrival@[i] + stay@[i] <= usize::MAX,
        ensures
            r@.len() == arrival@.len(),
            forall|i: int| 0 <= i < arrival@.len() ==> r@[i] == arrival@[i] + stay@[i],
    {
        let n: usize = arrival.len();
        let mut out: Vec<usize> = Vec::new();
        let mut i: usize = 0;
        while i < n
            invariant
                i <= n,
                n == arrival@.len(),
                arrival@.len() == stay@.len(),
                forall|j: int| 0 <= j < n ==> arrival@[j] + stay@[j] <= usize::MAX,
                out@.len() == i,
                forall|j: int| 0 <= j < i ==> out@[j] == arrival@[j] + stay@[j],
            decreases n - i,
        {
            out.push(arrival[i] + stay[i]);
            i += 1;
        }
        out
    }

    pub fn reservations(&self) -> (r: usize)
        ensures
            r == self.spec_reservations(),
    {
        self.id.len()
    }

    /// Number of days the schedule covers: the latest departure day over all
    /// reservations, computed from `arrival` and `stay` directly.
    pub fn timeslots(&self) -> (r: usize)
        requires
            self.arrival@.len() == self.stay@.len(),
            self.arrival@.len() >= 1,
            forall|i: int|
                0 <= i < self.arrival@.len() ==> self.arrival@[i] + self.stay@[i] <= usize::MAX,
        ensures
            r == spec_max_slot(self.arrival@, self.stay@, self.arrival@.len() as int),
            forall|i: int| 0 <= i < self.arrival@.len() ==> self.arrival@[i] + self.stay@[i] <= r,
    {
        let n: usize = self.arrival.len();
        let mut best: usize = 0;
        let mut i: usize = 0;
        while i < n
            invariant
                i <= n,
                n == self.arrival@.len(),
                self.arrival@.len() == self.stay@.len(),
                forall|j: int|
                    0 <= j < n ==> self.arrival@[j] + self.stay@[j] <= usize::MAX,
                best == spec_max_slot(self.arrival@, self.stay@, i as int),
            decreases n - i,
        {
            let cur: usize = self.arrival[i] + self.stay[i];
            if cur > best {
                best = cur;
            }
            i += 1;
        }
        proof {
            lemma_max_slot_ge(self.arrival@, self.stay@, n as int);
        }
        best
    }

    /// Whether reservations `i` and `j` occupy intersecting day intervals.
    pub open spec fn spec_overlaps(self, i: int, j: int) -> bool {
        self.arrival@[i] < self.departure@[j] && self.arrival@[j] < self.departure@[i]
    }

    /// Indices of all reservations whose day interval intersects that of
    /// `reservation`, in ascending order, the reservation itself excluded.
    pub fn get_overlaps(&self, reservation: usize) -> (r: Vec<usize>)
        requires
            self.len_ok(),
            reservation < self.spec_reservations(),
        ensures
            forall|a: int, b: int| 0 <= a < b < r@.len() ==> r@[a] < r@[b],
            forall|k: int| 0 <= k < r@.len() ==> r@[k] < self.spec_reservations(),
            forall|o: usize|
                #[trigger] r@.contains(o) <==> (o < self.spec_reservations() && o != reservation
                    && self.spec_overlaps(o as int, reservation as int)),
    {
        let n: usize = self.arrival.len();
        let target_arrival: usize = self.arrival[reservation];
        let target_departure: usize = self.departure[reservation];
        let mut out: Vec<usize> = Vec::new();
        let mut i: usize = 0;
        while i < n
            invariant
                i <= n,
                self.len_ok(),
                n == self.arrival@.len(),
                reservation < n,
                target_arrival == self.arrival@[reservation as int],
                target_departure == self.departure@[reservation as int],
                forall|a: int, b: int| 0 <= a < b < out@.len() ==> out@[a] < out@[b],
                forall|k: int| 0 <= k < out@.len() ==> out@[k] < i,
                forall|o: usize|
                    #[trigger] out@.contains(o) <==> (o < i && o != reservation
                        && self.spec_overlaps(o as int, reservation as int)),
            decreases n - i,
        {
            let ghost prev = out@;
            if i != reservation && self.arrival[i] < target_departure
                && target_arrival < self.departure[i] {
                out.push(i);
                proof {
                    assert forall|o: usize| #[trigger]
                        out@.contains(o) <==> (prev.contains(o) || o == i) by {
                        if out@.contains(o) {
                            let k = choose|k: int| 0 <= k < out@.len() && out@[k] == o;
                            if k < prev.len() {
                                assert(prev[k] == o);
                            }
                        }
                        if prev.contains(o) {
                            let k = choose|k: int| 0 <= k < prev.len() && prev[k] == o;
                            assert(out@[k] == o);
                        }
                        if o == i {
                            assert(out@[out@.len() - 1] == o);
                        }
                    }
                }
            }
            i += 1;
        }
        out
    }

    /// The day interval a reservation asks for.
    pub fn range(&self, reservation: usize) -> (r: DayRange)
        requires
            reservation < self.arrival@.len(),
            reservation < self.departure@.len(),
        ensures
            r.start == self.arrival@[reservation as int],
            r.end == self.departure@[reservation as int],
    {
        DayRange { start: self.arrival[reservation], end: self.departure[reservation] }
    }
}

/// The full immutable instance description: the two tables, the weekly-cycle
/// phase (how many days the first schedule day lies after the cycle-start
/// day), and the penalty matrix derived from the tables.
#[derive(Debug, Clone)]
pub struct Problem {
    pub cottages: Cottages,
    pub reservations: Reservations,
    pub phase: usize,
    pub allocation_penalty: AllocationPenalty,
}

impl Problem {
    /// A problem over default tables: `cottages` identical cottages and
    /// `reservations` identical one-day reservations, all starting on day 0.
    pub fn empty(cottages: usize, reservations: usize) -> (r: Problem)
        requires
            reservations * cottages <= crate::solution::MAX_CELLS,
        ensures
            r.cottages.wf(),
            r.reservations.wf(),
            r.phase == 0,
            r.cottages.spec_cottages() == cottages,
            r.reservations.spec_reservations() == reservations,
            forall|i: int| 0 <= i < cottages ==> r.cottages.id@[i] == 0usize,
            forall|i: int| 0 <= i < cottages ==> r.cottages.capacity@[i] == 0usize,
            forall|i: int| 0 <= i < cottages ==> r.cottages.class@[i] == 0usize,
            forall|i: int, j: int|
                0 <= i < cottages && 0 <= j < 10 ==> !r.cottages.preference@[i][j],
            forall|i: int| 0 <= i < reservations ==> r.reservations.arrival@[i] == 0usize,
            forall|i: int| 0 <= i < reservations ==> r.reservations.stay@[i] == 1usize,
            forall|i: int| 0 <= i < reservations ==> r.reservations.departure@[i] == 1usize,
            forall|i: int| 0 <= i < reservations ==> r.reservations.people@[i] == 0usize,
            forall|i: int| 0 <= i < reservations ==> r.reservations.class@[i] == 0usize,
            forall|i: int, j: int|
                0 <= i < reservations && 0 <= j < 10 ==> !r.reservations.preference@[i][j],
            forall|i: int| 0 <= i < reservations ==> r.reservations.cottage_number@[i] is None,
            ap_valid(r.allocation_penalty, r.cottages, r.reservations),
    {
        let cottages = Cottages::empty(cottages);
        let reservations = Reservations::empty(reservations);
        Self::new(cottages, reservations, 0)
    }

    /// Bundle the tables with their derived penalty structure.
    pub fn new(cottages: Cottages, reservations: Reservations, phase: usize) -> (r: Problem)
        requires
            cottages.wf(),
            reservations.len_ok(),
            reservations.spec_reservations() * cottages.spec_cottages()
                <= crate::solution::MAX_CELLS,
        ensures
            r.cottages == cottages,
            r.reservations == reservations,
            r.phase == phase,
            ap_valid(r.allocation_penalty, cottages, reservations),
    {
        let allocation_penalty = AllocationPenalty::calculate(&cottages, &reservations);
        Self { cottages, reservations, phase, allocation_penalty }
    }
}


/// Actual capacity needed by each coarse party-size tier (1 to 12).
pub open spec fn spec_tier_capacity(i: int) -> int {
    if i <= 2 {
        2
    } else if i <= 4 {
        4
    } else if i == 5 {
        5
    } else if i == 6 {
        6
    } else if i <= 8 {
        8
    } else {
        12
    }
}

/// Map a coarse party-size tier to the actual capacity it needs.
pub fn map_people(i: usize) -> (r: usize)
    requires
        1 <= i <= 12,
    ensures
        r == spec_tier_capacity(i as int),
{
    if i <= 2 {
        2
    } else if i <= 4 {
        4
    } else if i == 5 {
        5
    } else if i == 6 {
        6
    } else if i <= 8 {
        8
    } else {
        12
    }
}

/// Largest arrival day among the first `n` reservations (0 when `n == 0`).
pub open spec fn spec_max_arrival(arrival: Seq<usize>, n: int) -> int
    decreases n,
{
    if n <= 0 {
        0
    } else {
        let prev = spec_max_arrival(arrival, n - 1);
        if arrival[n - 1] > prev {
            arrival[n - 1] as int
        } else {
            prev
        }
    }
}

pub proof fn lemma_max_arrival_ge(arrival: Seq<usize>, n: int)
    ensures
        forall|i: int| 0 <= i < n ==> arrival[i] <= spec_max_arrival(arrival, n),
        (forall|i: int| 0 <= i < n ==> arrival[i] < usize::MAX) ==> spec_max_arrival(arrival, n)
            < usize::MAX,
    decreases n,
{
    if n > 0 {
        lemma_max_arrival_ge(arrival, n - 1);
    }
}

/// Clamp every stay so that no reservation extends past the latest arrival
/// day in the batch plus one.
pub fn clamp_stays(arrival: &Vec<usize>, stay: &mut Vec<usize>)
    requires
        arrival@.len() == old(stay)@.len(),
        arrival@.len() >= 1,
        forall|i: int| 0 <= i < arrival@.len() ==> arrival@[i] < usize::MAX,
        forall|i: int| 0 <= i < arrival@.len() ==> arrival@[i] + old(stay)@[i] <= usize::MAX,
    ensures
        final(stay)@.len() == old(stay)@.len(),
        forall|i: int|
            0 <= i < arrival@.len() ==> final(stay)@[i] == (if arrival@[i] + old(stay)@[i]
                > spec_max_arrival(arrival@, arrival@.len() as int) {
                spec_max_arrival(arrival@, arrival@.len() as int) - arrival@[i] + 1
            } else {
                old(stay)@[i] as int
            }),
{
    let n: usize = arrival.len();
    let mut latest: usize = 0;
    let mut i: usize = 0;
    while i < n
        invariant
            i <= n,
            n == arrival@.len(),
            latest == spec_max_arrival(arrival@, i as int),
        decreases n - i,
    {
        if arrival[i] > latest {
            latest = arrival[i];
        }
        i += 1;
    }
    proof {
        lemma_max_arrival_ge(arrival@, n as int);
    }
    let mut r: usize = 0;
    while r < n
        invariant
            r <= n,
            n == arrival@.len(),
            n == stay@.len(),
            latest == spec_max_arrival(arrival@, n as int),
            latest < usize::MAX,
            forall|i2: int| 0 <= i2 < n ==> arrival@[i2] <= latest,
            forall|i2: int| 0 <= i2 < n ==> arrival@[i2] + old(stay)@[i2] <= usize::MAX,
            forall|i2: int|
                r <= i2 < n ==> stay@[i2] == old(stay)@[i2],
            forall|i2: int|
                0 <= i2 < r ==> stay@[i2] == (if arrival@[i2] + old(stay)@[i2] > latest {
                    latest - arrival@[i2] + 1
                } else {
                    old(stay)@[i2] as int
                }),
        decreases n - r,
    {
        if arrival[r] + stay[r] > latest {
            stay[r] = latest - arrival[r] + 1;
        }
        r += 1;
    }
}

} // verus!
