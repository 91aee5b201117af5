//! The building: its floors and elevators, the running averages, the tips,
//! and what one tick does to them.

use crate::chance::{leave_chance, FINE, FINE_PER_ONE, ONE};
use crate::elevator::{all_on, Elevator, ElevatorView};
use crate::elevators::{
    any_headed_to, elevator_views, elevators_can_tick, energy_limit, fits_vectors, lemma_total_energy_bound,
    lists_floor, ticked_elevators, total_energy, Elevators,
};
use crate::floor::{leave_drawn, resting_chances, Floor, FloorView};
use crate::floors::{
    floor_views, floors_can_tick, floors_leave_drawn, floors_people_wf, floors_wf, ticked_floors,
    Floors,
};
use crate::people::{
    admitted, all_rested, all_wf, all_within, are_tip_draws, count_true, any_waiting, can_tick, kept, lemma_admitted, lemma_split_preserves,
    lemma_split_sizes, lemma_total_wait_bound, settled, taken, total_wait, People, Pick,
};
use crate::person::Person;
use rand::rngs::StdRng;
use vstd::prelude::*;

verus! {

/// The chance, in millionths, that a person at rest decides to leave during
/// one tick.
pub const P_OUT: u32 = 50_000;

/// The chance, in millionths, that a person tips on the way out.
pub const P_TIP: u32 = 500_000;

/// A tip is worth one unit for each success in this many trials.
pub const TIP_TRIALS: u64 = 100;

/// The chance, in millionths, that one trial of a tip succeeds.
pub const TIP_SUCCESS: u32 = 500_000;

/// How many people a floor of a new building can hold.
pub const FLOOR_CAPACITY: usize = 100;

/// How many people an elevator of a new building can hold.
pub const ELEVATOR_CAPACITY: usize = 10;

/// Why a building or a dispatch policy was refused.
#[derive(Clone, Copy, Debug, PartialEq, Eq)]
pub enum ConfigError {
    /// A building needs a ground floor.
    NoFloors,
    /// The arrival rate must be positive.
    NoArrivals,
    /// More elevators than the energy account can add up.
    TooManyElevators,
    /// A probability above one.
    BadProbability,
    /// The operating system gave nothing to seed a generator with.
    NoEntropy,
}

/// The numbers of `s`, added up.
pub open spec fn sum_of(s: Seq<u64>) -> nat
    decreases s.len(),
{
    if s.len() == 0 {
        0
    } else {
        sum_of(s.drop_last()) + s.last() as nat
    }
}

/// A longer stretch of the same numbers adds up to at least as much.
pub proof fn lemma_sum_of_grows(s: Seq<u64>, k: int)
    requires
        0 <= k <= s.len(),
    ensures
        sum_of(s.take(k)) <= sum_of(s),
    decreases s.len(),
{
    if k < s.len() {
        lemma_sum_of_grows(s.drop_last(), k);
        assert(s.drop_last().take(k) == s.take(k));
    } else {
        assert(s.take(k) == s);
    }
}

/// Every floor of `fs` is well formed, and everyone on a floor knows which
/// floor it is and is bound for a floor of `fs`.
pub open spec fn floors_in_order(fs: Seq<FloorView>) -> bool {
    &&& floors_wf(fs)
    &&& forall|m: int| 0 <= m < fs.len() ==> all_within((#[trigger] fs[m]).people, fs.len())
}

/// `now` is a passenger who was `was` and is still in order if `was` was:
/// on the same floor, bound for the same floor or for the ground floor, and
/// at rest only if at rest before, with the same wait behind them.
pub open spec fn stays_in_order(was: Person, now: Person) -> bool {
    &&& now.floor_on == was.floor_on
    &&& now.floor_to == was.floor_to || now.floor_to == 0
    &&& was.wf() ==> now.wf()
    &&& !now.is_waiting() ==> !was.is_waiting() && now.wait_time == was.wait_time
}

/// Floors in order stay in order where one floor is replaced by a floor in
/// order.
pub proof fn lemma_floor_replaced(before: Seq<FloorView>, after: Seq<FloorView>, x: int)
    requires
        floors_in_order(before),
        0 <= x < before.len(),
        after == before.update(x, after[x]),
        after[x].wf(),
        all_on(after[x].people, x as usize),
        all_within(after[x].people, before.len()),
    ensures
        floors_in_order(after),
{
    assert forall|m: int| 0 <= m < after.len() implies (#[trigger] after[m]).wf() && all_on(
        after[m].people,
        m as usize,
    ) && all_within(after[m].people, after.len()) by {
        if m != x {
            assert(after[m] == before[m]);
        }
    }
}

/// Floors in order stay in order where everyone stays on their floor and
/// stays in order: see [`stays_in_order`].
pub proof fn lemma_floors_changed_in_place(before: Seq<FloorView>, after: Seq<FloorView>)
    requires
        floors_in_order(before),
        after.len() == before.len(),
        forall|m: int|
            0 <= m < before.len() ==> (#[trigger] after[m]).capacity == before[m].capacity
                && after[m].people.len() == before[m].people.len(),
        forall|m: int, k: int|
            0 <= m < before.len() && 0 <= k < before[m].people.len() ==> stays_in_order(
                before[m].people[k],
                #[trigger] after[m].people[k],
            ),
    ensures
        floors_in_order(after),
{
    assert forall|m: int| 0 <= m < after.len() implies (#[trigger] after[m]).wf() && all_on(
        after[m].people,
        m as usize,
    ) && all_within(after[m].people, after.len()) by {
        assert(before[m].wf());
        assert forall|k: int| 0 <= k < after[m].people.len() implies (#[trigger] after[m].people[k]).wf()
            && after[m].people[k].floor_on == m as usize && after[m].people[k].floor_to < after.len() && (
        !after[m].people[k].is_waiting() ==> after[m].people[k].wait_time == 0) by {
            assert(stays_in_order(before[m].people[k], after[m].people[k]));
            assert(before[m].people[k].wf());
            assert(before[m].people[k].floor_on == m as usize);
            assert(before[m].people[k].floor_to < before.len());
        }
    }
}

/// What a building is, as plain values.
pub struct BuildingView {
    pub floors: Seq<FloorView>,
    pub elevators: Seq<ElevatorView>,
    pub energy_total: nat,
    pub energy_ticks: nat,
    pub wait_time_total: nat,
    pub wait_time_denom: nat,
    pub tot_tips: nat,
    pub p_in: nat,
}

impl BuildingView {
    /// The building has a ground floor; every floor and every elevator is
    /// well formed; everyone is where their floor or elevator is and bound
    /// for a floor that exists; whoever is at rest on a floor has no wait
    /// behind them; every elevator is on a floor that exists;
    /// there are no more elevators than the energy account can add up; the
    /// wait account holds no more than its people can have waited; and an
    /// energy account without ticks holds no energy.
    pub open spec fn wf(self) -> bool {
        &&& 0 < self.floors.len() <= usize::MAX
        &&& floors_wf(self.floors)
        &&& forall|i: int| 0 <= i < self.floors.len() ==> all_within((#[trigger] self.floors[i]).people, self.floors.len())
        &&& self.elevators.len() <= u32::MAX
        &&& forall|j: int|
            0 <= j < self.elevators.len() ==> {
                &&& (#[trigger] self.elevators[j]).wf()
                &&& self.elevators[j].floor_on < self.floors.len()
                &&& all_within(self.elevators[j].people, self.floors.len())
            }
        &&& self.wait_time_total <= self.wait_time_denom * usize::MAX
        &&& self.energy_ticks == 0 ==> self.energy_total == 0
    }

    /// A new building: every floor and elevator empty, every elevator
    /// stopped on the ground floor, every account at zero.
    pub open spec fn fresh(
        num_floors: nat,
        num_elevators: nat,
        p_in: u32,
        energy_up: u32,
        energy_down: u32,
        energy_coef: u32,
    ) -> BuildingView {
        BuildingView {
            floors: Seq::new(
                num_floors,
                |i: int| FloorView { people: Seq::empty(), capacity: FLOOR_CAPACITY, dest_prob: 0 },
            ),
            elevators: Seq::new(
                num_elevators,
                |i: int|
                    ElevatorView {
                        floor_on: 0,
                        moving_up: false,
                        stopped: true,
                        people: Seq::empty(),
                        capacity: ELEVATOR_CAPACITY,
                        energy_up,
                        energy_down,
                        energy_coef,
                    },
            ),
            energy_total: 0,
            energy_ticks: 0,
            wait_time_total: 0,
            wait_time_denom: 0,
            tot_tips: 0,
            p_in: p_in as nat,
        }
    }

    /// The average wait of those who have reached their destination, in
    /// units of [`FINE`] of a tick, rounded down to a whole unit; zero while
    /// nobody has.
    pub open spec fn avg_wait_time(self) -> nat {
        if self.wait_time_denom == 0 {
            0
        } else {
            (self.wait_time_total * FINE / (self.wait_time_denom as int)) as nat
        }
    }

    /// The average energy spent per tick, in units of [`FINE`] of a unit of
    /// energy, rounded down to a whole unit; zero before the first tick is
    /// accounted.
    pub open spec fn avg_energy(self) -> nat {
        if self.energy_ticks == 0 {
            0
        } else {
            (self.energy_total * FINE / (self.energy_ticks as int)) as nat
        }
    }

    /// The building once the energy `spent` in tick number `time_step` is
    /// accounted: the average so far counts `time_step` times and the new
    /// tick once. The energy account holds the average as a sum and what to
    /// divide it by. Where `time_step` ticks have been accounted, as in a run
    /// from the start, these are the energy of every tick, added up, and how
    /// many ticks they were; an account that is still empty stands for an
    /// average of zero; and from any other account the new one is the exact
    /// fraction.
    pub open spec fn energy_accounted(self, time_step: int, spent: nat) -> BuildingView {
        if self.energy_ticks == 0 {
            BuildingView { energy_total: spent, energy_ticks: (time_step + 1) as nat, ..self }
        } else if time_step == self.energy_ticks {
            BuildingView { energy_total: self.energy_total + spent, energy_ticks: self.energy_ticks + 1, ..self }
        } else {
            BuildingView {
                energy_total: (self.energy_total * time_step + spent * self.energy_ticks) as nat,
                energy_ticks: (self.energy_ticks * (time_step + 1)) as nat,
                ..self
            }
        }
    }

    /// The building with the tips collected.
    pub open spec fn tips_collected(self) -> BuildingView {
        BuildingView { tot_tips: 0, ..self }
    }
}

/// The building: its elevators and floors, the energy spent (added up over
/// the ticks, and how many ticks they were), the waits of those who reached
/// their destination (added up, and how many they were), the tips not yet
/// collected, and the arrival rate in millionths of a person per tick.
#[derive(Debug)]
pub struct Building {
    pub elevators: Vec<Elevator>,
    pub floors: Vec<Floor>,
    pub energy_total: u128,
    pub energy_ticks: u64,
    pub wait_time_total: u128,
    pub wait_time_denom: usize,
    pub tot_tips: u64,
    pub p_in: u32,
}

impl View for Building {
    type V = BuildingView;

    open spec fn view(&self) -> BuildingView {
        BuildingView {
            floors: floor_views(self.floors@),
            elevators: elevator_views(self.elevators@),
            energy_total: self.energy_total as nat,
            energy_ticks: self.energy_ticks as nat,
            wait_time_total: self.wait_time_total as nat,
            wait_time_denom: self.wait_time_denom as nat,
            tot_tips: self.tot_tips as nat,
            p_in: self.p_in as nat,
        }
    }
}

impl Clone for Building {
    fn clone(&self) -> (copy: Self)
        ensures
            copy@ == self@,
    {
        let mut floors: Vec<Floor> = Vec::new();
        let mut i: usize = 0;
        while i < self.floors.len()
            invariant
                i <= self.floors@.len(),
                floors@.len() == i,
                forall|k: int| 0 <= k < i ==> (#[trigger] floors@[k])@ == self.floors@[k]@,
            decreases self.floors@.len() - i,
        {
            floors.push(self.floors[i].clone());
            i = i + 1;
        }
        let mut elevators: Vec<Elevator> = Vec::new();
        let mut j: usize = 0;
        while j < self.elevators.len()
            invariant
                j <= self.elevators@.len(),
                elevators@.len() == j,
                forall|k: int| 0 <= k < j ==> (#[trigger] elevators@[k])@ == self.elevators@[k]@,
            decreases self.elevators@.len() - j,
        {
            elevators.push(self.elevators[j].clone());
            j = j + 1;
        }
        assert(floor_views(floors@) =~= floor_views(self.floors@));
        assert(elevator_views(elevators@) =~= elevator_views(self.elevators@));
        Building {
            elevators,
            floors,
            energy_total: self.energy_total,
            energy_ticks: self.energy_ticks,
            wait_time_total: self.wait_time_total,
            wait_time_denom: self.wait_time_denom,
            tot_tips: self.tot_tips,
            p_in: self.p_in,
        }
    }
}

impl Building {
    /// See [`BuildingView::wf`].
    pub open spec fn wf(&self) -> bool {
        self@.wf()
    }

    /// A new building with `num_floors` floors and `num_elevators` elevators,
    /// where `p_in` millionths of a person arrive per tick on average.
    ///
    /// Refused without a floor, with an arrival rate of zero, and with more
    /// elevators than `u32::MAX`, in this order.
    pub fn from(
        num_floors: usize,
        num_elevators: usize,
        p_in: u32,
        energy_up: u32,
        energy_down: u32,
        energy_coef: u32,
    ) -> (made: Result<Building, ConfigError>)
        ensures
            made == Err::<Building, ConfigError>(ConfigError::NoFloors) <==> num_floors == 0,
            made == Err::<Building, ConfigError>(ConfigError::NoArrivals) <==> num_floors > 0 && p_in == 0,
            made == Err::<Building, ConfigError>(ConfigError::TooManyElevators) <==> num_floors > 0 && p_in > 0
                && num_elevators > u32::MAX,
            made is Ok <==> num_floors > 0 && p_in > 0 && num_elevators <= u32::MAX,
            made matches Ok(building) ==> building@ == BuildingView::fresh(
                num_floors as nat,
                num_elevators as nat,
                p_in,
                energy_up,
                energy_down,
                energy_coef,
            ) && building.wf(),
    {
        if num_floors == 0 {
            return Err(ConfigError::NoFloors);
        }
        if p_in == 0 {
            return Err(ConfigError::NoArrivals);
        }
        if num_elevators > 0xffff_ffff {
            return Err(ConfigError::TooManyElevators);
        }
        let mut floors: Vec<Floor> = Vec::new();
        let mut i: usize = 0;
        while i < num_floors
            invariant
                i <= num_floors,
                floors@.len() == i,
                forall|k: int|
                    0 <= k < i ==> (#[trigger] floors@[k])@ == (FloorView {
                        people: Seq::empty(),
                        capacity: FLOOR_CAPACITY,
                        dest_prob: 0,
                    }),
            decreases num_floors - i,
        {
            floors.push(Floor::new(FLOOR_CAPACITY));
            i = i + 1;
        }
        let mut elevators: Vec<Elevator> = Vec::new();
        let mut j: usize = 0;
        while j < num_elevators
            invariant
                j <= num_elevators,
                elevators@.len() == j,
                forall|k: int|
                    0 <= k < j ==> (#[trigger] elevators@[k])@ == (ElevatorView {
                        floor_on: 0,
                        moving_up: false,
                        stopped: true,
                        people: Seq::empty(),
                        capacity: ELEVATOR_CAPACITY,
                        energy_up,
                        energy_down,
                        energy_coef,
                    }),
            decreases num_elevators - j,
        {
            elevators.push(Elevator::from(ELEVATOR_CAPACITY, energy_up, energy_down, energy_coef));
            j = j + 1;
        }
        let building = Building {
            elevators,
            floors,
            energy_total: 0,
            energy_ticks: 0,
            wait_time_total: 0,
            wait_time_denom: 0,
            tot_tips: 0,
            p_in,
        };
        proof {
            let fresh = BuildingView::fresh(
                num_floors as nat,
                num_elevators as nat,
                p_in,
                energy_up,
                energy_down,
                energy_coef,
            );
            assert(building@.floors =~= fresh.floors);
            assert(building@.elevators =~= fresh.elevators);
        }
        Ok(building)
    }

    /// The average wait of those who have reached their destination, in
    /// units of [`FINE`] of a tick, rounded down to a whole unit; zero while
    /// nobody has.
    pub fn avg_wait_time(&self) -> (avg: u128)
        requires
            self.wait_time_total <= self.wait_time_denom * usize::MAX,
        ensures
            avg == self@.avg_wait_time(),
            self.wait_time_denom == 0 ==> avg == 0,
    {
        if self.wait_time_denom == 0 {
            return 0;
        }
        let denom: u128 = self.wait_time_denom as u128;
        let whole: u128 = self.wait_time_total / denom;
        let part: u128 = self.wait_time_total % denom;
        assert(whole <= usize::MAX) by (nonlinear_arith)
            requires
                whole == self.wait_time_total / denom,
                self.wait_time_total <= denom * usize::MAX,
                denom > 0,
        ;
        assert(whole * FINE + part * FINE <= u128::MAX) by (nonlinear_arith)
            requires
                whole <= 0xffff_ffff_ffff_ffff,
                part < denom,
                denom <= 0xffff_ffff_ffff_ffff,
                FINE == 1_000_000_000_000_000_000,
        ;
        assert(whole * FINE <= whole * FINE + part * FINE) by (nonlinear_arith)
            requires
                part >= 0,
                FINE == 1_000_000_000_000_000_000,
        ;
        assert(self.wait_time_total * FINE / (denom as int) == whole * FINE + part * FINE / (denom as int))
            by (nonlinear_arith)
            requires
                whole == self.wait_time_total / denom,
                part == self.wait_time_total % denom,
                denom > 0,
                FINE == 1_000_000_000_000_000_000,
        ;
        assert(part * FINE / (denom as int) <= part * FINE) by (nonlinear_arith)
            requires
                part >= 0,
                denom > 0,
                FINE == 1_000_000_000_000_000_000,
        ;
        whole * (FINE as u128) + part * (FINE as u128) / denom
    }

    /// Hands over the tips collected so far and starts the account over.
    pub fn collect_tips(&mut self) -> (tips: u64)
        ensures
            tips == old(self).tot_tips,
            final(self)@ == old(self)@.tips_collected(),
    {
        let tips: u64 = self.tot_tips;
        self.tot_tips = 0;
        tips
    }

    /// The average energy spent per tick, in units of [`FINE`] of a unit of
    /// energy, rounded down to a whole unit; zero before the first tick is
    /// accounted.
    pub fn avg_energy(&self) -> (avg: u128)
        requires
            self@.avg_energy() <= u128::MAX,
        ensures
            avg == self@.avg_energy(),
            self.energy_ticks == 0 ==> avg == 0,
    {
        if self.energy_ticks == 0 {
            return 0;
        }
        let ticks: u128 = self.energy_ticks as u128;
        let whole: u128 = self.energy_total / ticks;
        let part: u128 = self.energy_total % ticks;
        assert(self.energy_total * FINE / (ticks as int) == whole * FINE + part * FINE / (ticks as int))
            by (nonlinear_arith)
            requires
                whole == self.energy_total / ticks,
                part == self.energy_total % ticks,
                ticks > 0,
                FINE == 1_000_000_000_000_000_000,
        ;
        assert(0 <= part * FINE / (ticks as int) <= part * FINE && part * FINE <= 0xffff_ffff_ffff_ffff
            * 1_000_000_000_000_000_000) by (nonlinear_arith)
            requires
                0 <= part < ticks,
                ticks <= 0xffff_ffff_ffff_ffff,
                FINE == 1_000_000_000_000_000_000,
        ;
        assert(0 <= whole * FINE) by (nonlinear_arith)
            requires
                whole >= 0,
                FINE == 1_000_000_000_000_000_000,
        ;
        whole * (FINE as u128) + part * (FINE as u128) / ticks
    }

    /// Accounts the energy spent in tick number `time_step`: the running
    /// average is then the average so far counted `time_step` times and the
    /// new tick once, exactly. See [`BuildingView::energy_accounted`].
    pub fn update_average_energy(&mut self, time_step: i32, energy_spent: u128)
        requires
            0 <= time_step < i32::MAX,
            old(self)@.energy_accounted(time_step as int, energy_spent as nat).energy_total <= u128::MAX,
            old(self)@.energy_accounted(time_step as int, energy_spent as nat).energy_ticks <= u64::MAX,
        ensures
            final(self)@ == old(self)@.energy_accounted(time_step as int, energy_spent as nat),
            old(self).energy_ticks == 0 ==> final(self).energy_total * (time_step + 1) == energy_spent
                * final(self).energy_ticks,
            old(self).energy_ticks > 0 ==> final(self).energy_total * (old(self).energy_ticks * (time_step + 1))
                == (old(self).energy_total * time_step + energy_spent * old(self).energy_ticks)
                * final(self).energy_ticks,
            final(self).energy_ticks > 0,
    {
        let total: u128 = self.energy_total;
        let ticks: u64 = self.energy_ticks;
        let ghost t: int = time_step as int;
        if ticks == 0 {
            self.energy_total = energy_spent;
            self.energy_ticks = (time_step + 1) as u64;
        } else if time_step as u64 == ticks {
            self.energy_total = total + energy_spent;
            self.energy_ticks = ticks + 1;
            assert((total + energy_spent) * (ticks * (t + 1)) == (total * t + energy_spent * ticks) * (ticks + 1))
                by (nonlinear_arith)
                requires
                    t == ticks,
            ;
        } else {
            assert(0 <= total * t && 0 <= energy_spent * ticks) by (nonlinear_arith)
                requires
                    0 <= t,
                    0 <= total,
                    0 <= energy_spent,
                    0 <= ticks,
            ;
            self.energy_total = total * (time_step as u128) + energy_spent * (ticks as u128);
            self.energy_ticks = ticks * ((time_step + 1) as u64);
            assert(0 < ticks * (t + 1)) by (nonlinear_arith)
                requires
                    0 < ticks,
                    0 <= t,
            ;
        }
    }

    /// What `num_tips` tips are worth: the first `num_tips` of `samples`,
    /// added up.
    pub fn gen_tip_value(&self, num_tips: usize, samples: &Vec<u64>) -> (value: u64)
        requires
            num_tips <= samples@.len(),
            sum_of(samples@.take(num_tips as int)) <= u64::MAX,
        ensures
            value == sum_of(samples@.take(num_tips as int)),
    {
        let mut value: u64 = 0;
        let mut i: usize = 0;
        while i < num_tips
            invariant
                i <= num_tips <= samples@.len(),
                value == sum_of(samples@.take(i as int)),
                sum_of(samples@.take(num_tips as int)) <= u64::MAX,
            decreases num_tips - i,
        {
            proof {
                let upto = samples@.take(i + 1);
                assert(upto.drop_last() == samples@.take(i as int));
                assert(upto.last() == samples@[i as int]);
                lemma_sum_of_grows(samples@.take(num_tips as int), i + 1);
                assert(samples@.take(num_tips as int).take(i + 1) == upto);
            }
            value = value + samples[i];
            i = i + 1;
        }
        value
    }
}

impl BuildingView {
    /// How likely floor `i` is to need an elevator next tick, in units of
    /// [`FINE`]: one if anyone waits on it or rides towards it; and never
    /// less than the forecast, which is, on the ground floor, the arrival
    /// rate times the share of the other floors (rounded down to a whole
    /// unit), and on any other floor the chance that someone at rest there
    /// decides to leave.
    pub open spec fn score(self, i: int) -> int {
        let demand: int = if any_waiting(self.floors[i].people) || any_headed_to(self.elevators, i as usize) {
            FINE as int
        } else {
            0
        };
        let forecast: int = if i == 0 {
            self.p_in * FINE_PER_ONE * (self.floors.len() - 1) / (self.floors.len() as int)
        } else {
            leave_chance(resting_chances(self.floors[i].people))
        };
        if demand > forecast {
            demand
        } else {
            forecast
        }
    }

    /// The building with every floor scored anew.
    pub open spec fn scored(self) -> BuildingView {
        BuildingView {
            floors: Seq::new(
                self.floors.len(),
                |i: int| FloorView { dest_prob: self.score(i) as u128, ..self.floors[i] },
            ),
            ..self
        }
    }

    /// The building one tick later: everyone kept from their destination, on
    /// a floor or aboard an elevator, has waited one tick longer.
    pub open spec fn waited(self) -> BuildingView {
        BuildingView {
            floors: ticked_floors(self.floors),
            elevators: ticked_elevators(self.elevators),
            ..self
        }
    }

    /// Nobody in the building has a wait counter at its limit.
    pub open spec fn has_headroom(self) -> bool {
        &&& forall|i: int, k: int|
            0 <= i < self.floors.len() && 0 <= k < self.floors[i].people.len() ==> (
            #[trigger] self.floors[i].people[k]).wait_time < usize::MAX
        &&& forall|j: int, k: int|
            0 <= j < self.elevators.len() && 0 <= k < self.elevators[j].people.len() ==> (
            #[trigger] self.elevators[j].people[k]).wait_time < usize::MAX
    }

    /// The building after elevator `i` has exchanged people with the floor it
    /// is on. A moving elevator exchanges nobody. From a stopped one,
    /// everyone at their destination gets off; then those waiting on the
    /// floor board, in order of arrival, as far as the elevator has room;
    /// then those who got off are counted into the wait account, start their
    /// wait counters over and join the floor, as far as the floor has room.
    pub open spec fn exchange_at(self, i: int) -> BuildingView {
        let e = self.elevators[i];
        if !e.stopped {
            self
        } else {
            let f = self.floors[e.floor_on as int];
            let off = taken(e.people, Pick::Arrived, e.people.len());
            let riding = kept(e.people, Pick::Arrived, e.people.len());
            let room = (e.capacity - riding.len()) as nat;
            let boarding = taken(f.people, Pick::Waiting, room);
            let staying = kept(f.people, Pick::Waiting, room);
            BuildingView {
                floors: self.floors.update(
                    e.floor_on as int,
                    FloorView { people: admitted(staying, settled(off), f.capacity), ..f },
                ),
                elevators: self.elevators.update(
                    i,
                    ElevatorView { people: admitted(riding, boarding, e.capacity), ..e },
                ),
                wait_time_total: self.wait_time_total + total_wait(off),
                wait_time_denom: self.wait_time_denom + off.len(),
                ..self
            }
        }
    }

    /// The building after the first `k` elevators, in order, have exchanged
    /// people with their floors.
    pub open spec fn exchange_upto(self, k: nat) -> BuildingView
        decreases k,
    {
        if k == 0 {
            self
        } else {
            self.exchange_upto((k - 1) as nat).exchange_at(k - 1)
        }
    }

    /// The building after every elevator, in order, has exchanged people
    /// with its floor.
    pub open spec fn exchanged(self) -> BuildingView {
        self.exchange_upto(self.elevators.len())
    }

    /// `after` is the building once everyone at rest, on every floor, has
    /// had a leave draw: see [`leave_drawn`]. Nothing else changes.
    pub open spec fn left(self, after: BuildingView) -> bool {
        &&& floors_leave_drawn(self.floors, after.floors)
        &&& after == BuildingView { floors: after.floors, ..self }
    }

    /// Those on the ground floor who are on their way out.
    pub open spec fn leavers(self) -> Seq<Person> {
        taken(self.floors[0].people, Pick::Leaving, self.floors[0].people.len())
    }

    /// The building after those on their way out have left the ground floor
    /// and `num_tips` of them have tipped: the tips are the first `num_tips`
    /// of `samples`.
    pub open spec fn tipped(self, num_tips: nat, samples: Seq<u64>) -> BuildingView {
        BuildingView {
            floors: self.floors.update(
                0,
                FloorView {
                    people: kept(self.floors[0].people, Pick::Leaving, self.floors[0].people.len()),
                    ..self.floors[0]
                },
            ),
            tot_tips: self.tot_tips + sum_of(samples.take(num_tips as int)),
            ..self
        }
    }

    /// `after` is the building after those on their way out have left the
    /// ground floor and each of them has had a tip draw: as many tip as
    /// draws came out true, and the tips are worth the first so many of
    /// `samples`. Nobody tips whose tipping chance is zero, and everybody
    /// whose tipping chance is one.
    pub open spec fn tips_flushed(self, after: BuildingView, samples: Seq<u64>) -> bool {
        exists|draws: Seq<bool>|
            {
                &&& are_tip_draws(self.leavers(), draws)
                &&& #[trigger] self.tipped(count_true(draws), samples) == after
            }
    }

    /// The building after `newcomers` asked to be let onto the ground floor.
    pub open spec fn joined_by(self, newcomers: Seq<Person>) -> BuildingView {
        BuildingView {
            floors: self.floors.update(
                0,
                FloorView {
                    people: admitted(self.floors[0].people, newcomers, self.floors[0].capacity),
                    ..self.floors[0]
                },
            ),
            ..self
        }
    }

    /// `newcomers` are `num_arrivals` people as they arrive: on the ground
    /// floor, not leaving, with no wait behind them, with the leave chance
    /// [`P_OUT`] and the tipping chance [`P_TIP`], each bound for a floor of
    /// the building.
    pub open spec fn are_arrivals(self, newcomers: Seq<Person>, num_arrivals: nat) -> bool {
        &&& newcomers.len() == num_arrivals
        &&& forall|i: int|
            0 <= i < newcomers.len() ==> {
                &&& (#[trigger] newcomers[i]) == Person::arrival(P_OUT, P_TIP, newcomers[i].floor_to)
                &&& newcomers[i].floor_to < self.floors.len()
            }
    }

    /// `after` is the building after `num_arrivals` people arrived and those
    /// for whom the ground floor had room were let in.
    pub open spec fn arrived(self, after: BuildingView, num_arrivals: nat) -> bool {
        exists|newcomers: Seq<Person>|
            self.are_arrivals(newcomers, num_arrivals) && #[trigger] self.joined_by(newcomers) == after
    }

    /// What the elevators spend in one tick, added up.
    pub open spec fn energy(self) -> nat {
        total_energy(self.elevators) as nat
    }
}

/// The exchange of one elevator with its floor leaves the building well
/// formed.
pub proof fn lemma_exchange_at_wf(b: BuildingView, i: int)
    requires
        b.wf(),
        0 <= i < b.elevators.len(),
    ensures
        b.exchange_at(i).wf(),
        b.exchange_at(i).elevators.len() == b.elevators.len(),
        b.exchange_at(i).floors.len() == b.floors.len(),
        forall|m: int|
            0 <= m < b.floors.len() ==> (#[trigger] b.exchange_at(i).floors[m]).capacity == b.floors[m].capacity,
{
    let e = b.elevators[i];
    if e.stopped {
        let x = e.floor_on;
        let nf = b.floors.len();
        let f = b.floors[x as int];
        let off = taken(e.people, Pick::Arrived, e.people.len());
        let riding = kept(e.people, Pick::Arrived, e.people.len());
        let room = (e.capacity - riding.len()) as nat;
        let boarding = taken(f.people, Pick::Waiting, room);
        let staying = kept(f.people, Pick::Waiting, room);
        let fits = |p: Person| p.wf() && p.floor_on == x && p.floor_to < nf;
        let rests = |p: Person| fits(p) && (!p.is_waiting() ==> p.wait_time == 0);
        assert(e.wf());
        assert(f.wf());
        assert forall|k: int| 0 <= k < e.people.len() implies fits(#[trigger] e.people[k]) by {}
        assert forall|k: int| 0 <= k < f.people.len() implies rests(#[trigger] f.people[k]) by {}
        assert forall|k: int| 0 <= k < f.people.len() implies fits(#[trigger] f.people[k]) by {}
        lemma_split_preserves(e.people, Pick::Arrived, e.people.len(), fits);
        lemma_split_sizes(e.people, Pick::Arrived, e.people.len());
        lemma_split_preserves(f.people, Pick::Waiting, room, fits);
        lemma_split_preserves(f.people, Pick::Waiting, room, rests);
        lemma_split_sizes(f.people, Pick::Waiting, room);
        let done = settled(off);
        assert forall|k: int| 0 <= k < done.len() implies rests(#[trigger] done[k]) by {
            assert(fits(off[k]));
        }
        lemma_admitted(riding, boarding, e.capacity, fits);
        lemma_admitted(staying, done, f.capacity, rests);
        lemma_total_wait_bound(off);
        let after = b.exchange_at(i);
        let aboard = admitted(riding, boarding, e.capacity);
        let there = admitted(staying, done, f.capacity);
        assert forall|k: int| 0 <= k < aboard.len() implies (#[trigger] aboard[k]).wf() && aboard[k].floor_on == x
            && aboard[k].floor_to < nf by {
            assert(fits(aboard[k]));
        }
        assert forall|k: int| 0 <= k < there.len() implies (#[trigger] there[k]).wf() && there[k].floor_on == x
            && there[k].floor_to < nf && (!there[k].is_waiting() ==> there[k].wait_time == 0) by {
            assert(rests(there[k]));
        }
        lemma_floor_replaced(b.floors, after.floors, x as int);
        assert forall|j: int| 0 <= j < after.elevators.len() implies {
            &&& (#[trigger] after.elevators[j]).wf()
            &&& after.elevators[j].floor_on < after.floors.len()
            &&& all_within(after.elevators[j].people, after.floors.len())
        } by {
            if j != i {
                assert(after.elevators[j] == b.elevators[j]);
            }
        }
        assert(after.wait_time_total <= after.wait_time_denom * usize::MAX) by (nonlinear_arith)
            requires
                after.wait_time_total == b.wait_time_total + total_wait(off),
                after.wait_time_denom == b.wait_time_denom + off.len(),
                b.wait_time_total <= b.wait_time_denom * usize::MAX,
                total_wait(off) <= off.len() * usize::MAX,
        ;
    }
}

/// An exchange leaves the building well formed, with as many floors and
/// elevators as before.
pub proof fn lemma_exchange_wf(b: BuildingView, k: nat)
    requires
        b.wf(),
        k <= b.elevators.len(),
    ensures
        b.exchange_upto(k).wf(),
        b.exchange_upto(k).elevators.len() == b.elevators.len(),
        b.exchange_upto(k).floors.len() == b.floors.len(),
        forall|m: int|
            0 <= m < b.floors.len() ==> (#[trigger] b.exchange_upto(k).floors[m]).capacity == b.floors[m].capacity,
        b.exchange_upto(k).tot_tips == b.tot_tips,
        b.exchange_upto(k).energy_total == b.energy_total,
        b.exchange_upto(k).energy_ticks == b.energy_ticks,
        b.exchange_upto(k).p_in == b.p_in,
    decreases k,
{
    if k > 0 {
        lemma_exchange_wf(b, (k - 1) as nat);
        lemma_exchange_at_wf(b.exchange_upto((k - 1) as nat), k - 1);
    }
}

/// The wait account never shrinks during an exchange.
pub proof fn lemma_exchange_counts(b: BuildingView, j: nat, k: nat)
    requires
        b.wf(),
        j <= k <= b.elevators.len(),
    ensures
        b.exchange_upto(j).wait_time_denom <= b.exchange_upto(k).wait_time_denom,
    decreases k,
{
    if j < k {
        lemma_exchange_counts(b, j, (k - 1) as nat);
    }
}

impl Building {
    /// Scores every floor anew: see [`BuildingView::score`].
    pub fn update_dest_probabilities(&mut self)
        requires
            floors_people_wf(old(self)@.floors),
        ensures
            final(self)@ == old(self)@.scored(),
            old(self).wf() ==> final(self).wf(),
    {
        let n: usize = self.floors.len();
        let headed: Vec<usize> = self.elevators.get_dest_floors();
        let mut i: usize = 0;
        while i < n
            invariant
                i <= n,
                n == self.floors@.len(),
                n == old(self).floors@.len(),
                floors_people_wf(old(self)@.floors),
                self.elevators == old(self).elevators,
                self.energy_total == old(self).energy_total,
                self.energy_ticks == old(self).energy_ticks,
                self.wait_time_total == old(self).wait_time_total,
                self.wait_time_denom == old(self).wait_time_denom,
                self.tot_tips == old(self).tot_tips,
                self.p_in == old(self).p_in,
                forall|x: usize| headed@.contains(x) <==> any_headed_to(old(self)@.elevators, x),
                forall|k: int|
                    0 <= k < i ==> (#[trigger] self.floors@[k])@ == (FloorView {
                        dest_prob: old(self)@.score(k) as u128,
                        ..old(self).floors@[k]@
                    }),
                forall|k: int| i <= k < n ==> self.floors@[k] == #[trigger] old(self).floors@[k],
            decreases n - i,
        {
            assert(all_wf(old(self)@.floors[i as int].people));
            let waiting: bool = self.floors[i].are_people_waiting();
            let going: bool = lists_floor(&headed, i);
            let demand: u128 = if waiting || going {
                FINE as u128
            } else {
                0
            };
            let forecast: u128 = if i == 0 {
                let rate: u128 = self.p_in as u128 * FINE_PER_ONE as u128;
                let whole: u128 = rate / (n as u128);
                let part: u128 = rate % (n as u128);
                assert(whole * (n - 1) <= rate) by (nonlinear_arith)
                    requires
                        whole == rate / (n as u128),
                        n >= 1,
                ;
                assert(part * (n - 1) <= 0xffff_ffff_ffff_ffff * 0xffff_ffff_ffff_ffff) by (nonlinear_arith)
                    requires
                        0 <= part < n,
                        n <= 0xffff_ffff_ffff_ffff,
                ;
                assert(rate * (n - 1) / (n as int) == whole * (n - 1) + part * (n - 1) / (n as int))
                    by (nonlinear_arith)
                    requires
                        whole == rate / (n as u128),
                        part == rate % (n as u128),
                        n >= 1,
                ;
                assert(part * (n - 1) / (n as int) <= part) by (nonlinear_arith)
                    requires
                        part >= 0,
                        n >= 1,
                ;
                whole * ((n - 1) as u128) + part * ((n - 1) as u128) / (n as u128)
            } else {
                self.floors[i].get_p_out() as u128
            };
            let score: u128 = if demand > forecast {
                demand
            } else {
                forecast
            };
            assert(score == old(self)@.score(i as int));
            self.floors[i].dest_prob = score;
            i = i + 1;
        }
        proof {
            assert(self@.floors =~= old(self)@.scored().floors);
            if old(self).wf() {
                lemma_floors_changed_in_place(old(self)@.floors, self@.floors);
            }
        }
    }

    /// `num_arrivals` people arrive, each bound for a floor drawn uniformly,
    /// and those for whom the ground floor has room are let in, in order.
    pub fn gen_people_arriving(&mut self, num_arrivals: usize, rng: &mut StdRng)
        requires
            old(self).wf(),
        ensures
            old(self)@.arrived(final(self)@, num_arrivals as nat),
            final(self).wf(),
    {
        let num_floors: usize = self.floors.len();
        let mut arrivals: Vec<Person> = Vec::new();
        let mut i: usize = 0;
        while i < num_arrivals
            invariant
                i <= num_arrivals,
                0 < num_floors,
                arrivals@.len() == i,
                forall|k: int|
                    0 <= k < i ==> {
                        &&& (#[trigger] arrivals@[k]) == Person::arrival(P_OUT, P_TIP, arrivals@[k].floor_to)
                        &&& arrivals@[k].floor_to < num_floors
                    },
            decreases num_arrivals - i,
        {
            let person: Person = Person::from(P_OUT, P_TIP, num_floors, rng);
            arrivals.push(person);
            i = i + 1;
        }
        let ghost newcomers = arrivals@;
        self.floors[0].extend(arrivals);
        proof {
            let a = old(self)@;
            let b = self@;
            assert(b.floors =~= a.joined_by(newcomers).floors);
            assert(a.are_arrivals(newcomers, num_arrivals as nat));
            assert(a.joined_by(newcomers) == b);
            let fits = |p: Person|
                p.wf() && p.floor_on == 0 && p.floor_to < a.floors.len() && (!p.is_waiting() ==> p.wait_time
                    == 0);
            assert forall|k: int| 0 <= k < a.floors[0].people.len() implies fits(
                #[trigger] a.floors[0].people[k],
            ) by {}
            assert forall|k: int| 0 <= k < newcomers.len() implies fits(#[trigger] newcomers[k]) by {}
            lemma_admitted(a.floors[0].people, newcomers, a.floors[0].capacity, fits);
            let there = b.floors[0].people;
            assert forall|k: int| 0 <= k < there.len() implies (#[trigger] there[k]).wf() && there[k].floor_on
                == 0 && there[k].floor_to < a.floors.len() && (!there[k].is_waiting() ==> there[k].wait_time
                == 0) by {
                assert(fits(there[k]));
            }
            lemma_floor_replaced(a.floors, b.floors, 0);
        }
    }

    /// Every stopped elevator, in order, exchanges people with the floor it
    /// is on: see [`BuildingView::exchange_at`].
    pub fn exchange_people_on_elevator(&mut self)
        requires
            old(self).wf(),
            old(self)@.exchanged().wait_time_denom <= usize::MAX,
        ensures
            final(self)@ == old(self)@.exchanged(),
            final(self).wf(),
    {
        let n: usize = self.elevators.len();
        let mut i: usize = 0;
        while i < n
            invariant
                i <= n,
                n == old(self)@.elevators.len(),
                n == self.elevators@.len(),
                old(self).wf(),
                self.wf(),
                self@ == old(self)@.exchange_upto(i as nat),
                old(self)@.exchange_upto(n as nat).wait_time_denom <= usize::MAX,
            decreases n - i,
        {
            let ghost before = self@;
            proof {
                lemma_exchange_at_wf(before, i as int);
                lemma_exchange_counts(old(self)@, (i + 1) as nat, n as nat);
                assert(before.elevators[i as int].wf());
            }
            if self.elevators[i].stopped {
                let floor_index: usize = self.elevators[i].floor_on;
                let ghost e = before.elevators[i as int];
                let ghost f = before.floors[floor_index as int];
                assert(f.wf());
                let mut off: Vec<Person> = self.elevators[i].flush_people_leaving_elevator();
                let room: usize = self.elevators[i].get_free_capacity();
                let boarding: Vec<Person> = self.floors[floor_index].flush_people_entering_elevator(room);
                let waits: u128 = off.get_aggregate_wait_time();
                let count: usize = off.get_num_people();
                proof {
                    let next = before.exchange_at(i as int);
                    assert(next.wait_time_total == before.wait_time_total + waits);
                    assert(next.wait_time_denom == before.wait_time_denom + count);
                    assert(next.wait_time_total <= usize::MAX * usize::MAX) by (nonlinear_arith)
                        requires
                            next.wait_time_total <= next.wait_time_denom * usize::MAX,
                            next.wait_time_denom <= usize::MAX,
                    ;
                    assert(usize::MAX * usize::MAX <= u128::MAX) by (nonlinear_arith)
                        requires
                            usize::MAX <= 0xffff_ffff_ffff_ffff,
                    ;
                }
                self.wait_time_total = self.wait_time_total + waits;
                self.wait_time_denom = self.wait_time_denom + count;
                off.reset_wait_times();
                self.elevators[i].extend(boarding);
                self.floors[floor_index].extend(off);
                proof {
                    let next = before.exchange_at(i as int);
                    assert(self@.elevators =~= next.elevators);
                    assert(self@.floors =~= next.floors);
                    assert(self@ == next);
                }
            }
            i = i + 1;
        }
    }

    /// Those on their way out leave the ground floor; each of them tips or
    /// does not, by a draw of their own; and the tips, worth the first so
    /// many of `samples`, are added to the account.
    pub fn flush_and_update_tips(&mut self, rng: &mut StdRng, samples: &Vec<u64>)
        requires
            old(self).wf(),
            old(self)@.leavers().len() <= samples@.len(),
            old(self).tot_tips + sum_of(samples@.take(old(self)@.leavers().len() as int)) <= u64::MAX,
        ensures
            old(self)@.tips_flushed(final(self)@, samples@),
            final(self).wf(),
    {
        let leaving: Vec<Person> = self.floors.flush_first_floor();
        let num_tips: usize = leaving.gen_num_tips(rng);
        proof {
            let upto = samples@.take(old(self)@.leavers().len() as int);
            lemma_sum_of_grows(upto, num_tips as int);
            assert(upto.take(num_tips as int) == samples@.take(num_tips as int));
        }
        let tip_value: u64 = self.gen_tip_value(num_tips, samples);
        self.tot_tips = self.tot_tips + tip_value;
        proof {
            let a = old(self)@;
            let b = self@;
            let draws = choose|draws: Seq<bool>| are_tip_draws(leaving@, draws) && num_tips == #[trigger] count_true(draws);
            assert(b.floors =~= a.tipped(num_tips as nat, samples@).floors);
            assert(a.tipped(count_true(draws), samples@) == b);
            let nf = a.floors.len();
            lemma_split_preserves(
                a.floors[0].people,
                Pick::Leaving,
                a.floors[0].people.len(),
                |p: Person| p.floor_to < nf,
            );
            assert(b.floors[0].wf() && all_on(b.floors[0].people, 0));
            lemma_floor_replaced(a.floors, b.floors, 0);
        }
    }
}

impl BuildingView {
    /// `after` is the building at the end of a tick, once
    /// the elevators have been dispatched: the elevators exchange people
    /// with their floors; everyone at rest has a leave draw; those on their
    /// way out leave the ground floor, and some tip; `num_arrivals` people
    /// arrive; everyone kept from their destination waits one tick longer;
    /// every floor is scored anew; and the energy the elevators spend is
    /// accounted.
    pub open spec fn ticked_to(self, after: BuildingView, num_arrivals: nat, samples: Seq<u64>) -> bool {
        exists|a: BuildingView, b: BuildingView, c: BuildingView|
            #![trigger a.tips_flushed(b, samples), b.arrived(c, num_arrivals)]
            {
                &&& self.exchanged().left(a)
                &&& a.tips_flushed(b, samples)
                &&& b.arrived(c, num_arrivals)
                &&& after == c.waited().scored().energy_accounted(
                    c.energy_ticks as int,
                    c.waited().scored().energy(),
                )
            }
    }
}

/// The exchange of one elevator with its floor puts nobody's wait counter at
/// its limit.
pub proof fn lemma_exchange_at_headroom(b: BuildingView, i: int)
    requires
        b.wf(),
        b.has_headroom(),
        0 <= i < b.elevators.len(),
    ensures
        b.exchange_at(i).has_headroom(),
{
    let e = b.elevators[i];
    if e.stopped {
        let x = e.floor_on;
        let f = b.floors[x as int];
        let off = taken(e.people, Pick::Arrived, e.people.len());
        let riding = kept(e.people, Pick::Arrived, e.people.len());
        let room = (e.capacity - riding.len()) as nat;
        let boarding = taken(f.people, Pick::Waiting, room);
        let staying = kept(f.people, Pick::Waiting, room);
        let low = |p: Person| p.wait_time < usize::MAX;
        assert forall|k: int| 0 <= k < e.people.len() implies low(#[trigger] e.people[k]) by {
            assert(b.elevators[i].people[k].wait_time < usize::MAX);
        }
        assert forall|k: int| 0 <= k < f.people.len() implies low(#[trigger] f.people[k]) by {
            assert(b.floors[x as int].people[k].wait_time < usize::MAX);
        }
        lemma_split_preserves(e.people, Pick::Arrived, e.people.len(), low);
        lemma_split_preserves(f.people, Pick::Waiting, room, low);
        let done = settled(off);
        assert forall|k: int| 0 <= k < done.len() implies low(#[trigger] done[k]) by {
            assert(low(off[k]));
        }
        lemma_admitted(riding, boarding, e.capacity, low);
        lemma_admitted(staying, done, f.capacity, low);
        let after = b.exchange_at(i);
        let aboard = admitted(riding, boarding, e.capacity);
        let there = admitted(staying, done, f.capacity);
        assert forall|m: int, k: int|
            0 <= m < after.floors.len() && 0 <= k < after.floors[m].people.len() implies (
        #[trigger] after.floors[m].people[k]).wait_time < usize::MAX by {
            if m != x {
                assert(after.floors[m] == b.floors[m]);
                assert(b.floors[m].people[k].wait_time < usize::MAX);
            } else {
                assert(low(there[k]));
            }
        }
        assert forall|j: int, k: int|
            0 <= j < after.elevators.len() && 0 <= k < after.elevators[j].people.len() implies (
        #[trigger] after.elevators[j].people[k]).wait_time < usize::MAX by {
            if j != i {
                assert(after.elevators[j] == b.elevators[j]);
                assert(b.elevators[j].people[k].wait_time < usize::MAX);
            } else {
                assert(low(aboard[k]));
            }
        }
    }
}

/// An exchange puts nobody's wait counter at its limit.
pub proof fn lemma_exchange_headroom(b: BuildingView, k: nat)
    requires
        b.wf(),
        b.has_headroom(),
        k <= b.elevators.len(),
    ensures
        b.exchange_upto(k).has_headroom(),
    decreases k,
{
    if k > 0 {
        lemma_exchange_headroom(b, (k - 1) as nat);
        lemma_exchange_wf(b, (k - 1) as nat);
        lemma_exchange_at_headroom(b.exchange_upto((k - 1) as nat), k - 1);
    }
}

impl Floors for Building {
    open spec fn floors(&self) -> Seq<FloorView> {
        self@.floors
    }

    open spec fn ready_to_tick(&self) -> bool {
        &&& floors_can_tick(self@.floors)
        &&& elevators_can_tick(self@.elevators)
    }

    fn are_people_waiting_on_floor(&self, floor_index: usize) -> (waiting: bool) {
        self.floors.are_people_waiting_on_floor(floor_index)
    }

    fn get_nearest_wait_floor(&self, floor_on: usize) -> (found: (usize, usize)) {
        self.floors.get_nearest_wait_floor(floor_on)
    }

    fn get_dest_probabilities(&self) -> (scores: Vec<u128>) {
        self.floors.get_dest_probabilities()
    }

    fn gen_people_leaving(&mut self, rng: &mut StdRng)
        ensures
            old(self)@.left(final(self)@),
            old(self).wf() ==> final(self).wf(),
            old(self)@.has_headroom() ==> final(self)@.has_headroom(),
    {
        self.floors.gen_people_leaving(rng);
        proof {
            let a = old(self)@;
            let b = self@;
            assert(b == BuildingView { floors: b.floors, ..a });
            assert forall|m: int, k: int| 0 <= m < a.floors.len() && 0 <= k < a.floors[m].people.len() implies {
                let was = a.floors[m].people[k];
                let now = #[trigger] b.floors[m].people[k];
                &&& now.wait_time == was.wait_time
                &&& now.floor_on == was.floor_on
                &&& (now.floor_to == was.floor_to || now.floor_to == 0)
                &&& was.wf() ==> now.wf()
            } by {
                assert(leave_drawn(a.floors[m].people, b.floors[m].people));
                let was = a.floors[m].people[k];
            }
            if a.wf() {
                assert forall|m: int| 0 <= m < a.floors.len() implies (#[trigger] b.floors[m]).capacity
                    == a.floors[m].capacity && b.floors[m].people.len() == a.floors[m].people.len() by {
                    assert(leave_drawn(a.floors[m].people, b.floors[m].people));
                }
                assert forall|m: int, k: int|
                    0 <= m < a.floors.len() && 0 <= k < a.floors[m].people.len() implies stays_in_order(
                    a.floors[m].people[k],
                    #[trigger] b.floors[m].people[k],
                ) by {
                    assert(leave_drawn(a.floors[m].people, b.floors[m].people));
                }
                lemma_floors_changed_in_place(a.floors, b.floors);
            }
            if a.has_headroom() {
                assert forall|m: int, k: int|
                    0 <= m < b.floors.len() && 0 <= k < b.floors[m].people.len() implies (
                #[trigger] b.floors[m].people[k]).wait_time < usize::MAX by {
                    assert(leave_drawn(a.floors[m].people, b.floors[m].people));
                    assert(a.floors[m].people[k].wait_time < usize::MAX);
                }
            }
        }
    }

    fn flush_first_floor(&mut self) -> (leaving: Vec<Person>)
        ensures
            final(self)@ == (BuildingView { floors: final(self)@.floors, ..old(self)@ }),
    {
        self.floors.flush_first_floor()
    }

    fn increment_wait_times(&mut self)
        ensures
            final(self)@ == old(self)@.waited(),
            old(self).wf() ==> final(self).wf(),
    {
        self.elevators.increment_wait_times();
        self.floors.increment_wait_times();
        proof {
            let a = old(self)@;
            let b = self@;
            if a.wf() {
                lemma_floors_changed_in_place(a.floors, b.floors);
                assert forall|j: int| 0 <= j < b.elevators.len() implies {
                    &&& (#[trigger] b.elevators[j]).wf()
                    &&& b.elevators[j].floor_on < b.floors.len()
                    &&& all_within(b.elevators[j].people, b.floors.len())
                } by {
                    assert(a.elevators[j].wf());
                    assert forall|k: int| 0 <= k < b.elevators[j].people.len() implies (
                    #[trigger] b.elevators[j].people[k]).wf() && b.elevators[j].people[k].floor_on
                        == b.elevators[j].floor_on && b.elevators[j].people[k].floor_to < b.floors.len() by {
                        assert(a.elevators[j].people[k].wf());
                    }
                }
            }
        }
    }

    fn append_floor(&mut self, capacity: usize)
        ensures
            final(self)@ == (BuildingView { floors: final(self)@.floors, ..old(self)@ }),
    {
        self.floors.append_floor(capacity)
    }

    fn update_capacities(&mut self, capacity: usize)
        ensures
            final(self)@ == (BuildingView { floors: final(self)@.floors, ..old(self)@ }),
    {
        self.floors.update_capacities(capacity)
    }
}

impl Building {
    /// Everything a tick does to the building once the elevators have been
    /// dispatched: see [`BuildingView::ticked_to`]. `num_arrivals` is how
    /// many people arrive, and `tip_samples` hold what a tip is worth, one
    /// sample for each person the ground floor can hold.
    pub fn advance_tick(
        &mut self,
        rng: &mut StdRng,
        time_step: i32,
        num_arrivals: usize,
        tip_samples: &Vec<u64>,
    )
        requires
            old(self).wf(),
            old(self)@.has_headroom(),
            old(self)@.exchanged().wait_time_denom <= usize::MAX,
            0 <= time_step < i32::MAX,
            time_step == old(self).energy_ticks,
            old(self).energy_total + old(self).elevators@.len() * energy_limit() <= u128::MAX,
            old(self).floors@[0].capacity <= tip_samples@.len(),
            old(self).tot_tips + sum_of(tip_samples@) <= u64::MAX,
        ensures
            old(self)@.ticked_to(final(self)@, num_arrivals as nat, tip_samples@),
            final(self).wf(),
            final(self)@.floors.len() == old(self)@.floors.len(),
            final(self)@.elevators.len() == old(self)@.elevators.len(),
    {
        proof {
            lemma_exchange_headroom(old(self)@, old(self)@.elevators.len());
            lemma_exchange_wf(old(self)@, old(self)@.elevators.len());
        }
        self.exchange_people_on_elevator();
        let ghost s1 = self@;
        Floors::gen_people_leaving(self, rng);
        let ghost a = self@;
        proof {
            assert(a.floors[0].wf());
            assert(s1.floors[0].capacity == old(self)@.floors[0].capacity);
            assert(a.floors[0].capacity == s1.floors[0].capacity);
            lemma_split_sizes(a.floors[0].people, Pick::Leaving, a.floors[0].people.len());
            lemma_sum_of_grows(tip_samples@, a.leavers().len() as int);
        }
        self.flush_and_update_tips(rng, tip_samples);
        let ghost b = self@;
        proof {
            let nf = a.floors[0].people.len();
            lemma_split_preserves(
                a.floors[0].people,
                Pick::Leaving,
                nf,
                |p: Person| p.wait_time < usize::MAX,
            );
            assert forall|k: int| 0 <= k < a.floors[0].people.len() implies a.floors[0].people[k].wait_time
                < usize::MAX by {}
            assert(b.has_headroom()) by {
                assert forall|m: int, k: int|
                    0 <= m < b.floors.len() && 0 <= k < b.floors[m].people.len() implies (
                #[trigger] b.floors[m].people[k]).wait_time < usize::MAX by {
                    if m != 0 {
                        assert(b.floors[m] == a.floors[m]);
                        assert(a.floors[m].people[k].wait_time < usize::MAX);
                    }
                }
                assert forall|j: int, k: int|
                    0 <= j < b.elevators.len() && 0 <= k < b.elevators[j].people.len() implies (
                #[trigger] b.elevators[j].people[k]).wait_time < usize::MAX by {
                    assert(a.elevators[j].people[k].wait_time < usize::MAX);
                }
            }
        }
        self.gen_people_arriving(num_arrivals, rng);
        let ghost c = self@;
        proof {
            let newcomers = choose|newcomers: Seq<Person>|
                b.are_arrivals(newcomers, num_arrivals as nat) && #[trigger] b.joined_by(newcomers) == c;
            let low = |p: Person| p.wait_time < usize::MAX;
            assert forall|k: int| 0 <= k < b.floors[0].people.len() implies low(#[trigger] b.floors[0].people[k]) by {
                assert(b.floors[0].people[k].wait_time < usize::MAX);
            }
            assert forall|k: int| 0 <= k < newcomers.len() implies low(#[trigger] newcomers[k]) by {}
            lemma_admitted(b.floors[0].people, newcomers, b.floors[0].capacity, low);
            assert forall|m: int| 0 <= m < c.floors.len() implies can_tick((#[trigger] c.floors[m]).people) by {
                if m != 0 {
                    assert(c.floors[m] == b.floors[m]);
                    assert forall|k: int| 0 <= k < c.floors[m].people.len() implies c.floors[m].people[k].wait_time
                        < usize::MAX by {
                        assert(b.floors[m].people[k].wait_time < usize::MAX);
                    }
                } else {
                    assert forall|k: int| 0 <= k < c.floors[0].people.len() implies c.floors[0].people[k].wait_time
                        < usize::MAX by {
                        assert(low(c.floors[0].people[k]));
                    }
                }
            }
            assert forall|j: int| 0 <= j < c.elevators.len() implies can_tick(
                (#[trigger] c.elevators[j]).people,
            ) by {
                assert forall|k: int| 0 <= k < c.elevators[j].people.len() implies c.elevators[j].people[k].wait_time
                    < usize::MAX by {
                    assert(b.elevators[j].people[k].wait_time < usize::MAX);
                }
            }
        }
        Floors::increment_wait_times(self);
        self.update_dest_probabilities();
        let spent: u128 = self.elevators.get_energy_spent();
        proof {
            assert(fits_vectors(self@.elevators)) by {
                assert forall|j: int| 0 <= j < self@.elevators.len() implies (
                #[trigger] self@.elevators[j]).people.len() <= usize::MAX by {
                    assert(self@.elevators[j].people.len() == self.elevators@[j].people.len());
                }
            }
            lemma_total_energy_bound(self@.elevators);
        }
        self.update_average_energy(time_step, spent);
        proof {
            assert(old(self)@.exchanged().left(a));
            assert(a.tips_flushed(b, tip_samples@));
            assert(b.arrived(c, num_arrivals as nat));
        }
    }
}

/// How many people ride the elevators of `es`, all told.
pub open spec fn riders(es: Seq<ElevatorView>) -> nat
    decreases es.len(),
{
    if es.len() == 0 {
        0
    } else {
        riders(es.drop_last()) + es.last().people.len()
    }
}

/// Elevators that carry as many people each carry as many all told.
pub proof fn lemma_riders_same(a: Seq<ElevatorView>, b: Seq<ElevatorView>)
    requires
        a.len() == b.len(),
        forall|i: int| 0 <= i < a.len() ==> (#[trigger] a[i]).people.len() == b[i].people.len(),
    ensures
        riders(a) == riders(b),
    decreases a.len(),
{
    if a.len() > 0 {
        assert forall|i: int| 0 <= i < a.drop_last().len() implies (#[trigger] a.drop_last()[i]).people.len()
            == b.drop_last()[i].people.len() by {
            assert(a[i].people.len() == b[i].people.len());
        }
        lemma_riders_same(a.drop_last(), b.drop_last());
        assert(a[a.len() - 1].people.len() == b[a.len() - 1].people.len());
    }
}

/// An exchange counts into the wait account at most as many people as ride
/// the elevators; and an elevator whose turn has not come is as it was.
pub proof fn lemma_exchange_bound(b: BuildingView, k: nat)
    requires
        b.wf(),
        k <= b.elevators.len(),
    ensures
        b.exchange_upto(k).wait_time_denom <= b.wait_time_denom + riders(b.elevators.take(k as int)),
        forall|j: int| k <= j < b.elevators.len() ==> (#[trigger] b.exchange_upto(k).elevators[j]) == b.elevators[j],
    decreases k,
{
    if k > 0 {
        let before = b.exchange_upto((k - 1) as nat);
        lemma_exchange_bound(b, (k - 1) as nat);
        lemma_exchange_wf(b, (k - 1) as nat);
        let e = before.elevators[k - 1];
        assert(e == b.elevators[k - 1]);
        lemma_split_sizes(e.people, Pick::Arrived, e.people.len());
        assert(b.elevators.take(k as int).drop_last() == b.elevators.take(k - 1));
        assert(b.elevators.take(k as int).last() == e);
        let after = b.exchange_upto(k);
        assert forall|j: int| k <= j < b.elevators.len() implies (#[trigger] after.elevators[j]) == b.elevators[j] by {
            assert(before.elevators[j] == b.elevators[j]);
        }
    }
}

impl BuildingView {
    /// The building can go through tick number `time_step` with the tip
    /// samples `samples`, whatever the dispatch decides: no wait counter is
    /// at its limit, the wait account has room for everyone who rides an
    /// elevator, `time_step` ticks have been accounted and the tick after
    /// this one has a number, the energy account has room for the most the
    /// elevators can spend, there is a sample for each person the ground
    /// floor can hold, and the tip account has room for all of them.
    pub open spec fn ready_for_tick(self, time_step: int, samples: Seq<u64>) -> bool {
        &&& self.has_headroom()
        &&& self.wait_time_denom + riders(self.elevators) <= usize::MAX
        &&& 0 <= time_step < i32::MAX
        &&& time_step == self.energy_ticks
        &&& self.energy_total + self.elevators.len() * energy_limit() <= u128::MAX
        &&& self.floors[0].capacity <= samples.len()
        &&& self.tot_tips + sum_of(samples) <= u64::MAX
    }
}

/// Whether no wait counter of `people` is at its limit.
pub fn have_headroom(people: &Vec<Person>) -> (ok: bool)
    ensures
        ok == forall|k: int| 0 <= k < people@.len() ==> (#[trigger] people@[k]).wait_time < usize::MAX,
{
    let mut k: usize = 0;
    while k < people.len()
        invariant
            k <= people@.len(),
            forall|j: int| 0 <= j < k ==> (#[trigger] people@[j]).wait_time < usize::MAX,
        decreases people@.len() - k,
    {
        if people[k].wait_time == usize::MAX {
            return false;
        }
        k = k + 1;
    }
    true
}

impl Building {
    /// Whether the building can go through tick number `time_step` with the
    /// tip samples `tip_samples`: see [`BuildingView::ready_for_tick`].
    pub fn is_ready(&self, time_step: i32, tip_samples: &Vec<u64>) -> (ready: bool)
        requires
            self.wf(),
        ensures
            ready == self@.ready_for_tick(time_step as int, tip_samples@),
    {
        if time_step < 0 || time_step == i32::MAX || time_step as u64 != self.energy_ticks {
            return false;
        }
        assert(self.elevators@.len() * energy_limit() <= 0xffff_ffff * energy_limit()) by (nonlinear_arith)
            requires
                self.elevators@.len() <= 0xffff_ffff,
                energy_limit() >= 0,
        ;
        let most: u128 = (self.elevators.len() as u128) * 0xffff_ffff_0000_0000_0000_0000;
        assert(energy_limit() == 0xffff_ffff_0000_0000_0000_0000);
        if self.energy_total > u128::MAX - most {
            return false;
        }
        if tip_samples.len() < self.floors[0].capacity {
            return false;
        }
        let mut i: usize = 0;
        while i < self.floors.len()
            invariant
                i <= self.floors@.len(),
                forall|m: int, k: int|
                    0 <= m < i && 0 <= k < self@.floors[m].people.len() ==> (
                    #[trigger] self@.floors[m].people[k]).wait_time < usize::MAX,
            decreases self.floors@.len() - i,
        {
            if !have_headroom(&self.floors[i].people) {
                proof {
                    let k = choose|k: int|
                        0 <= k < self.floors@[i as int].people@.len() && !((
                        #[trigger] self.floors@[i as int].people@[k]).wait_time < usize::MAX);
                    assert(!(self@.floors[i as int].people[k].wait_time < usize::MAX));
                }
                return false;
            }
            i = i + 1;
        }
        let mut aboard: u128 = 0;
        let mut j: usize = 0;
        while j < self.elevators.len()
            invariant
                j <= self.elevators@.len(),
                self.elevators@.len() <= u32::MAX,
                aboard == riders(self@.elevators.take(j as int)),
                aboard <= j * usize::MAX,
                forall|m: int, k: int|
                    0 <= m < j && 0 <= k < self@.elevators[m].people.len() ==> (
                    #[trigger] self@.elevators[m].people[k]).wait_time < usize::MAX,
            decreases self.elevators@.len() - j,
        {
            if !have_headroom(&self.elevators[j].people) {
                proof {
                    let k = choose|k: int|
                        0 <= k < self.elevators@[j as int].people@.len() && !((
                        #[trigger] self.elevators@[j as int].people@[k]).wait_time < usize::MAX);
                    assert(!(self@.elevators[j as int].people[k].wait_time < usize::MAX));
                }
                return false;
            }
            let count: usize = self.elevators[j].people.len();
            proof {
                let upto = self@.elevators.take(j + 1);
                assert(upto.drop_last() == self@.elevators.take(j as int));
                assert(upto.last() == self.elevators@[j as int]@);
                assert(j * usize::MAX + usize::MAX == (j + 1) * usize::MAX) by (nonlinear_arith);
                assert((j + 1) * usize::MAX <= u128::MAX) by (nonlinear_arith)
                    requires
                        j + 1 <= 0xffff_ffff,
                        usize::MAX <= 0xffff_ffff_ffff_ffff,
                ;
            }
            aboard = aboard + count as u128;
            j = j + 1;
        }
        assert(self@.elevators.take(j as int) == self@.elevators);
        assert(aboard <= 0xffff_ffff * 0xffff_ffff_ffff_ffff) by (nonlinear_arith)
            requires
                aboard <= j * usize::MAX,
                j <= 0xffff_ffff,
                usize::MAX <= 0xffff_ffff_ffff_ffff,
        ;
        if self.wait_time_denom as u128 + aboard > usize::MAX as u128 {
            return false;
        }
        let mut tips: u128 = self.tot_tips as u128;
        let mut n: usize = 0;
        while n < tip_samples.len()
            invariant
                n <= tip_samples@.len(),
                tips == self.tot_tips + sum_of(tip_samples@.take(n as int)),
                tips <= u64::MAX + n * u64::MAX,
            decreases tip_samples@.len() - n,
        {
            proof {
                let upto = tip_samples@.take(n + 1);
                assert(upto.drop_last() == tip_samples@.take(n as int));
                assert(upto.last() == tip_samples@[n as int]);
                assert(n * u64::MAX + u64::MAX == (n + 1) * u64::MAX) by (nonlinear_arith);
                assert(u64::MAX + (n + 1) * u64::MAX <= u128::MAX) by (nonlinear_arith)
                    requires
                        n + 1 <= 0xffff_ffff_ffff_ffff,
                ;
            }
            tips = tips + tip_samples[n] as u128;
            n = n + 1;
        }
        assert(tip_samples@.take(n as int) == tip_samples@);
        tips <= u64::MAX as u128
    }
}

/// Whether everyone of `people` is well formed, on floor `floor` and bound
/// for a floor below `num_floors`; and, where `rested` is asked for, whether
/// those at their destination have no wait behind them.
pub fn people_fit(people: &Vec<Person>, floor: usize, num_floors: usize, rested: bool) -> (ok: bool)
    ensures
        ok == {
            &&& all_wf(people@)
            &&& all_on(people@, floor)
            &&& all_within(people@, num_floors as nat)
            &&& rested ==> all_rested(people@)
        },
{
    let mut k: usize = 0;
    while k < people.len()
        invariant
            k <= people@.len(),
            forall|j: int|
                0 <= j < k ==> {
                    &&& (#[trigger] people@[j]).wf()
                    &&& people@[j].floor_on == floor
                    &&& people@[j].floor_to < num_floors
                    &&& rested && !people@[j].is_waiting() ==> people@[j].wait_time == 0
                },
        decreases people@.len() - k,
    {
        let person: Person = people[k];
        let fits: bool = person.is_wf() && person.floor_on == floor && person.floor_to < num_floors && (!rested
            || person.floor_on != person.floor_to || person.wait_time == 0);
        if !fits {
            assert(!(people@[k as int].wf() && people@[k as int].floor_on == floor && people@[k as int].floor_to
                < num_floors && (rested && !people@[k as int].is_waiting() ==> people@[k as int].wait_time == 0)));
            return false;
        }
        k = k + 1;
    }
    true
}

impl Building {
    /// Whether the building is well formed: see [`BuildingView::wf`].
    pub fn is_wf(&self) -> (ok: bool)
        ensures
            ok == self.wf(),
    {
        let num_floors: usize = self.floors.len();
        if num_floors == 0 || self.elevators.len() > 0xffff_ffff {
            return false;
        }
        if self.energy_ticks == 0 && self.energy_total != 0 {
            return false;
        }
        assert(self.wait_time_denom * usize::MAX <= 0xffff_ffff_ffff_ffff * 0xffff_ffff_ffff_ffff)
            by (nonlinear_arith)
            requires
                self.wait_time_denom <= 0xffff_ffff_ffff_ffff,
                usize::MAX <= 0xffff_ffff_ffff_ffff,
        ;
        if self.wait_time_total > (self.wait_time_denom as u128) * (usize::MAX as u128) {
            return false;
        }
        let mut i: usize = 0;
        while i < num_floors
            invariant
                i <= num_floors,
                num_floors == self.floors@.len(),
                forall|m: int|
                    0 <= m < i ==> {
                        &&& (#[trigger] self@.floors[m]).wf()
                        &&& all_on(self@.floors[m].people, m as usize)
                        &&& all_within(self@.floors[m].people, num_floors as nat)
                    },
            decreases num_floors - i,
        {
            let fits: bool = self.floors[i].people.len() <= self.floors[i].capacity && people_fit(
                &self.floors[i].people,
                i,
                num_floors,
                true,
            );
            if !fits {
                assert(!(self@.floors[i as int].wf() && all_on(self@.floors[i as int].people, i)
                    && all_within(self@.floors[i as int].people, num_floors as nat)));
                return false;
            }
            i = i + 1;
        }
        let mut j: usize = 0;
        while j < self.elevators.len()
            invariant
                j <= self.elevators@.len(),
                num_floors == self.floors@.len(),
                forall|m: int|
                    0 <= m < j ==> {
                        &&& (#[trigger] self@.elevators[m]).wf()
                        &&& self@.elevators[m].floor_on < num_floors
                        &&& all_within(self@.elevators[m].people, num_floors as nat)
                    },
            decreases self.elevators@.len() - j,
        {
            let fits: bool = self.elevators[j].floor_on < num_floors && self.elevators[j].people.len()
                <= self.elevators[j].capacity && people_fit(
                &self.elevators[j].people,
                self.elevators[j].floor_on,
                num_floors,
                false,
            );
            if !fits {
                assert(!(self@.elevators[j as int].wf() && self@.elevators[j as int].floor_on < num_floors
                    && all_within(self@.elevators[j as int].people, num_floors as nat)));
                return false;
            }
            j = j + 1;
        }
        true
    }
}

/// The average wait is a number after every exchange, whoever got off and
/// even if nobody did: it is zero while nobody has been counted, and never
/// more than the longest wait a counter can hold.
pub proof fn lemma_average_wait_is_defined(b: BuildingView)
    requires
        b.wf(),
    ensures
        b.exchanged().wf(),
        b.exchanged().wait_time_denom == 0 ==> b.exchanged().avg_wait_time() == 0,
        0 <= b.exchanged().avg_wait_time() <= usize::MAX * FINE,
{
    lemma_exchange_wf(b, b.elevators.len());
    let after = b.exchanged();
    let total = after.wait_time_total as int;
    let denom = after.wait_time_denom as int;
    if denom > 0 {
        assert(0 <= total * FINE / denom <= usize::MAX * FINE) by (nonlinear_arith)
            requires
                0 <= total <= denom * usize::MAX,
                denom > 0,
        ;
    }
}

/// Where nobody arrives, nothing changes.
pub proof fn lemma_no_arrivals(b: BuildingView, after: BuildingView)
    requires
        0 < b.floors.len(),
        b.arrived(after, 0),
    ensures
        after == b,
{
    let newcomers = choose|newcomers: Seq<Person>| b.are_arrivals(newcomers, 0) && #[trigger] b.joined_by(newcomers) == after;
    let ground = b.floors[0];
    assert(admitted(ground.people, newcomers, ground.capacity) =~= ground.people);
    assert(after.floors =~= b.floors);
}

/// The leave draws are all that is open in the leave step: two outcomes of
/// the step from one building in which the same people are leaving are one
/// and the same building. Every other step of a tick is a function of the
/// building and of what is handed to it or drawn for it: the targets of a
/// dispatch, the tip draws and samples, the newcomers.
pub proof fn lemma_leave_step_is_fixed_by_its_draws(b: BuildingView, x: BuildingView, y: BuildingView)
    requires
        b.left(x),
        b.left(y),
        forall|m: int, k: int|
            0 <= m < b.floors.len() && 0 <= k < b.floors[m].people.len() ==> (
            #[trigger] x.floors[m].people[k]).is_leaving == y.floors[m].people[k].is_leaving,
    ensures
        x == y,
{
    assert forall|m: int| 0 <= m < b.floors.len() implies #[trigger] x.floors[m] == y.floors[m] by {
        assert(leave_drawn(b.floors[m].people, x.floors[m].people));
        assert(leave_drawn(b.floors[m].people, y.floors[m].people));
        assert forall|k: int| 0 <= k < b.floors[m].people.len() implies #[trigger] x.floors[m].people[k]
            == y.floors[m].people[k] by {
            let was = b.floors[m].people[k];
            assert(x.floors[m].people[k].is_leaving == y.floors[m].people[k].is_leaving);
        }
        assert(x.floors[m].people =~= y.floors[m].people);
    }
    assert(x.floors =~= y.floors);
}

} // verus!
