//! The dispatch policies: who decides where the elevators go.

use crate::building::{lemma_exchange_bound, lemma_riders_same, riders, Building, BuildingView, ConfigError};
use crate::chance::ONE;
use crate::dispatch::{lemma_dispatched, lemma_nearest_targets};
use crate::elevator::ElevatorView;
use crate::random::{sample_below, sample_ratio, seed_from_os};
use rand::rngs::StdRng;
use vstd::prelude::*;

verus! {

/// A dispatch policy: it owns one building and, each tick, decides where
/// every elevator goes.
pub trait ElevatorController {
    /// The building the policy owns.
    spec fn building(&self) -> Building;

    /// The policy and its building fit together.
    spec fn wf(&self) -> bool;

    /// Whether the policy can be made to decide better.
    spec fn upgradable(&self) -> bool;

    /// The building.
    fn get_building(&mut self) -> (building: &Building)
        ensures
            *building == old(self).building(),
    ;

    /// The building, to change it.
    fn get_building_mut(&mut self) -> (building: &mut Building)
        ensures
            *building == old(self).building(),
            final(self).building() == *final(building),
    ;

    /// A copy of the building, for handing it to another policy.
    fn clone_building(&mut self) -> (copy: Building)
        ensures
            copy@ == old(self).building()@,
            final(self).building() == old(self).building(),
    ;

    /// Whether the policy and its building are in order: what every other
    /// operation takes for granted.
    fn is_in_order(&self) -> (ok: bool)
        ensures
            ok == (self.wf() && self.building().wf()),
    ;

    /// Whether the policy can be made to decide better.
    fn can_be_upgraded(&self) -> (can: bool)
        ensures
            can == self.upgradable(),
    ;

    /// Makes the policy decide better by `incrementation` millionths, as far
    /// as it can be. The building stays as it is.
    fn upgrade(&mut self, incrementation: u32)
        ensures
            final(self).building() == old(self).building(),
            old(self).wf() ==> final(self).wf(),
    ;

    /// Decides where every elevator goes, heads it there and lets it take
    /// one step. Floors and accounts stay as they are.
    fn update_elevators(&mut self)
        requires
            old(self).wf(),
        ensures
            final(self).wf(),
            old(self).building()@.redirected(final(self).building()@),
    ;

    /// One tick: the elevators are dispatched, and then the building does
    /// everything else a tick holds. See [`BuildingView::redirected`] and
    /// [`BuildingView::ticked_to`].
    fn advance_tick(&mut self, rng: &mut StdRng, time_step: i32, num_arrivals: usize, tip_samples: &Vec<u64>)
        requires
            old(self).wf(),
            old(self).building().wf(),
            old(self).building()@.ready_for_tick(time_step as int, tip_samples@),
        ensures
            final(self).wf(),
            final(self).building().wf(),
            exists|mid: BuildingView|
                old(self).building()@.redirected(mid) && #[trigger] mid.ticked_to(
                    final(self).building()@,
                    num_arrivals as nat,
                    tip_samples@,
                ),
    ;
}

/// After a dispatch the coming exchange cannot overflow the wait account if
/// the account had room for everyone who rides an elevator.
pub proof fn lemma_room_to_exchange(before: BuildingView, after: BuildingView)
    requires
        before.wf(),
        before.redirected(after),
        before.wait_time_denom + riders(before.elevators) <= usize::MAX,
    ensures
        after.wf(),
        after.exchanged().wait_time_denom <= usize::MAX,
        before.has_headroom() ==> after.has_headroom(),
        after.floors == before.floors,
        after.tot_tips == before.tot_tips,
        after.elevators.len() == before.elevators.len(),
{
    let targets = choose|targets: Seq<usize>| before.are_targets(targets) && #[trigger] before.dispatched(targets) == after;
    lemma_dispatched(before, targets);
    lemma_riders_same(before.elevators, after.elevators);
    lemma_exchange_bound(after, after.elevators.len());
    assert(after.elevators.take(after.elevators.len() as int) == after.elevators);
}

/// A policy that sends each elevator to a floor drawn at random or, with the
/// chance `p_rational` (in millionths), to where it would best go. An
/// elevator keeps its target until it gets there.
pub struct RandomController {
    pub building: Building,
    pub num_floors: usize,
    pub floors_to: Vec<Option<usize>>,
    pub p_rational: u32,
    pub upgradable: bool,
    pub rng: StdRng,
}

impl RandomController {
    /// The building is well formed, the chance of deciding well is at most
    /// one, and the targets kept are floors of the building, at most one per
    /// elevator.
    pub open spec fn fits(&self) -> bool {
        &&& self.building.wf()
        &&& self.p_rational <= ONE
        &&& self.floors_to@.len() <= self.building@.elevators.len()
        &&& forall|i: int|
            0 <= i < self.floors_to@.len() ==> ((#[trigger] self.floors_to@[i]) matches Some(floor)
                ==> floor < self.building@.floors.len())
    }

    /// `targets` are targets the policy may come up with this tick: a target
    /// kept from an earlier tick stands; a new one is a floor of the
    /// building, and where the policy always decides well it is the floor
    /// [`BuildingView::rational_target`] names.
    pub open spec fn may_choose(&self, targets: Seq<usize>) -> bool {
        &&& self.building@.are_targets(targets)
        &&& forall|i: int|
            0 <= i < targets.len() ==> {
                let kept: Option<usize> = if i < self.floors_to@.len() {
                    self.floors_to@[i]
                } else {
                    None
                };
                match kept {
                    Some(floor) => #[trigger] targets[i] == floor,
                    None => self.p_rational == ONE ==> targets[i] == self.building@.rational_target(i),
                }
            }
    }

    /// A policy for `building` that draws from `rng` and decides well with
    /// the chance `p_rational`, in millionths. Refused if that chance is
    /// above one.
    pub fn from(building: Building, rng: StdRng, p_rational: u32) -> (made: Result<
        RandomController,
        ConfigError,
    >)
        requires
            building.wf(),
        ensures
            made is Err <==> p_rational > ONE,
            made matches Err(e) ==> e == ConfigError::BadProbability,
            made matches Ok(c) ==> c.is_new(building, p_rational) && c.rng == rng,
    {
        if p_rational > ONE {
            return Err(ConfigError::BadProbability);
        }
        Ok(RandomController::with_no_targets(building, rng, p_rational))
    }

    /// A policy for `building` that never decides well, with a generator
    /// seeded by the operating system. Refused only where the operating
    /// system gives nothing to seed it with.
    pub fn from_building(building: Building) -> (made: Result<RandomController, ConfigError>)
        requires
            building.wf(),
        ensures
            made matches Err(e) ==> e == ConfigError::NoEntropy,
            made matches Ok(c) ==> c.is_new(building, 0),
    {
        match seed_from_os() {
            Ok(rng) => Ok(RandomController::with_no_targets(building, rng, 0)),
            Err(_) => Err(ConfigError::NoEntropy),
        }
    }

    /// The policy is as it is made for `building` with the chance
    /// `p_rational`: it can be upgraded and has no targets yet.
    pub open spec fn is_new(&self, building: Building, p_rational: u32) -> bool {
        &&& self.building == building
        &&& self.p_rational == p_rational
        &&& self.upgradable
        &&& self.num_floors == building@.floors.len()
        &&& self.floors_to@.len() == building@.elevators.len()
        &&& forall|i: int| 0 <= i < self.floors_to@.len() ==> (#[trigger] self.floors_to@[i]) is None
        &&& self.fits()
    }

    /// A policy for `building` without a target for any elevator.
    fn with_no_targets(building: Building, rng: StdRng, p_rational: u32) -> (made: RandomController)
        requires
            building.wf(),
            p_rational <= ONE,
        ensures
            made.is_new(building, p_rational),
            made.rng == rng,
    {
        let num_floors: usize = building.floors.len();
        let num_elevators: usize = building.elevators.len();
        let mut floors_to: Vec<Option<usize>> = Vec::new();
        let mut i: usize = 0;
        while i < num_elevators
            invariant
                i <= num_elevators,
                floors_to@.len() == i,
                forall|k: int| 0 <= k < i ==> (#[trigger] floors_to@[k]) is None,
            decreases num_elevators - i,
        {
            floors_to.push(None);
            i = i + 1;
        }
        RandomController { building, num_floors, floors_to, p_rational, upgradable: true, rng }
    }

    /// Gives every elevator without a target one: with the chance
    /// `p_rational` the floor [`BuildingView::rational_target`] names, else
    /// a floor drawn uniformly. Targets kept from earlier ticks stand.
    pub fn update_floors_to(&mut self)
        requires
            old(self).fits(),
        ensures
            final(self).fits(),
            final(self).building == old(self).building,
            final(self).p_rational == old(self).p_rational,
            final(self).upgradable == old(self).upgradable,
            final(self).num_floors == old(self).building@.floors.len(),
            final(self).floors_to@.len() == old(self).building@.elevators.len(),
            forall|i: int| 0 <= i < final(self).floors_to@.len() ==> (#[trigger] final(self).floors_to@[i]) is Some,
            old(self).may_choose(Seq::new(final(self).floors_to@.len(), |i: int| final(self).floors_to@[i]->0)),
    {
        let n: usize = self.building.elevators.len();
        while self.floors_to.len() < n
            invariant
                n == self.building@.elevators.len(),
                self.building == old(self).building,
                self.p_rational == old(self).p_rational,
                self.upgradable == old(self).upgradable,
                old(self).floors_to@.len() <= self.floors_to@.len() <= n,
                forall|i: int| 0 <= i < old(self).floors_to@.len() ==> self.floors_to@[i] == old(self).floors_to@[i],
                forall|i: int|
                    old(self).floors_to@.len() <= i < self.floors_to@.len() ==> (#[trigger] self.floors_to@[i]) is None,
            decreases n - self.floors_to@.len(),
        {
            self.floors_to.push(None);
        }
        if self.building.floors.len() != self.num_floors {
            self.num_floors = self.building.floors.len();
        }
        let ghost padded = self.floors_to@;
        let mut i: usize = 0;
        while i < n
            invariant
                i <= n,
                n == self.building@.elevators.len(),
                n == self.floors_to@.len(),
                n == padded.len(),
                old(self).fits(),
                self.building == old(self).building,
                self.p_rational == old(self).p_rational,
                self.upgradable == old(self).upgradable,
                self.num_floors == self.building@.floors.len(),
                old(self).floors_to@.len() <= n,
                forall|k: int| 0 <= k < old(self).floors_to@.len() ==> padded[k] == old(self).floors_to@[k],
                forall|k: int| old(self).floors_to@.len() <= k < n ==> (#[trigger] padded[k]) is None,
                forall|k: int| i <= k < n ==> self.floors_to@[k] == padded[k],
                forall|k: int|
                    0 <= k < i ==> {
                        &&& (#[trigger] self.floors_to@[k]) matches Some(floor)
                        &&& floor < self.building@.floors.len()
                        &&& (padded[k] matches Some(kept) ==> floor == kept)
                        &&& (padded[k] is None && self.p_rational == ONE ==> floor
                            == self.building@.rational_target(k))
                    },
            decreases n - i,
        {
            let kept: Option<usize> = self.floors_to[i];
            match kept {
                Some(_) => {
                    assert(padded[i as int] == old(self).floors_to@[i as int]);
                },
                None => {
                    let rational: bool = sample_ratio(&mut self.rng, self.p_rational, ONE);
                    let drawn: Option<usize> = if rational {
                        None
                    } else {
                        Some(sample_below(&mut self.rng, self.num_floors))
                    };
                    let target: usize = self.building.target_after_draw(i, rational, drawn);
                    self.floors_to.set(i, Some(target));
                },
            }
            i = i + 1;
        }
        proof {
            let targets = Seq::new(self.floors_to@.len(), |i: int| self.floors_to@[i]->0);
            assert forall|k: int| 0 <= k < targets.len() implies {
                let kept: Option<usize> = if k < old(self).floors_to@.len() {
                    old(self).floors_to@[k]
                } else {
                    None
                };
                match kept {
                    Some(floor) => #[trigger] targets[k] == floor,
                    None => old(self).p_rational == ONE ==> targets[k] == old(self).building@.rational_target(k),
                }
            } by {
                assert(self.floors_to@[k] is Some);
            }
            assert forall|k: int| 0 <= k < targets.len() implies #[trigger] targets[k] < old(
                self,
            ).building@.floors.len() by {
                assert(self.floors_to@[k] is Some);
            }
        }
    }

    /// Forgets the target of every elevator that has reached it.
    pub fn clear_floors_to(&mut self)
        requires
            old(self).floors_to@.len() <= old(self).building@.elevators.len(),
        ensures
            final(self).floors_to@ == RandomController::cleared(old(self).floors_to@, old(self).building@.elevators),
            final(self).building == old(self).building,
            final(self).p_rational == old(self).p_rational,
            final(self).upgradable == old(self).upgradable,
            final(self).num_floors == old(self).num_floors,
            final(self).rng == old(self).rng,
            old(self).fits() ==> final(self).fits(),
    {
        let n: usize = self.floors_to.len();
        let mut i: usize = 0;
        while i < n
            invariant
                i <= n,
                n == self.floors_to@.len(),
                n == old(self).floors_to@.len(),
                n <= self.building@.elevators.len(),
                self.building == old(self).building,
                self.p_rational == old(self).p_rational,
                self.upgradable == old(self).upgradable,
                self.num_floors == old(self).num_floors,
                self.rng == old(self).rng,
                forall|k: int|
                    0 <= k < i ==> #[trigger] self.floors_to@[k] == if old(self).floors_to@[k] == Some(
                        old(self).building@.elevators[k].floor_on,
                    ) {
                        None
                    } else {
                        old(self).floors_to@[k]
                    },
                forall|k: int| i <= k < n ==> self.floors_to@[k] == old(self).floors_to@[k],
            decreases n - i,
        {
            let kept: Option<usize> = self.floors_to[i];
            match kept {
                Some(floor) => {
                    if floor == self.building.elevators[i].floor_on {
                        self.floors_to.set(i, None);
                    }
                },
                None => {},
            }
            i = i + 1;
        }
        assert(self.floors_to@ =~= RandomController::cleared(old(self).floors_to@, old(self).building@.elevators));
    }

    /// What is left of `targets` once every elevator that has reached its
    /// target has forgotten it.
    pub open spec fn cleared(targets: Seq<Option<usize>>, elevators: Seq<ElevatorView>) -> Seq<Option<usize>> {
        Seq::new(
            targets.len(),
            |i: int|
                if targets[i] == Some(elevators[i].floor_on) {
                    None
                } else {
                    targets[i]
                },
        )
    }
}

/// The chance of deciding well after an upgrade by `incrementation`
/// millionths: that much higher, but never above one.
pub open spec fn upgraded_chance(chance: u32, incrementation: u32) -> u32 {
    if chance + incrementation > ONE {
        ONE
    } else {
        (chance + incrementation) as u32
    }
}

/// The chance of deciding well after `times` upgrades by `incrementation`
/// millionths each.
pub open spec fn upgraded_times(chance: u32, incrementation: u32, times: nat) -> u32
    decreases times,
{
    if times == 0 {
        chance
    } else {
        upgraded_chance(upgraded_times(chance, incrementation, (times - 1) as nat), incrementation)
    }
}

/// Upgrades only ever raise the chance of deciding well, and never past one:
/// after `times` upgrades it is the chance at the start plus `times`
/// increments, or one if that is more. Once it is one, the policy cannot be
/// upgraded any further, and not before.
pub proof fn lemma_upgrades(chance: u32, incrementation: u32, times: nat)
    requires
        chance <= ONE,
    ensures
        upgraded_times(chance, incrementation, times) == if chance + times * incrementation >= ONE {
            ONE as int
        } else {
            chance + times * incrementation
        },
        chance <= upgraded_times(chance, incrementation, times) <= ONE,
        times > 0 ==> upgraded_times(chance, incrementation, (times - 1) as nat) <= upgraded_times(
            chance,
            incrementation,
            times,
        ),
    decreases times,
{
    if times > 0 {
        lemma_upgrades(chance, incrementation, (times - 1) as nat);
        assert(chance + times * incrementation == chance + (times - 1) * incrementation + incrementation)
            by (nonlinear_arith);
        assert((times - 1) * incrementation >= 0) by (nonlinear_arith)
            requires
                times >= 1,
                incrementation >= 0,
        ;
    } else {
        assert(chance + 0 * incrementation == chance) by (nonlinear_arith);
    }
}

impl ElevatorController for RandomController {
    open spec fn building(&self) -> Building {
        self.building
    }

    open spec fn wf(&self) -> bool {
        self.fits()
    }

    open spec fn upgradable(&self) -> bool {
        self.p_rational < ONE && self.upgradable
    }

    fn get_building(&mut self) -> (building: &Building)
        ensures
            *final(self) == *old(self),
    {
        &self.building
    }

    fn get_building_mut(&mut self) -> (building: &mut Building)
        ensures
            *final(self) == (RandomController { building: *final(building), ..*old(self) }),
    {
        &mut self.building
    }

    fn clone_building(&mut self) -> (copy: Building)
        ensures
            *final(self) == *old(self),
    {
        self.building.clone()
    }

    fn is_in_order(&self) -> (ok: bool) {
        if !self.building.is_wf() || self.p_rational > ONE || self.floors_to.len() > self.building.elevators.len() {
            return false;
        }
        let num_floors: usize = self.building.floors.len();
        let mut i: usize = 0;
        while i < self.floors_to.len()
            invariant
                i <= self.floors_to@.len(),
                num_floors == self.building@.floors.len(),
                forall|k: int|
                    0 <= k < i ==> ((#[trigger] self.floors_to@[k]) matches Some(floor) ==> floor < num_floors),
            decreases self.floors_to@.len() - i,
        {
            let kept: Option<usize> = self.floors_to[i];
            match kept {
                Some(floor) => {
                    if floor >= num_floors {
                        assert(!(self.floors_to@[i as int] matches Some(f) ==> f < num_floors));
                        return false;
                    }
                },
                None => {},
            }
            i = i + 1;
        }
        true
    }

    fn can_be_upgraded(&self) -> (can: bool) {
        if self.p_rational >= ONE {
            return false;
        }
        self.upgradable
    }

    fn upgrade(&mut self, incrementation: u32)
        ensures
            *final(self) == (RandomController {
                p_rational: upgraded_chance(old(self).p_rational, incrementation),
                ..*old(self)
            }),
            final(self).p_rational >= old(self).p_rational || old(self).p_rational > ONE,
            final(self).p_rational <= ONE,
    {
        let raised: u64 = self.p_rational as u64 + incrementation as u64;
        if raised > ONE as u64 {
            self.p_rational = ONE;
        } else {
            self.p_rational = raised as u32;
        }
    }

    fn update_elevators(&mut self)
        ensures
            exists|targets: Seq<usize>|
                {
                    &&& old(self).may_choose(targets)
                    &&& #[trigger] old(self).building@.dispatched(targets) == final(self).building@
                    &&& final(self).floors_to@ == RandomController::cleared(
                        Seq::new(targets.len(), |i: int| Some(targets[i])),
                        final(self).building@.elevators,
                    )
                },
            final(self).p_rational == old(self).p_rational,
            final(self).upgradable == old(self).upgradable,
            final(self).num_floors == old(self).building@.floors.len(),
    {
        self.update_floors_to();
        let n: usize = self.floors_to.len();
        let mut targets: Vec<usize> = Vec::new();
        let mut i: usize = 0;
        while i < n
            invariant
                i <= n,
                n == self.floors_to@.len(),
                targets@.len() == i,
                forall|k: int| 0 <= k < n ==> (#[trigger] self.floors_to@[k]) is Some,
                forall|k: int| 0 <= k < i ==> targets@[k] == self.floors_to@[k]->0,
            decreases n - i,
        {
            let kept: Option<usize> = self.floors_to[i];
            targets.push(kept.unwrap());
            i = i + 1;
        }
        proof {
            assert(targets@ =~= Seq::new(self.floors_to@.len(), |i: int| self.floors_to@[i]->0));
        }
        self.building.dispatch(&targets);
        proof {
            lemma_dispatched(old(self).building@, targets@);
        }
        let ghost kept = self.floors_to@;
        self.clear_floors_to();
        proof {
            assert(old(self).building@.dispatched(targets@) == self.building@);
            assert(kept =~= Seq::new(targets@.len(), |i: int| Some(targets@[i])));
        }
    }

    fn advance_tick(&mut self, rng: &mut StdRng, time_step: i32, num_arrivals: usize, tip_samples: &Vec<u64>)
        ensures
            exists|targets: Seq<usize>|
                {
                    &&& old(self).may_choose(targets)
                    &&& #[trigger] old(self).building@.dispatched(targets).ticked_to(
                        final(self).building@,
                        num_arrivals as nat,
                        tip_samples@,
                    )
                    &&& final(self).floors_to@ == RandomController::cleared(
                        Seq::new(targets.len(), |i: int| Some(targets[i])),
                        old(self).building@.dispatched(targets).elevators,
                    )
                },
            final(self).p_rational == old(self).p_rational,
            final(self).upgradable == old(self).upgradable,
            final(self).num_floors == old(self).building@.floors.len(),
    {
        self.update_elevators();
        let ghost mid = self.building@;
        let ghost kept = self.floors_to@;
        proof {
            lemma_room_to_exchange(old(self).building@, mid);
        }
        self.building.advance_tick(rng, time_step, num_arrivals, tip_samples);
        proof {
            let targets = choose|targets: Seq<usize>|
                {
                    &&& old(self).may_choose(targets)
                    &&& #[trigger] old(self).building@.dispatched(targets) == mid
                    &&& kept == RandomController::cleared(
                        Seq::new(targets.len(), |i: int| Some(targets[i])),
                        mid.elevators,
                    )
                };
            assert(old(self).building@.dispatched(targets).ticked_to(
                self.building@,
                num_arrivals as nat,
                tip_samples@,
            ));
        }
    }
}

/// A policy that sends each elevator to the nearest destination of the
/// people aboard, or else to the nearest floor where someone waits.
pub struct NearestController {
    pub building: Building,
    pub upgradable: bool,
}

impl NearestController {
    /// A policy for `building`.
    pub fn from(building: Building) -> (made: NearestController)
        ensures
            made.building == building,
            !made.upgradable,
    {
        NearestController { building, upgradable: false }
    }

    /// A policy for `building`.
    pub fn from_building(building: Building) -> (made: NearestController)
        ensures
            made.building == building,
            !made.upgradable,
    {
        NearestController { building, upgradable: false }
    }
}

impl ElevatorController for NearestController {
    open spec fn building(&self) -> Building {
        self.building
    }

    open spec fn wf(&self) -> bool {
        self.building.wf()
    }

    open spec fn upgradable(&self) -> bool {
        self.upgradable
    }

    fn get_building(&mut self) -> (building: &Building)
        ensures
            *final(self) == *old(self),
    {
        &self.building
    }

    fn get_building_mut(&mut self) -> (building: &mut Building)
        ensures
            *final(self) == (NearestController { building: *final(building), ..*old(self) }),
    {
        &mut self.building
    }

    fn clone_building(&mut self) -> (copy: Building)
        ensures
            *final(self) == *old(self),
    {
        self.building.clone()
    }

    fn is_in_order(&self) -> (ok: bool) {
        self.building.is_wf()
    }

    fn can_be_upgraded(&self) -> (can: bool) {
        self.upgradable
    }

    fn upgrade(&mut self, incrementation: u32)
        ensures
            *final(self) == *old(self),
    {
    }

    fn update_elevators(&mut self)
        ensures
            final(self).building@ == old(self).building@.dispatched(old(self).building@.nearest_targets()),
            final(self).upgradable == old(self).upgradable,
    {
        let n: usize = self.building.elevators.len();
        let mut decisions: Vec<usize> = Vec::new();
        let mut i: usize = 0;
        while i < n
            invariant
                i <= n,
                n == self.building@.elevators.len(),
                self.building.wf(),
                self.building == old(self).building,
                self.upgradable == old(self).upgradable,
                decisions@.len() == i,
                forall|k: int| 0 <= k < i ==> decisions@[k] == self.building@.nearest_target(k),
            decreases n - i,
        {
            let target: usize = self.building.nearest_target(i);
            decisions.push(target);
            i = i + 1;
        }
        proof {
            assert(decisions@ =~= old(self).building@.nearest_targets());
            lemma_nearest_targets(old(self).building@);
        }
        self.building.dispatch(&decisions);
    }

    fn advance_tick(&mut self, rng: &mut StdRng, time_step: i32, num_arrivals: usize, tip_samples: &Vec<u64>)
        ensures
            old(self).building@.dispatched(old(self).building@.nearest_targets()).ticked_to(
                final(self).building@,
                num_arrivals as nat,
                tip_samples@,
            ),
            final(self).upgradable == old(self).upgradable,
    {
        self.update_elevators();
        let ghost mid = self.building@;
        proof {
            lemma_nearest_targets(old(self).building@);
            lemma_room_to_exchange(old(self).building@, mid);
        }
        self.building.advance_tick(rng, time_step, num_arrivals, tip_samples);
    }
}

} // verus!
