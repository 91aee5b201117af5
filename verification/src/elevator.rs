//! An elevator and the people riding it.

use crate::nearest::{distance, floors_between, is_nearest, lemma_nearest_pos, nearest_pos};
use crate::people::{
    admitted, all_wf, dest_floors, kept, lemma_split_all, lemma_split_preserves, lemma_split_sizes,
    take_up_to, taken, People, Pick,
};
use crate::person::Person;
use rand::rngs::StdRng;
use vstd::prelude::*;

verus! {

/// Everyone of `s` is on floor `floor`.
pub open spec fn all_on(s: Seq<Person>, floor: usize) -> bool {
    forall|i: int| 0 <= i < s.len() ==> (#[trigger] s[i]).floor_on == floor
}

/// `s` carried to floor `floor`.
pub open spec fn carried(s: Seq<Person>, floor: usize) -> Seq<Person> {
    Seq::new(s.len(), |i: int| s[i].moved_to(floor))
}

/// An elevator: where it is, which way it is going, whether it is stopped,
/// who rides it, how many it can hold, and what moving it costs.
#[derive(Debug)]
pub struct Elevator {
    pub floor_on: usize,
    pub moving_up: bool,
    pub stopped: bool,
    pub people: Vec<Person>,
    pub capacity: usize,
    pub energy_up: u32,
    pub energy_down: u32,
    pub energy_coef: u32,
}

/// What an elevator is, as plain values.
pub struct ElevatorView {
    pub floor_on: usize,
    pub moving_up: bool,
    pub stopped: bool,
    pub people: Seq<Person>,
    pub capacity: usize,
    pub energy_up: u32,
    pub energy_down: u32,
    pub energy_coef: u32,
}

impl ElevatorView {
    /// The elevator holds no more people than its capacity, each of them is
    /// well formed, and all of them are where the elevator is.
    pub open spec fn wf(self) -> bool {
        &&& self.people.len() <= self.capacity
        &&& all_wf(self.people)
        &&& all_on(self.people, self.floor_on)
    }

    /// The energy one tick costs: nothing while stopped, else the cost of the
    /// direction plus the per-passenger cost for each rider.
    pub open spec fn energy(self) -> int {
        if self.stopped {
            0
        } else if self.moving_up {
            self.energy_up + self.energy_coef * self.people.len()
        } else {
            self.energy_down + self.energy_coef * self.people.len()
        }
    }

    /// The elevator can take its next step without leaving the range of
    /// floor numbers.
    pub open spec fn can_move(self) -> bool {
        !self.stopped ==> if self.moving_up {
            self.floor_on < usize::MAX
        } else {
            self.floor_on > 0
        }
    }

    /// The floor the elevator is on after its next step.
    pub open spec fn next_floor(self) -> int {
        if self.stopped {
            self.floor_on as int
        } else if self.moving_up {
            self.floor_on + 1
        } else {
            self.floor_on - 1
        }
    }

    /// The destination, among those of the people aboard, that is nearest to
    /// where the elevator is, and how far it is; among destinations equally
    /// near, the one of whoever boarded first. `(0, 0)` with nobody aboard.
    pub open spec fn nearest_dest(self) -> (usize, usize) {
        if self.people.len() == 0 {
            (0, 0)
        } else {
            let floors = dest_floors(self.people);
            let k = nearest_pos(floors, self.floor_on);
            (floors[k], distance(floors[k], self.floor_on) as usize)
        }
    }

    /// The elevator headed for `dest_floor`: up if it lies above, down if it
    /// lies below, and stopped if the elevator is there.
    pub open spec fn headed_for(self, dest_floor: usize) -> ElevatorView {
        if dest_floor > self.floor_on {
            ElevatorView { stopped: false, moving_up: true, ..self }
        } else if dest_floor < self.floor_on {
            ElevatorView { stopped: false, moving_up: false, ..self }
        } else {
            ElevatorView { stopped: true, ..self }
        }
    }

    /// The elevator after its next step: one floor on in its direction with
    /// everyone aboard taken along, or unchanged if it is stopped.
    pub open spec fn stepped(self) -> ElevatorView {
        if self.stopped {
            self
        } else {
            ElevatorView {
                floor_on: self.next_floor() as usize,
                people: carried(self.people, self.next_floor() as usize),
                ..self
            }
        }
    }
}

impl View for Elevator {
    type V = ElevatorView;

    open spec fn view(&self) -> ElevatorView {
        ElevatorView {
            floor_on: self.floor_on,
            moving_up: self.moving_up,
            stopped: self.stopped,
            people: self.people@,
            capacity: self.capacity,
            energy_up: self.energy_up,
            energy_down: self.energy_down,
            energy_coef: self.energy_coef,
        }
    }
}

impl Clone for Elevator {
    fn clone(&self) -> (copy: Self)
        ensures
            copy.people@ == self.people@,
            copy.floor_on == self.floor_on,
            copy.moving_up == self.moving_up,
            copy.stopped == self.stopped,
            copy.capacity == self.capacity,
            copy.energy_up == self.energy_up,
            copy.energy_down == self.energy_down,
            copy.energy_coef == self.energy_coef,
    {
        Elevator {
            floor_on: self.floor_on,
            moving_up: self.moving_up,
            stopped: self.stopped,
            people: self.people.clone(),
            capacity: self.capacity,
            energy_up: self.energy_up,
            energy_down: self.energy_down,
            energy_coef: self.energy_coef,
        }
    }
}

impl Elevator {
    /// See [`ElevatorView::wf`].
    pub open spec fn wf(&self) -> bool {
        self@.wf()
    }

    /// See [`ElevatorView::energy`].
    pub open spec fn energy(&self) -> int {
        self@.energy()
    }

    /// See [`ElevatorView::can_move`].
    pub open spec fn can_move(&self) -> bool {
        self@.can_move()
    }

    /// See [`ElevatorView::next_floor`].
    pub open spec fn next_floor(&self) -> int {
        self@.next_floor()
    }

    /// An empty elevator, stopped on the ground floor.
    pub fn from(capacity: usize, energy_up: u32, energy_down: u32, energy_coef: u32) -> (elevator:
        Elevator)
        ensures
            elevator.floor_on == 0,
            !elevator.moving_up,
            elevator.stopped,
            elevator.people@ == Seq::<Person>::empty(),
            elevator.capacity == capacity,
            elevator.energy_up == energy_up,
            elevator.energy_down == energy_down,
            elevator.energy_coef == energy_coef,
            elevator.wf(),
    {
        Elevator {
            floor_on: 0,
            moving_up: false,
            stopped: true,
            people: Vec::new(),
            capacity,
            energy_up,
            energy_down,
            energy_coef,
        }
    }

    /// How many more people the elevator can hold.
    pub fn get_free_capacity(&self) -> (free: usize)
        requires
            self.people@.len() <= self.capacity,
        ensures
            free == self.capacity - self.people@.len(),
    {
        self.capacity - self.people.len()
    }

    /// The energy this tick costs.
    pub fn get_energy_spent(&self) -> (spent: u128)
        ensures
            spent == self.energy(),
            self.stopped ==> spent == 0,
    {
        if self.stopped {
            return 0;
        }
        let riders: usize = self.people.len();
        assert(self.energy_coef * riders <= 0xffff_ffff * 0xffff_ffff_ffff_ffff) by (nonlinear_arith)
            requires
                self.energy_coef <= 0xffff_ffff,
                riders <= 0xffff_ffff_ffff_ffff,
        ;
        let load: u128 = (self.energy_coef as u128) * (riders as u128);
        if self.moving_up {
            self.energy_up as u128 + load
        } else {
            self.energy_down as u128 + load
        }
    }

    /// Heads the elevator for `dest_floor`: up if it lies above, down if it
    /// lies below, and stopped if the elevator is there.
    pub fn update_direction(&mut self, dest_floor: usize)
        ensures
            final(self)@ == old(self)@.headed_for(dest_floor),
            final(self).stopped == (dest_floor == old(self).floor_on),
    {
        if dest_floor > self.floor_on {
            self.stopped = false;
            self.moving_up = true;
        } else if dest_floor < self.floor_on {
            self.stopped = false;
            self.moving_up = false;
        } else {
            self.stopped = true;
        }
    }

    /// Moves the elevator one floor in its direction, unless it is stopped,
    /// takes everyone aboard along, and returns the floor it is on.
    pub fn update_floor(&mut self) -> (floor: usize)
        requires
            old(self).can_move(),
        ensures
            final(self)@ == old(self)@.stepped(),
            floor == old(self).next_floor(),
            floor == final(self).floor_on,
            old(self).wf() ==> final(self).wf(),
    {
        if self.stopped {
            return self.floor_on;
        }
        if self.moving_up {
            self.floor_on = self.floor_on + 1;
        } else {
            self.floor_on = self.floor_on - 1;
        }
        let floor: usize = self.floor_on;
        let mut i: usize = 0;
        while i < self.people.len()
            invariant
                i <= self.people@.len(),
                self.people@.len() == old(self).people@.len(),
                self.floor_on == floor,
                self.moving_up == old(self).moving_up,
                self.stopped == old(self).stopped,
                self.capacity == old(self).capacity,
                self.energy_up == old(self).energy_up,
                self.energy_down == old(self).energy_down,
                self.energy_coef == old(self).energy_coef,
                forall|k: int| 0 <= k < i ==> self.people@[k] == (#[trigger] old(self).people@[k]).moved_to(floor),
                forall|k: int| i <= k < self.people@.len() ==> self.people@[k] == #[trigger] old(self).people@[k],
            decreases self.people@.len() - i,
        {
            let mut person: Person = self.people[i];
            person.floor_on = floor;
            self.people.set(i, person);
            i = i + 1;
        }
        assert(self.people@ =~= carried(old(self).people@, floor));
        proof {
            if old(self).wf() {
                assert forall|k: int| 0 <= k < self.people@.len() implies (#[trigger] self.people@[k]).wf()
                    && self.people@[k].floor_on == floor by {
                    assert(old(self).people@[k].wf());
                }
            }
        }
        floor
    }

    /// The destination, among those of the people aboard, that is nearest to
    /// where the elevator is, and how far it is; among destinations equally
    /// near, the one of whoever boarded first. `(0, 0)` with nobody aboard.
    pub fn get_nearest_dest_floor(&self) -> (found: (usize, usize))
        ensures
            found == self@.nearest_dest(),
            self.people@.len() == 0 ==> found == (0usize, 0usize),
            self.people@.len() > 0 ==> {
                let floors = dest_floors(self.people@);
                let k = nearest_pos(floors, self.floor_on);
                &&& is_nearest(floors, self.floor_on, k)
                &&& found.0 == floors[k]
                &&& found.1 == distance(found.0, self.floor_on)
            },
    {
        let n: usize = self.people.len();
        if n == 0 {
            return (0, 0);
        }
        let ghost floors = dest_floors(self.people@);
        let mut best: usize = self.people[0].floor_to;
        let mut best_dist: usize = floors_between(best, self.floor_on);
        let ghost mut pos: int = 0;
        let mut i: usize = 1;
        while i < n
            invariant
                1 <= i <= n,
                n == self.people@.len(),
                floors == dest_floors(self.people@),
                pos == nearest_pos(floors.take(i as int), self.floor_on),
                0 <= pos < i,
                best == floors[pos],
                best_dist == distance(best, self.floor_on),
            decreases n - i,
        {
            let dest: usize = self.people[i].floor_to;
            let dist: usize = floors_between(dest, self.floor_on);
            proof {
                let upto = floors.take(i + 1);
                assert(upto.drop_last() == floors.take(i as int));
                assert(upto.last() == dest);
                assert(upto[pos] == floors[pos]);
            }
            if dist < best_dist {
                best = dest;
                best_dist = dist;
                proof {
                    pos = i as int;
                }
            }
            i = i + 1;
        }
        proof {
            assert(floors.take(i as int) == floors);
            lemma_nearest_pos(floors, self.floor_on);
        }
        (best, best_dist)
    }

    /// While the elevator is stopped, removes everyone whose destination is
    /// the floor it is on, and returns them; while it is moving, nobody
    /// leaves.
    pub fn flush_people_leaving_elevator(&mut self) -> (leaving: Vec<Person>)
        ensures
            old(self).stopped ==> leaving@ == taken(old(self).people@, Pick::Arrived, old(self).people@.len())
                && final(self).people@ == kept(old(self).people@, Pick::Arrived, old(self).people@.len()),
            !old(self).stopped ==> leaving@.len() == 0 && final(self).people@ == old(self).people@,
            forall|i: int| 0 <= i < leaving@.len() ==> !(#[trigger] leaving@[i]).is_waiting(),
            old(self).stopped ==> forall|i: int|
                0 <= i < final(self).people@.len() ==> (#[trigger] final(self).people@[i]).is_waiting(),
            leaving@.len() + final(self).people@.len() == old(self).people@.len(),
            final(self).floor_on == old(self).floor_on,
            final(self).moving_up == old(self).moving_up,
            final(self).stopped == old(self).stopped,
            final(self).capacity == old(self).capacity,
            final(self).energy_up == old(self).energy_up,
            final(self).energy_down == old(self).energy_down,
            final(self).energy_coef == old(self).energy_coef,
            old(self).wf() ==> final(self).wf() && all_wf(leaving@) && all_on(leaving@, old(self).floor_on),
    {
        if !self.stopped {
            return Vec::new();
        }
        let n: usize = self.people.len();
        proof {
            lemma_split_sizes(old(self).people@, Pick::Arrived, n as nat);
            lemma_split_all(old(self).people@, Pick::Arrived, n as nat);
            if old(self).wf() {
                let floor = old(self).floor_on;
                lemma_split_preserves(
                    old(self).people@,
                    Pick::Arrived,
                    n as nat,
                    |p: Person| p.wf() && p.floor_on == floor,
                );
            }
        }
        take_up_to(&mut self.people, Pick::Arrived, n)
    }

    /// Lets `people` aboard, in order, until the elevator is full; those who
    /// do not fit are dropped.
    pub fn extend(&mut self, people: Vec<Person>)
        ensures
            final(self).people@ == admitted(old(self).people@, people@, old(self).capacity),
            final(self).floor_on == old(self).floor_on,
            final(self).moving_up == old(self).moving_up,
            final(self).stopped == old(self).stopped,
            final(self).capacity == old(self).capacity,
            final(self).energy_up == old(self).energy_up,
            final(self).energy_down == old(self).energy_down,
            final(self).energy_coef == old(self).energy_coef,
            old(self).wf() && all_wf(people@) && all_on(people@, old(self).floor_on) ==> final(self).wf(),
    {
        let mut i: usize = 0;
        assert(self.people@ == old(self).people@ + people@.take(0));
        while i < people.len() && self.people.len() < self.capacity
            invariant
                i <= people@.len(),
                self.floor_on == old(self).floor_on,
                self.moving_up == old(self).moving_up,
                self.stopped == old(self).stopped,
                self.capacity == old(self).capacity,
                self.energy_up == old(self).energy_up,
                self.energy_down == old(self).energy_down,
                self.energy_coef == old(self).energy_coef,
                self.people@ == old(self).people@ + people@.take(i as int),
                old(self).people@.len() <= self.capacity ==> self.people@.len() <= self.capacity,
                old(self).people@.len() > self.capacity ==> i == 0,
            decreases people@.len() - i,
        {
            self.people.push(people[i]);
            assert(people@.take(i + 1) == people@.take(i as int).push(people@[i as int]));
            i = i + 1;
        }
        assert(people@.take(people@.len() as int) == people@);
        proof {
            if old(self).wf() && all_wf(people@) && all_on(people@, old(self).floor_on) {
                assert forall|k: int| 0 <= k < self.people@.len() implies (#[trigger] self.people@[k]).wf()
                    && self.people@[k].floor_on == self.floor_on by {
                    if k < old(self).people@.len() {
                        assert(old(self).people@[k].wf());
                    } else {
                        assert(self.people@[k] == people@[k - old(self).people@.len()]);
                        assert(people@[k - old(self).people@.len()].wf());
                    }
                }
            }
        }
    }
}

impl People for Elevator {
    open spec fn people(&self) -> Seq<Person> {
        self.people@
    }

    fn gen_num_tips(&self, rng: &mut StdRng) -> (num_tips: usize) {
        self.people.gen_num_tips(rng)
    }

    fn get_dest_floors(&self) -> (floors: Vec<usize>) {
        self.people.get_dest_floors()
    }

    fn get_num_people(&self) -> (n: usize) {
        self.people.get_num_people()
    }

    fn get_num_people_waiting(&self) -> (n: usize) {
        self.people.get_num_people_waiting()
    }

    fn get_num_people_going_to_floor(&self, floor_to: usize) -> (n: usize) {
        self.people.get_num_people_going_to_floor(floor_to)
    }

    fn get_aggregate_wait_time(&self) -> (total: u128) {
        self.people.get_aggregate_wait_time()
    }

    fn are_people_going_to_floor(&self, floor_index: usize) -> (going: bool) {
        self.people.are_people_going_to_floor(floor_index)
    }

    fn are_people_waiting(&self) -> (waiting: bool) {
        self.people.are_people_waiting()
    }

    fn increment_wait_times(&mut self)
        ensures
            final(self).floor_on == old(self).floor_on,
            final(self).moving_up == old(self).moving_up,
            final(self).stopped == old(self).stopped,
            final(self).capacity == old(self).capacity,
            final(self).energy_up == old(self).energy_up,
            final(self).energy_down == old(self).energy_down,
            final(self).energy_coef == old(self).energy_coef,
    {
        self.people.increment_wait_times()
    }

    fn reset_wait_times(&mut self)
        ensures
            final(self).floor_on == old(self).floor_on,
            final(self).moving_up == old(self).moving_up,
            final(self).stopped == old(self).stopped,
            final(self).capacity == old(self).capacity,
            final(self).energy_up == old(self).energy_up,
            final(self).energy_down == old(self).energy_down,
            final(self).energy_coef == old(self).energy_coef,
    {
        self.people.reset_wait_times()
    }
}

} // verus!
