//! Where an elevator should go next, and sending it there.

use crate::building::{Building, BuildingView};
use crate::floors::{lemma_wait_floors, nearest_wait, wait_floors, Floors};
use crate::nearest::{lemma_nearest_pos, nearest_pos};
use crate::people::{all_within, any_going_to, any_waiting, dest_floors, People};
use vstd::prelude::*;

verus! {

impl BuildingView {
    /// Where the stopped elevator `i` should go: to the nearest destination
    /// of the people aboard, if there is one elsewhere; else to the nearest
    /// floor where someone waits, if there is one elsewhere; else nowhere.
    pub open spec fn idle_target(self, i: int) -> usize {
        let e = self.elevators[i];
        let dest = e.nearest_dest();
        let wait = nearest_wait(self.floors, e.floor_on);
        if dest.1 != 0 {
            dest.0
        } else if wait.1 != 0 {
            wait.0
        } else {
            e.floor_on
        }
    }

    /// Where elevator `i` should go when it is free to choose: a stopped
    /// elevator as [`Self::idle_target`] says, a moving one nowhere.
    pub open spec fn rational_target(self, i: int) -> usize {
        let e = self.elevators[i];
        if e.stopped {
            self.idle_target(i)
        } else {
            e.floor_on
        }
    }

    /// Whether the moving elevator `i` has to stop where it is: at the top
    /// going up, at the bottom going down, where someone aboard wants to get
    /// off, and where someone waits.
    pub open spec fn must_stop(self, i: int) -> bool {
        let e = self.elevators[i];
        ||| !e.moving_up && e.floor_on == 0
        ||| e.moving_up && e.floor_on == self.floors.len() - 1
        ||| any_going_to(e.people, e.floor_on)
        ||| any_waiting(self.floors[e.floor_on as int].people)
    }

    /// Where elevator `i` should go by the nearest-request rule: a stopped
    /// elevator as [`Self::idle_target`] says; a moving one stops where it
    /// has to, and else goes on to the next floor in its direction.
    pub open spec fn nearest_target(self, i: int) -> usize {
        let e = self.elevators[i];
        if e.stopped {
            self.idle_target(i)
        } else if self.must_stop(i) {
            e.floor_on
        } else {
            e.next_floor() as usize
        }
    }

    /// The target of every elevator by the nearest-request rule.
    pub open spec fn nearest_targets(self) -> Seq<usize> {
        Seq::new(self.elevators.len(), |i: int| self.nearest_target(i))
    }

    /// `targets` name a floor of the building for each elevator.
    pub open spec fn are_targets(self, targets: Seq<usize>) -> bool {
        &&& targets.len() == self.elevators.len()
        &&& forall|i: int| 0 <= i < targets.len() ==> #[trigger] targets[i] < self.floors.len()
    }

    /// The building after every elevator has been headed for its target and
    /// has taken one step. Floors and accounts stay as they were.
    pub open spec fn dispatched(self, targets: Seq<usize>) -> BuildingView {
        BuildingView {
            elevators: Seq::new(
                self.elevators.len(),
                |i: int| self.elevators[i].headed_for(targets[i]).stepped(),
            ),
            ..self
        }
    }

    /// `after` is the building after every elevator has been headed for some
    /// floor of the building and has taken one step.
    pub open spec fn redirected(self, after: BuildingView) -> bool {
        exists|targets: Seq<usize>| self.are_targets(targets) && #[trigger] self.dispatched(targets) == after
    }
}

/// The targets of both rules are floors of the building.
pub proof fn lemma_targets_exist(b: BuildingView, i: int)
    requires
        b.wf(),
        0 <= i < b.elevators.len(),
    ensures
        b.idle_target(i) < b.floors.len(),
        b.rational_target(i) < b.floors.len(),
        b.nearest_target(i) < b.floors.len(),
{
    let e = b.elevators[i];
    assert(e.wf());
    if e.people.len() > 0 {
        let floors = dest_floors(e.people);
        lemma_nearest_pos(floors, e.floor_on);
        let k = nearest_pos(floors, e.floor_on);
        assert(e.people[k].floor_to < b.floors.len());
    }
    if wait_floors(b.floors).len() > 0 {
        lemma_nearest_pos(wait_floors(b.floors), e.floor_on);
        lemma_wait_floors(b.floors);
    }
}

/// The nearest-request rule names a floor of the building for each elevator.
pub proof fn lemma_nearest_targets(b: BuildingView)
    requires
        b.wf(),
    ensures
        b.are_targets(b.nearest_targets()),
{
    assert forall|i: int| 0 <= i < b.nearest_targets().len() implies #[trigger] b.nearest_targets()[i]
        < b.floors.len() by {
        lemma_targets_exist(b, i);
    }
}

/// Dispatching leaves the building well formed: every elevator stays within
/// the building and takes everyone aboard along. Nobody's wait counter
/// changes, and nobody boards or gets off.
pub proof fn lemma_dispatched(b: BuildingView, targets: Seq<usize>)
    requires
        b.wf(),
        b.are_targets(targets),
    ensures
        b.dispatched(targets).wf(),
        b.has_headroom() ==> b.dispatched(targets).has_headroom(),
        forall|i: int|
            0 <= i < b.elevators.len() ==> (#[trigger] b.dispatched(targets).elevators[i]).people.len()
                == b.elevators[i].people.len(),
{
    let after = b.dispatched(targets);
    assert forall|i: int| 0 <= i < after.elevators.len() implies {
        &&& (#[trigger] after.elevators[i]).wf()
        &&& after.elevators[i].floor_on < after.floors.len()
        &&& all_within(after.elevators[i].people, after.floors.len())
        &&& after.elevators[i].people.len() == b.elevators[i].people.len()
        &&& forall|k: int|
            0 <= k < after.elevators[i].people.len() ==> (#[trigger] after.elevators[i].people[k]).wait_time
                == b.elevators[i].people[k].wait_time
    } by {
        let e = b.elevators[i];
        let t = targets[i];
        assert(t < b.floors.len());
        assert(e.wf());
        let headed = e.headed_for(t);
        let moved = headed.stepped();
        assert(after.elevators[i] == moved);
        assert forall|k: int| 0 <= k < moved.people.len() implies (#[trigger] moved.people[k]).wf()
            && moved.people[k].floor_on == moved.floor_on && moved.people[k].floor_to < b.floors.len()
            && moved.people[k].wait_time == e.people[k].wait_time by {
            assert(e.people[k].wf());
        }
    }
    if b.has_headroom() {
        assert forall|j: int, k: int|
            0 <= j < after.elevators.len() && 0 <= k < after.elevators[j].people.len() implies (
        #[trigger] after.elevators[j].people[k]).wait_time < usize::MAX by {
            assert(after.elevators[j].wf());
            assert(b.elevators[j].people[k].wait_time < usize::MAX);
        }
    }
}

impl Building {
    /// Where the stopped elevator `i` should go: see
    /// [`BuildingView::idle_target`].
    pub fn idle_target(&self, i: usize) -> (target: usize)
        requires
            self.wf(),
            i < self.elevators@.len(),
        ensures
            target == self@.idle_target(i as int),
            target < self.floors@.len(),
    {
        proof {
            lemma_targets_exist(self@, i as int);
        }
        let found: (usize, usize) = self.elevators[i].get_nearest_dest_floor();
        if found.1 != 0 {
            return found.0;
        }
        let waiting: (usize, usize) = self.floors.get_nearest_wait_floor(self.elevators[i].floor_on);
        if waiting.1 != 0 {
            return waiting.0;
        }
        self.elevators[i].floor_on
    }

    /// Where elevator `i` should go when it is free to choose: see
    /// [`BuildingView::rational_target`].
    pub fn rational_target(&self, i: usize) -> (target: usize)
        requires
            self.wf(),
            i < self.elevators@.len(),
        ensures
            target == self@.rational_target(i as int),
            target < self.floors@.len(),
    {
        if self.elevators[i].stopped {
            self.idle_target(i)
        } else {
            assert(self@.elevators[i as int].floor_on < self@.floors.len());
            self.elevators[i].floor_on
        }
    }

    /// Where elevator `i` goes once the draws are made: where it would best
    /// go if the draw for deciding well came out `rational`, else to the
    /// floor `drawn`.
    pub fn target_after_draw(&self, i: usize, rational: bool, drawn: Option<usize>) -> (target: usize)
        requires
            self.wf(),
            i < self.elevators@.len(),
            !rational ==> (drawn matches Some(floor) && floor < self.floors@.len()),
        ensures
            target == (if rational {
                self@.rational_target(i as int)
            } else {
                drawn->0
            }),
            target < self.floors@.len(),
    {
        if rational {
            self.rational_target(i)
        } else {
            drawn.unwrap()
        }
    }

    /// Where elevator `i` should go by the nearest-request rule: see
    /// [`BuildingView::nearest_target`].
    pub fn nearest_target(&self, i: usize) -> (target: usize)
        requires
            self.wf(),
            i < self.elevators@.len(),
        ensures
            target == self@.nearest_target(i as int),
            target < self.floors@.len(),
    {
        proof {
            lemma_targets_exist(self@, i as int);
        }
        assert(self@.elevators[i as int].floor_on < self@.floors.len());
        if self.elevators[i].stopped {
            return self.idle_target(i);
        }
        let floor_on: usize = self.elevators[i].floor_on;
        if !self.elevators[i].moving_up && floor_on == 0 {
            return floor_on;
        }
        if self.elevators[i].moving_up && floor_on == self.floors.len() - 1 {
            return floor_on;
        }
        if self.elevators[i].are_people_going_to_floor(floor_on) {
            return floor_on;
        }
        if self.floors.are_people_waiting_on_floor(floor_on) {
            return floor_on;
        }
        if self.elevators[i].moving_up {
            floor_on + 1
        } else {
            floor_on - 1
        }
    }

    /// Heads every elevator for its target and lets it take one step.
    pub fn dispatch(&mut self, targets: &Vec<usize>)
        requires
            old(self).wf(),
            old(self)@.are_targets(targets@),
        ensures
            final(self)@ == old(self)@.dispatched(targets@),
            final(self).wf(),
    {
        let n: usize = self.elevators.len();
        let mut i: usize = 0;
        while i < n
            invariant
                i <= n,
                n == old(self).elevators@.len(),
                n == self.elevators@.len(),
                old(self).wf(),
                old(self)@.are_targets(targets@),
                self.floors == old(self).floors,
                self.energy_total == old(self).energy_total,
                self.energy_ticks == old(self).energy_ticks,
                self.wait_time_total == old(self).wait_time_total,
                self.wait_time_denom == old(self).wait_time_denom,
                self.tot_tips == old(self).tot_tips,
                self.p_in == old(self).p_in,
                forall|k: int|
                    0 <= k < i ==> (#[trigger] self.elevators@[k])@ == old(self).elevators@[k]@.headed_for(
                        targets@[k],
                    ).stepped(),
                forall|k: int| i <= k < n ==> self.elevators@[k] == #[trigger] old(self).elevators@[k],
            decreases n - i,
        {
            let ghost e = old(self)@.elevators[i as int];
            assert(e.floor_on < old(self)@.floors.len());
            assert(targets@[i as int] < old(self)@.floors.len());
            self.elevators[i].update_direction(targets[i]);
            let _floor: usize = self.elevators[i].update_floor();
            i = i + 1;
        }
        proof {
            assert(self@.elevators =~= old(self)@.dispatched(targets@).elevators);
            lemma_dispatched(old(self)@, targets@);
        }
    }
}

} // verus!
