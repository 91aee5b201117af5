//! A passenger.

use crate::chance::ONE;
use crate::random::{sample_below, sample_ratio};
use rand::rngs::StdRng;
use vstd::prelude::*;

verus! {

/// A passenger: where they are, where they want to be, how long they have
/// been kept from it, and how likely they are to leave and to tip.
#[derive(Clone, Copy, Debug)]
pub struct Person {
    pub floor_on: usize,
    pub floor_to: usize,
    pub is_leaving: bool,
    pub wait_time: usize,
    /// Chance, in millionths, of deciding to leave during one tick.
    pub p_out: u32,
    /// Chance, in millionths, of tipping on the way out.
    pub p_tip: u32,
}

impl Person {
    /// Both probabilities are at most one, and whoever is leaving is bound
    /// for the ground floor.
    pub open spec fn wf(self) -> bool {
        &&& self.p_out <= ONE
        &&& self.p_tip <= ONE
        &&& self.is_leaving ==> self.floor_to == 0
    }

    /// Not yet on the floor they want: waiting for, or riding, an elevator.
    pub open spec fn is_waiting(self) -> bool {
        self.floor_on != self.floor_to
    }

    /// The passenger as created on arrival with destination `floor_to`.
    pub open spec fn arrival(p_out: u32, p_tip: u32, floor_to: usize) -> Person {
        Person { floor_on: 0, floor_to, is_leaving: false, wait_time: 0, p_out, p_tip }
    }

    /// The passenger after the leave event came out as `leaves`: once leaving,
    /// always leaving; a fresh decision to leave redirects to the ground floor.
    pub open spec fn after_leave_draw(self, leaves: bool) -> Person {
        if !self.is_leaving && leaves {
            Person { floor_to: 0, is_leaving: true, ..self }
        } else {
            self
        }
    }

    /// The passenger carried to `floor`.
    pub open spec fn moved_to(self, floor: usize) -> Person {
        Person { floor_on: floor, ..self }
    }

    /// The passenger one tick later: the wait counter advances only while
    /// they are kept from their destination.
    pub open spec fn after_tick(self) -> Person {
        if self.is_waiting() {
            Person { wait_time: (self.wait_time + 1) as usize, ..self }
        } else {
            self
        }
    }

    /// The passenger on reaching their destination: the wait counter starts
    /// over.
    pub open spec fn after_arrival(self) -> Person {
        if self.is_waiting() {
            self
        } else {
            Person { wait_time: 0, ..self }
        }
    }

    /// Whether the passenger is well formed.
    pub fn is_wf(&self) -> (ok: bool)
        ensures
            ok == self.wf(),
    {
        self.p_out <= ONE && self.p_tip <= ONE && (!self.is_leaving || self.floor_to == 0)
    }

    /// A new passenger on the ground floor, bound for `floor_to`.
    pub fn arriving(p_out: u32, p_tip: u32, floor_to: usize) -> (person: Person)
        ensures
            person == Person::arrival(p_out, p_tip, floor_to),
            p_out <= ONE && p_tip <= ONE ==> person.wf(),
    {
        Person { floor_on: 0, floor_to, is_leaving: false, wait_time: 0, p_out, p_tip }
    }

    /// A new passenger on the ground floor, bound for a uniformly drawn floor
    /// of a building with `num_floors` floors.
    pub fn from(p_out: u32, p_tip: u32, num_floors: usize, rng: &mut StdRng) -> (person: Person)
        requires
            p_out <= ONE,
            p_tip <= ONE,
            0 < num_floors,
        ensures
            person.floor_to < num_floors,
            person == Person::arrival(p_out, p_tip, person.floor_to),
            person.wf(),
    {
        let floor_to: usize = sample_below(rng, num_floors);
        Person::arriving(p_out, p_tip, floor_to)
    }

    /// Applies the outcome of a leave draw and reports whether the passenger
    /// is leaving.
    pub fn apply_leave_draw(&mut self, leaves: bool) -> (leaving: bool)
        ensures
            *final(self) == old(self).after_leave_draw(leaves),
            leaving == (old(self).is_leaving || leaves),
            leaving == final(self).is_leaving,
            old(self).wf() ==> final(self).wf(),
    {
        if !self.is_leaving && leaves {
            self.floor_to = 0;
            self.is_leaving = true;
        }
        self.is_leaving
    }

    /// Draws the passenger's leave event, unless they are leaving already, and
    /// reports whether they are leaving. For a passenger who is leaving
    /// already nothing is drawn.
    pub fn gen_is_leaving(&mut self, rng: &mut StdRng) -> (leaving: bool)
        requires
            old(self).p_out <= ONE,
        ensures
            *final(self) == old(self).after_leave_draw(leaving),
            leaving == final(self).is_leaving,
            old(self).is_leaving ==> leaving,
            old(self).is_leaving ==> *final(rng) == *old(rng),
            !old(self).is_leaving && old(self).p_out == 0 ==> !leaving,
            old(self).p_out == ONE ==> leaving,
            old(self).wf() ==> final(self).wf(),
    {
        if self.is_leaving {
            return true;
        }
        let leaves: bool = sample_ratio(rng, self.p_out, ONE);
        self.apply_leave_draw(leaves)
    }

    /// Draws whether the passenger tips.
    pub fn gen_tip(&self, rng: &mut StdRng) -> (tips: bool)
        requires
            self.p_tip <= ONE,
        ensures
            self.p_tip == 0 ==> !tips,
            self.p_tip == ONE ==> tips,
    {
        sample_ratio(rng, self.p_tip, ONE)
    }

    /// One more tick spent away from the destination.
    pub fn increment_wait_time(&mut self)
        requires
            old(self).wait_time < usize::MAX,
        ensures
            *final(self) == (Person { wait_time: (old(self).wait_time + 1) as usize, ..*old(self) }),
    {
        self.wait_time = self.wait_time + 1;
    }

    /// The wait counter starts over.
    pub fn reset_wait_time(&mut self)
        ensures
            *final(self) == (Person { wait_time: 0, ..*old(self) }),
    {
        self.wait_time = 0;
    }
}

} // verus!
