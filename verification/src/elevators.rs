//! The elevators of a building as a whole.

use crate::elevator::{Elevator, ElevatorView};
use crate::people::{any_going_to, can_tick, dest_floors, ticked, People};
use vstd::prelude::*;

verus! {

/// The elevators `es` as plain values.
pub open spec fn elevator_views(es: Seq<Elevator>) -> Seq<ElevatorView> {
    Seq::new(es.len(), |i: int| es[i]@)
}

/// The most that one elevator can spend in one tick: the largest cost of a
/// direction plus the largest per-passenger cost for the most passengers a
/// vector can hold.
pub open spec fn energy_limit() -> int {
    0xffff_ffffint + 0xffff_ffffint * 0xffff_ffff_ffff_ffffint
}

/// `acc` followed by those floors of `more` that are not listed yet, each
/// once, in the order in which they first occur.
pub open spec fn merge_distinct(acc: Seq<usize>, more: Seq<usize>) -> Seq<usize>
    decreases more.len(),
{
    if more.len() == 0 {
        acc
    } else {
        let merged = merge_distinct(acc, more.drop_last());
        if merged.contains(more.last()) {
            merged
        } else {
            merged.push(more.last())
        }
    }
}

/// The floors that someone aboard some elevator of `es` is bound for, each
/// once, in the order in which they are first met going through the
/// elevators and, within one, through its passengers.
pub open spec fn all_dests(es: Seq<ElevatorView>) -> Seq<usize>
    decreases es.len(),
{
    if es.len() == 0 {
        Seq::empty()
    } else {
        merge_distinct(all_dests(es.drop_last()), dest_floors(es.last().people))
    }
}

/// Whether someone aboard some elevator of `es` is bound for `floor`.
pub open spec fn any_headed_to(es: Seq<ElevatorView>, floor: usize) -> bool {
    exists|i: int| 0 <= i < es.len() && any_going_to((#[trigger] es[i]).people, floor)
}

/// What the elevators of `es` spend in one tick, added up.
pub open spec fn total_energy(es: Seq<ElevatorView>) -> int
    decreases es.len(),
{
    if es.len() == 0 {
        0
    } else {
        total_energy(es.drop_last()) + es.last().energy()
    }
}

/// Every elevator of `es` can take its next step.
pub open spec fn all_can_move(es: Seq<ElevatorView>) -> bool {
    forall|i: int| 0 <= i < es.len() ==> (#[trigger] es[i]).can_move()
}

/// Everyone aboard every elevator of `es` who is kept from their destination
/// can count one more tick.
pub open spec fn elevators_can_tick(es: Seq<ElevatorView>) -> bool {
    forall|i: int| 0 <= i < es.len() ==> can_tick((#[trigger] es[i]).people)
}

/// `es` with every elevator one step on: see [`ElevatorView::stepped`].
pub open spec fn stepped_elevators(es: Seq<ElevatorView>) -> Seq<ElevatorView> {
    Seq::new(es.len(), |i: int| es[i].stepped())
}

/// `es` one tick later: aboard every elevator, everyone kept from their
/// destination has waited one tick longer, and nothing else has changed.
pub open spec fn ticked_elevators(es: Seq<ElevatorView>) -> Seq<ElevatorView> {
    Seq::new(es.len(), |i: int| ElevatorView { people: ticked(es[i].people), ..es[i] })
}

/// Whether every elevator of `es` holds at most `capacity` people.
pub open spec fn fits_all_elevators(es: Seq<ElevatorView>, capacity: usize) -> bool {
    forall|i: int| 0 <= i < es.len() ==> (#[trigger] es[i]).people.len() <= capacity
}

/// `es` after a request to set every capacity to `capacity`: granted on
/// every elevator if every elevator holds at most that many people, else
/// refused on every elevator. Nothing else changes.
pub open spec fn recapped_elevators(es: Seq<ElevatorView>, capacity: usize) -> Seq<ElevatorView> {
    if fits_all_elevators(es, capacity) {
        Seq::new(es.len(), |i: int| ElevatorView { capacity, ..es[i] })
    } else {
        es
    }
}

/// A capacity below the number of people aboard some elevator is refused:
/// every elevator keeps its capacity and its people.
pub proof fn lemma_recap_refused(es: Seq<ElevatorView>, capacity: usize, i: int)
    requires
        0 <= i < es.len(),
        es[i].people.len() > capacity,
    ensures
        recapped_elevators(es, capacity) == es,
{
}

/// A capacity that fits every elevator is granted on every elevator, and
/// nothing else changes.
pub proof fn lemma_recap_granted(es: Seq<ElevatorView>, capacity: usize)
    requires
        fits_all_elevators(es, capacity),
    ensures
        recapped_elevators(es, capacity).len() == es.len(),
        forall|i: int|
            0 <= i < es.len() ==> (#[trigger] recapped_elevators(es, capacity)[i]) == (ElevatorView {
                capacity,
                ..es[i]
            }),
{
}

/// Merging lists every floor of either list, and no other; and it lists no
/// floor twice if the first list did not.
pub proof fn lemma_merge_distinct(acc: Seq<usize>, more: Seq<usize>)
    ensures
        forall|x: usize| merge_distinct(acc, more).contains(x) <==> acc.contains(x) || more.contains(x),
        acc.no_duplicates() ==> merge_distinct(acc, more).no_duplicates(),
        acc.len() <= merge_distinct(acc, more).len(),
        forall|i: int| 0 <= i < acc.len() ==> merge_distinct(acc, more)[i] == acc[i],
    decreases more.len(),
{
    if more.len() > 0 {
        let init = more.drop_last();
        let last = more.last();
        lemma_merge_distinct(acc, init);
        let m0 = merge_distinct(acc, init);
        let m = merge_distinct(acc, more);
        assert forall|x: usize| m.contains(x) <==> acc.contains(x) || more.contains(x) by {
            if more.contains(x) {
                let j = choose|j: int| 0 <= j < more.len() && more[j] == x;
                if j < init.len() {
                    assert(init[j] == x);
                    assert(init.contains(x));
                    assert(m0.contains(x) <==> acc.contains(x) || init.contains(x));
                }
            }
            if init.contains(x) {
                let j = choose|j: int| 0 <= j < init.len() && init[j] == x;
                assert(more[j] == x);
            }
            assert(more[more.len() - 1] == last);
            if m0.contains(x) {
                let j = choose|j: int| 0 <= j < m0.len() && m0[j] == x;
                assert(m[j] == x);
            }
            if !m0.contains(last) {
                assert(m[m.len() - 1] == last);
                if m.contains(x) && x != last {
                    let j = choose|j: int| 0 <= j < m.len() && m[j] == x;
                    assert(m0[j] == x);
                }
            }
        }
    }
}

/// The list of destinations names exactly the floors that someone aboard
/// some elevator is bound for, and names none of them twice.
pub proof fn lemma_all_dests(es: Seq<ElevatorView>)
    ensures
        forall|x: usize| all_dests(es).contains(x) <==> any_headed_to(es, x),
        all_dests(es).no_duplicates(),
    decreases es.len(),
{
    if es.len() > 0 {
        let init = es.drop_last();
        let riders = es.last().people;
        lemma_all_dests(init);
        lemma_merge_distinct(all_dests(init), dest_floors(riders));
        assert forall|x: usize| all_dests(es).contains(x) <==> any_headed_to(es, x) by {
            if any_headed_to(init, x) {
                let i = choose|i: int| 0 <= i < init.len() && any_going_to((#[trigger] init[i]).people, x);
                assert(es[i] == init[i]);
            }
            if dest_floors(riders).contains(x) {
                let j = choose|j: int| 0 <= j < dest_floors(riders).len() && dest_floors(riders)[j] == x;
                assert(riders[j].floor_to == x);
                assert(any_going_to(es[es.len() - 1].people, x));
            }
            if any_headed_to(es, x) {
                let i = choose|i: int| 0 <= i < es.len() && any_going_to((#[trigger] es[i]).people, x);
                if i < init.len() {
                    assert(init[i] == es[i]);
                } else {
                    let j = choose|j: int| 0 <= j < riders.len() && (#[trigger] riders[j]).floor_to == x;
                    assert(dest_floors(riders)[j] == x);
                }
            }
        }
    } else {
        assert(all_dests(es).len() == 0);
    }
}

/// No elevator spends more in a tick than [`energy_limit`], so `n` of them
/// spend at most `n` times that.
pub proof fn lemma_total_energy_bound(es: Seq<ElevatorView>)
    requires
        fits_vectors(es),
    ensures
        0 <= total_energy(es) <= es.len() * energy_limit(),
    decreases es.len(),
{
    if es.len() > 0 {
        let init = es.drop_last();
        assert(fits_vectors(init)) by {
            assert forall|i: int| 0 <= i < init.len() implies (#[trigger] init[i]).people.len() <= usize::MAX by {
                assert(init[i] == es[i]);
            }
        }
        lemma_total_energy_bound(init);
        let e = es.last();
        let riders = e.people.len();
        assert(riders <= 0xffff_ffff_ffff_ffff);
        assert(0 <= e.energy_coef * riders <= 0xffff_ffff * 0xffff_ffff_ffff_ffff) by (nonlinear_arith)
            requires
                0 <= e.energy_coef <= 0xffff_ffff,
                0 <= riders <= 0xffff_ffff_ffff_ffff,
        ;
        assert((es.len() - 1) * energy_limit() + energy_limit() == es.len() * energy_limit()) by (nonlinear_arith);
    }
}

/// No elevator of `es` holds more people than a vector can.
pub open spec fn fits_vectors(es: Seq<ElevatorView>) -> bool {
    forall|i: int| 0 <= i < es.len() ==> (#[trigger] es[i]).people.len() <= usize::MAX
}

/// Whether `floors` lists `floor`.
pub fn lists_floor(floors: &Vec<usize>, floor: usize) -> (listed: bool)
    ensures
        listed == floors@.contains(floor),
{
    let mut i: usize = 0;
    while i < floors.len()
        invariant
            i <= floors@.len(),
            forall|k: int| 0 <= k < i ==> floors@[k] != floor,
        decreases floors@.len() - i,
    {
        if floors[i] == floor {
            return true;
        }
        i = i + 1;
    }
    false
}

/// The elevators of a building, taken together.
pub trait Elevators {
    /// The elevators, in order.
    spec fn elevators(&self) -> Seq<ElevatorView>;

    /// The floors that someone aboard some elevator is bound for, each once,
    /// in the order in which they are first met.
    fn get_dest_floors(&self) -> (floors: Vec<usize>)
        ensures
            floors@ == all_dests(self.elevators()),
            floors@.no_duplicates(),
            forall|x: usize| floors@.contains(x) <==> any_headed_to(self.elevators(), x),
    ;

    /// What the elevators spend this tick, added up.
    fn get_energy_spent(&self) -> (spent: u128)
        requires
            self.elevators().len() <= u32::MAX,
        ensures
            spent == total_energy(self.elevators()),
    ;

    /// Every elevator takes its next step.
    fn update_floors(&mut self)
        requires
            all_can_move(old(self).elevators()),
        ensures
            final(self).elevators() == stepped_elevators(old(self).elevators()),
    ;

    /// One tick passes aboard every elevator.
    fn increment_wait_times(&mut self)
        requires
            elevators_can_tick(old(self).elevators()),
        ensures
            final(self).elevators() == ticked_elevators(old(self).elevators()),
    ;

    /// Adds an empty elevator, stopped on the ground floor.
    fn append_elevator(&mut self, capacity: usize, energy_up: u32, energy_down: u32, energy_coef: u32)
        ensures
            final(self).elevators() == old(self).elevators().push(
                ElevatorView {
                    floor_on: 0,
                    moving_up: false,
                    stopped: true,
                    people: Seq::empty(),
                    capacity,
                    energy_up,
                    energy_down,
                    energy_coef,
                },
            ),
    ;

    /// Sets the capacity of every elevator to `capacity`, unless some
    /// elevator holds more people than that: then no capacity changes.
    /// Nobody is moved either way.
    fn update_capacities(&mut self, capacity: usize)
        ensures
            final(self).elevators() == recapped_elevators(old(self).elevators(), capacity),
    ;
}

impl Elevators for Vec<Elevator> {
    open spec fn elevators(&self) -> Seq<ElevatorView> {
        elevator_views(self@)
    }

    fn get_dest_floors(&self) -> (floors: Vec<usize>) {
        let ghost views = elevator_views(self@);
        let mut floors: Vec<usize> = Vec::new();
        let mut i: usize = 0;
        while i < self.len()
            invariant
                i <= self@.len(),
                views == elevator_views(self@),
                floors@ == all_dests(views.take(i as int)),
            decreases self@.len() - i,
        {
            let riding: Vec<usize> = self[i].get_dest_floors();
            let ghost start = floors@;
            proof {
                let upto = views.take(i + 1);
                assert(upto.drop_last() == views.take(i as int));
                assert(upto.last() == self@[i as int]@);
            }
            let mut j: usize = 0;
            while j < riding.len()
                invariant
                    j <= riding@.len(),
                    floors@ == merge_distinct(start, riding@.take(j as int)),
                decreases riding@.len() - j,
            {
                assert(riding@.take(j + 1).drop_last() == riding@.take(j as int));
                if !lists_floor(&floors, riding[j]) {
                    floors.push(riding[j]);
                }
                j = j + 1;
            }
            assert(riding@.take(j as int) == riding@);
            i = i + 1;
        }
        proof {
            assert(views.take(i as int) == views);
            lemma_all_dests(views);
        }
        floors
    }

    fn get_energy_spent(&self) -> (spent: u128) {
        let ghost views = elevator_views(self@);
        let mut spent: u128 = 0;
        let mut i: usize = 0;
        while i < self.len()
            invariant
                i <= self@.len(),
                self@.len() <= u32::MAX,
                views == elevator_views(self@),
                spent == total_energy(views.take(i as int)),
            decreases self@.len() - i,
        {
            let one: u128 = self[i].get_energy_spent();
            proof {
                let upto = views.take(i + 1);
                assert(upto.drop_last() == views.take(i as int));
                assert(upto.last() == self@[i as int]@);
                assert(fits_vectors(upto)) by {
                    assert forall|k: int| 0 <= k < upto.len() implies (#[trigger] upto[k]).people.len()
                        <= usize::MAX by {
                        assert(upto[k].people.len() == self@[k].people.len());
                    }
                }
                lemma_total_energy_bound(upto);
                assert((i + 1) * energy_limit() <= u128::MAX) by (nonlinear_arith)
                    requires
                        i + 1 <= 0xffff_ffff,
                        energy_limit() == 0xffff_ffff + 0xffff_ffff * 0xffff_ffff_ffff_ffff,
                ;
            }
            spent = spent + one;
            i = i + 1;
        }
        assert(views.take(i as int) == views);
        spent
    }

    fn update_floors(&mut self) {
        let mut i: usize = 0;
        while i < self.len()
            invariant
                i <= self@.len(),
                self@.len() == old(self)@.len(),
                all_can_move(elevator_views(old(self)@)),
                forall|k: int| 0 <= k < i ==> (#[trigger] self@[k])@ == old(self)@[k]@.stepped(),
                forall|k: int| i <= k < self@.len() ==> self@[k] == #[trigger] old(self)@[k],
            decreases self@.len() - i,
        {
            assert(elevator_views(old(self)@)[i as int].can_move());
            let _floor: usize = self[i].update_floor();
            i = i + 1;
        }
        assert(elevator_views(self@) =~= stepped_elevators(elevator_views(old(self)@)));
    }

    fn increment_wait_times(&mut self) {
        let mut i: usize = 0;
        while i < self.len()
            invariant
                i <= self@.len(),
                self@.len() == old(self)@.len(),
                elevators_can_tick(elevator_views(old(self)@)),
                forall|k: int|
                    0 <= k < i ==> (#[trigger] self@[k])@ == (ElevatorView {
                        people: ticked(old(self)@[k].people@),
                        ..old(self)@[k]@
                    }),
                forall|k: int| i <= k < self@.len() ==> self@[k] == #[trigger] old(self)@[k],
            decreases self@.len() - i,
        {
            assert(can_tick(elevator_views(old(self)@)[i as int].people));
            self[i].increment_wait_times();
            i = i + 1;
        }
        assert(elevator_views(self@) =~= ticked_elevators(elevator_views(old(self)@)));
    }

    fn append_elevator(&mut self, capacity: usize, energy_up: u32, energy_down: u32, energy_coef: u32) {
        self.push(Elevator::from(capacity, energy_up, energy_down, energy_coef));
        assert(elevator_views(self@) =~= elevator_views(old(self)@).push(
            ElevatorView {
                floor_on: 0,
                moving_up: false,
                stopped: true,
                people: Seq::empty(),
                capacity,
                energy_up,
                energy_down,
                energy_coef,
            },
        ));
    }

    fn update_capacities(&mut self, capacity: usize) {
        let ghost views = elevator_views(self@);
        let mut fits: bool = true;
        let mut i: usize = 0;
        while i < self.len()
            invariant
                i <= self@.len(),
                self@ == old(self)@,
                views == elevator_views(self@),
                fits == fits_all_elevators(views.take(i as int), capacity),
            decreases self@.len() - i,
        {
            proof {
                let before = views.take(i as int);
                let upto = views.take(i + 1);
                if fits_all_elevators(before, capacity) && self@[i as int].people@.len() <= capacity {
                    assert forall|k: int| 0 <= k < upto.len() implies (#[trigger] upto[k]).people.len()
                        <= capacity by {
                        if k < i {
                            assert(before[k] == upto[k]);
                        }
                    }
                } else if !fits_all_elevators(before, capacity) {
                    let k = choose|k: int| 0 <= k < before.len() && !((#[trigger] before[k]).people.len() <= capacity);
                    assert(upto[k] == before[k]);
                } else {
                    assert(upto[i as int] == self@[i as int]@);
                }
            }
            if capacity < self[i].get_num_people() {
                fits = false;
            }
            i = i + 1;
        }
        assert(views.take(i as int) == views);
        if fits {
            let mut j: usize = 0;
            while j < self.len()
                invariant
                    j <= self@.len(),
                    self@.len() == old(self)@.len(),
                    forall|k: int|
                        0 <= k < j ==> (#[trigger] self@[k])@ == (ElevatorView { capacity, ..old(self)@[k]@ }),
                    forall|k: int| j <= k < self@.len() ==> self@[k] == #[trigger] old(self)@[k],
                decreases self@.len() - j,
            {
                self[j].capacity = capacity;
                j = j + 1;
            }
            assert(elevator_views(self@) =~= recapped_elevators(views, capacity));
        }
    }
}

} // verus!
