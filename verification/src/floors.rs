//! The floors of a building as a whole.

use crate::elevator::all_on;
use crate::floor::{leave_drawn, Floor, FloorView};
use crate::nearest::{distance, floors_between, is_nearest, lemma_nearest_pos, nearest_pos};
use crate::people::{all_wf, any_waiting, can_tick, kept, lemma_split_preserves, taken, ticked, People, Pick};
use crate::person::Person;
use rand::rngs::StdRng;
use vstd::prelude::*;

verus! {

/// The floors `fs` as plain values.
pub open spec fn floor_views(fs: Seq<Floor>) -> Seq<FloorView> {
    Seq::new(fs.len(), |i: int| fs[i]@)
}

/// Every floor of `fs` is well formed, and everyone on a floor knows which
/// floor it is.
pub open spec fn floors_wf(fs: Seq<FloorView>) -> bool {
    forall|i: int| 0 <= i < fs.len() ==> (#[trigger] fs[i]).wf() && all_on(fs[i].people, i as usize)
}

/// Everyone on every floor of `fs` is well formed.
pub open spec fn floors_people_wf(fs: Seq<FloorView>) -> bool {
    forall|i: int| 0 <= i < fs.len() ==> all_wf((#[trigger] fs[i]).people)
}

/// Everyone on every floor of `fs` who is kept from their destination can
/// count one more tick.
pub open spec fn floors_can_tick(fs: Seq<FloorView>) -> bool {
    forall|i: int| 0 <= i < fs.len() ==> can_tick((#[trigger] fs[i]).people)
}

/// The numbers of the floors of `fs` on which someone is kept from their
/// destination, in ascending order.
pub open spec fn wait_floors(fs: Seq<FloorView>) -> Seq<usize>
    decreases fs.len(),
{
    if fs.len() == 0 {
        Seq::empty()
    } else if any_waiting(fs.last().people) {
        wait_floors(fs.drop_last()).push((fs.len() - 1) as usize)
    } else {
        wait_floors(fs.drop_last())
    }
}

/// The floor of `fs` with someone waiting that is nearest to `at`, and how
/// far it is; among floors equally near, the lower one. `(0, 0)` if nobody
/// waits anywhere.
pub open spec fn nearest_wait(fs: Seq<FloorView>, at: usize) -> (usize, usize) {
    let floors = wait_floors(fs);
    if floors.len() == 0 {
        (0, 0)
    } else {
        let k = nearest_pos(floors, at);
        (floors[k], distance(floors[k], at) as usize)
    }
}

/// `fs` one tick later: on every floor, everyone kept from their destination
/// has waited one tick longer, and nothing else has changed.
pub open spec fn ticked_floors(fs: Seq<FloorView>) -> Seq<FloorView> {
    Seq::new(fs.len(), |i: int| FloorView { people: ticked(fs[i].people), ..fs[i] })
}

/// `after` is `before` once everyone at rest, on every floor, has had a
/// leave draw: see [`leave_drawn`]. Capacities and scores stay as they were.
pub open spec fn floors_leave_drawn(before: Seq<FloorView>, after: Seq<FloorView>) -> bool {
    &&& after.len() == before.len()
    &&& forall|i: int|
        0 <= i < before.len() ==> {
            &&& leave_drawn(before[i].people, (#[trigger] after[i]).people)
            &&& after[i].capacity == before[i].capacity
            &&& after[i].dest_prob == before[i].dest_prob
        }
}

/// Whether every floor of `fs` holds at most `capacity` people.
pub open spec fn fits_all_floors(fs: Seq<FloorView>, capacity: usize) -> bool {
    forall|i: int| 0 <= i < fs.len() ==> (#[trigger] fs[i]).people.len() <= capacity
}

/// `fs` after a request to set every capacity to `capacity`: granted on every
/// floor if every floor holds at most that many people, else refused on
/// every floor. The people and the scores stay as they were.
pub open spec fn recapped_floors(fs: Seq<FloorView>, capacity: usize) -> Seq<FloorView> {
    if fits_all_floors(fs, capacity) {
        Seq::new(fs.len(), |i: int| FloorView { capacity, ..fs[i] })
    } else {
        fs
    }
}

/// A capacity below the number of people on some floor is refused: every
/// floor keeps its capacity and its people.
pub proof fn lemma_recap_refused(fs: Seq<FloorView>, capacity: usize, i: int)
    requires
        0 <= i < fs.len(),
        fs[i].people.len() > capacity,
    ensures
        recapped_floors(fs, capacity) == fs,
{
}

/// A capacity that fits every floor is granted on every floor, and nobody is
/// moved.
pub proof fn lemma_recap_granted(fs: Seq<FloorView>, capacity: usize)
    requires
        fits_all_floors(fs, capacity),
    ensures
        recapped_floors(fs, capacity).len() == fs.len(),
        forall|i: int|
            0 <= i < fs.len() ==> {
                &&& (#[trigger] recapped_floors(fs, capacity)[i]).capacity == capacity
                &&& recapped_floors(fs, capacity)[i].people == fs[i].people
                &&& recapped_floors(fs, capacity)[i].dest_prob == fs[i].dest_prob
                &&& recapped_floors(fs, capacity)[i].people.len() <= capacity
            },
{
}

/// The floors with someone waiting are listed in ascending order, each is a
/// floor of the building with someone waiting on it, and none is left out.
pub proof fn lemma_wait_floors(fs: Seq<FloorView>)
    requires
        fs.len() <= usize::MAX,
    ensures
        forall|k: int|
            0 <= k < wait_floors(fs).len() ==> (#[trigger] wait_floors(fs)[k]) < fs.len() && any_waiting(
                fs[wait_floors(fs)[k] as int].people,
            ),
        forall|j: int, k: int|
            0 <= j < k < wait_floors(fs).len() ==> wait_floors(fs)[j] < wait_floors(fs)[k],
        forall|i: int|
            0 <= i < fs.len() && any_waiting((#[trigger] fs[i]).people) ==> wait_floors(fs).contains(
                i as usize,
            ),
        wait_floors(fs).len() <= fs.len(),
    decreases fs.len(),
{
    if fs.len() > 0 {
        let init = fs.drop_last();
        lemma_wait_floors(init);
        let w0 = wait_floors(init);
        let w = wait_floors(fs);
        let top = (fs.len() - 1) as usize;
        assert forall|k: int| 0 <= k < w.len() implies (#[trigger] w[k]) < fs.len() && any_waiting(
            fs[w[k] as int].people,
        ) by {
            if k < w0.len() {
                assert(w[k] == w0[k]);
                assert(init[w0[k] as int] == fs[w0[k] as int]);
            }
        }
        assert forall|j: int, k: int| 0 <= j < k < w.len() implies w[j] < w[k] by {
            assert(w[j] == w0[j]);
            if k < w0.len() {
                assert(w[k] == w0[k]);
            }
        }
        assert forall|i: int| 0 <= i < fs.len() && any_waiting((#[trigger] fs[i]).people) implies w.contains(
            i as usize,
        ) by {
            if i < init.len() {
                assert(init[i] == fs[i]);
                let target = i as usize;
                let k = choose|k: int| 0 <= k < w0.len() && w0[k] == target;
                assert(w[k] == target);
            } else {
                assert(w[w.len() - 1] == top);
            }
        }
    }
}

/// The floors of a building, taken together. A vector of floors answers
/// these questions, and so does a building.
pub trait Floors {
    /// The floors, ground floor first.
    spec fn floors(&self) -> Seq<FloorView>;

    /// Whether anyone on floor `floor_index` is kept from their destination.
    fn are_people_waiting_on_floor(&self, floor_index: usize) -> (waiting: bool)
        requires
            floor_index < self.floors().len(),
        ensures
            waiting == any_waiting(self.floors()[floor_index as int].people),
    ;

    /// The floor with someone waiting that is nearest to `floor_on`, and how
    /// far it is; among floors equally near, the lower one. `(0, 0)` if
    /// nobody waits anywhere.
    fn get_nearest_wait_floor(&self, floor_on: usize) -> (found: (usize, usize))
        ensures
            found == nearest_wait(self.floors(), floor_on),
            wait_floors(self.floors()).len() == 0 ==> found == (0usize, 0usize),
            wait_floors(self.floors()).len() > 0 ==> {
                let floors = wait_floors(self.floors());
                let k = nearest_pos(floors, floor_on);
                &&& is_nearest(floors, floor_on, k)
                &&& found.0 == floors[k]
                &&& found.1 == distance(found.0, floor_on)
                &&& found.0 < self.floors().len()
            },
    ;

    /// The score of each floor, ground floor first.
    fn get_dest_probabilities(&self) -> (scores: Vec<u128>)
        ensures
            scores@.len() == self.floors().len(),
            forall|i: int| 0 <= i < scores@.len() ==> scores@[i] == (#[trigger] self.floors()[i]).dest_prob,
    ;

    /// Draws the leave event of everyone at rest, floor by floor.
    fn gen_people_leaving(&mut self, rng: &mut StdRng)
        requires
            floors_people_wf(old(self).floors()),
        ensures
            floors_leave_drawn(old(self).floors(), final(self).floors()),
            floors_people_wf(final(self).floors()),
    ;

    /// Removes from the ground floor everyone who is on their way out of the
    /// building, and returns them. The other floors stay as they were.
    fn flush_first_floor(&mut self) -> (leaving: Vec<Person>)
        requires
            old(self).floors().len() > 0,
        ensures
            leaving@ == taken(
                old(self).floors()[0].people,
                Pick::Leaving,
                old(self).floors()[0].people.len(),
            ),
            final(self).floors() == old(self).floors().update(
                0,
                FloorView {
                    people: kept(
                        old(self).floors()[0].people,
                        Pick::Leaving,
                        old(self).floors()[0].people.len(),
                    ),
                    ..old(self).floors()[0]
                },
            ),
            forall|i: int| 0 <= i < leaving@.len() ==> (#[trigger] leaving@[i]).is_leaving,
            forall|i: int|
                0 <= i < final(self).floors()[0].people.len() ==> !(
                #[trigger] final(self).floors()[0].people[i]).is_leaving,
            floors_wf(old(self).floors()) ==> floors_wf(final(self).floors()) && all_wf(leaving@),
    ;

    /// Everyone kept from their destination can count one more tick.
    spec fn ready_to_tick(&self) -> bool;

    /// One tick passes on every floor.
    fn increment_wait_times(&mut self)
        requires
            old(self).ready_to_tick(),
        ensures
            final(self).floors() == ticked_floors(old(self).floors()),
    ;

    /// Adds an empty floor on top.
    fn append_floor(&mut self, capacity: usize)
        ensures
            final(self).floors() == old(self).floors().push(
                FloorView { people: Seq::empty(), capacity, dest_prob: 0 },
            ),
    ;

    /// Sets the capacity of every floor to `capacity`, unless some floor
    /// holds more people than that: then no capacity changes. Nobody is
    /// moved either way.
    fn update_capacities(&mut self, capacity: usize)
        ensures
            final(self).floors() == recapped_floors(old(self).floors(), capacity),
    ;
}

impl Floors for Vec<Floor> {
    open spec fn floors(&self) -> Seq<FloorView> {
        floor_views(self@)
    }

    open spec fn ready_to_tick(&self) -> bool {
        floors_can_tick(floor_views(self@))
    }

    fn are_people_waiting_on_floor(&self, floor_index: usize) -> (waiting: bool) {
        self[floor_index].are_people_waiting()
    }

    fn get_nearest_wait_floor(&self, floor_on: usize) -> (found: (usize, usize)) {
        let n: usize = self.len();
        let ghost views = floor_views(self@);
        let mut best: usize = 0;
        let mut best_dist: usize = 0;
        let mut any: bool = false;
        let ghost mut pos: int = 0;
        let mut i: usize = 0;
        while i < n
            invariant
                i <= n,
                n == self@.len(),
                views == floor_views(self@),
                any == (wait_floors(views.take(i as int)).len() > 0),
                !any ==> best == 0 && best_dist == 0,
                any ==> {
                    &&& pos == nearest_pos(wait_floors(views.take(i as int)), floor_on)
                    &&& 0 <= pos < wait_floors(views.take(i as int)).len()
                    &&& best == wait_floors(views.take(i as int))[pos]
                    &&& best_dist == distance(best, floor_on)
                },
            decreases n - i,
        {
            let ghost before = wait_floors(views.take(i as int));
            proof {
                let upto = views.take(i + 1);
                assert(upto.drop_last() == views.take(i as int));
                assert(upto.last() == self@[i as int]@);
            }
            if self[i].are_people_waiting() {
                let dist: usize = floors_between(i, floor_on);
                proof {
                    let now = wait_floors(views.take(i + 1));
                    assert(now == before.push(i));
                    assert(now.drop_last() == before);
                    assert(now.last() == i);
                    if any {
                        assert(now[pos] == before[pos]);
                    }
                }
                if !any || dist < best_dist {
                    best = i;
                    best_dist = dist;
                    proof {
                        pos = before.len() as int;
                    }
                }
                any = true;
            }
            i = i + 1;
        }
        proof {
            assert(views.take(i as int) == views);
            if any {
                lemma_nearest_pos(wait_floors(views), floor_on);
                lemma_wait_floors(views);
            }
        }
        (best, best_dist)
    }

    fn get_dest_probabilities(&self) -> (scores: Vec<u128>) {
        let mut scores: Vec<u128> = Vec::new();
        let mut i: usize = 0;
        while i < self.len()
            invariant
                i <= self@.len(),
                scores@.len() == i,
                forall|k: int| 0 <= k < i ==> scores@[k] == (#[trigger] self@[k]).dest_prob,
            decreases self@.len() - i,
        {
            scores.push(self[i].dest_prob);
            i = i + 1;
        }
        scores
    }

    fn gen_people_leaving(&mut self, rng: &mut StdRng) {
        let mut i: usize = 0;
        while i < self.len()
            invariant
                i <= self@.len(),
                self@.len() == old(self)@.len(),
                floors_people_wf(floor_views(old(self)@)),
                floors_people_wf(floor_views(self@)),
                forall|k: int|
                    0 <= k < i ==> {
                        &&& leave_drawn(old(self)@[k].people@, (#[trigger] self@[k]).people@)
                        &&& self@[k].capacity == old(self)@[k].capacity
                        &&& self@[k].dest_prob == old(self)@[k].dest_prob
                    },
                forall|k: int| i <= k < self@.len() ==> self@[k] == #[trigger] old(self)@[k],
            decreases self@.len() - i,
        {
            let ghost before = self@;
            assert(all_wf(floor_views(before)[i as int].people));
            self[i].gen_people_leaving(rng);
            proof {
                assert forall|k: int| 0 <= k < self@.len() implies all_wf(
                    (#[trigger] floor_views(self@)[k]).people,
                ) by {
                    if k != i {
                        assert(self@[k] == before[k]);
                        assert(all_wf(floor_views(before)[k].people));
                    }
                }
            }
            i = i + 1;
        }
        proof {
            let a = floor_views(old(self)@);
            let b = floor_views(self@);
            assert forall|k: int| 0 <= k < a.len() implies {
                &&& leave_drawn(a[k].people, (#[trigger] b[k]).people)
                &&& b[k].capacity == a[k].capacity
                &&& b[k].dest_prob == a[k].dest_prob
            } by {
                assert(leave_drawn(old(self)@[k].people@, self@[k].people@));
            }
        }
    }

    fn flush_first_floor(&mut self) -> (leaving: Vec<Person>) {
        let leaving: Vec<Person> = self[0].flush_people_leaving_floor();
        proof {
            let a = floor_views(old(self)@);
            let b = floor_views(self@);
            let n = a[0].people.len();
            assert(b =~= a.update(0, FloorView { people: kept(a[0].people, Pick::Leaving, n), ..a[0] }));
            if floors_wf(a) {
                assert(a[0].wf());
                assert(old(self)@[0].wf());
                lemma_split_preserves(a[0].people, Pick::Leaving, n, |p: Person| p.floor_on == 0);
                assert forall|i: int| 0 <= i < b.len() implies (#[trigger] b[i]).wf() && all_on(
                    b[i].people,
                    i as usize,
                ) by {
                    if i > 0 {
                        assert(b[i] == a[i]);
                    }
                }
            }
        }
        leaving
    }

    fn increment_wait_times(&mut self) {
        let mut i: usize = 0;
        while i < self.len()
            invariant
                i <= self@.len(),
                self@.len() == old(self)@.len(),
                floors_can_tick(floor_views(old(self)@)),
                forall|k: int|
                    0 <= k < i ==> (#[trigger] self@[k])@ == (FloorView {
                        people: ticked(old(self)@[k].people@),
                        ..old(self)@[k]@
                    }),
                forall|k: int| i <= k < self@.len() ==> self@[k] == #[trigger] old(self)@[k],
            decreases self@.len() - i,
        {
            assert(can_tick(floor_views(old(self)@)[i as int].people));
            self[i].increment_wait_times();
            i = i + 1;
        }
        assert(floor_views(self@) =~= ticked_floors(floor_views(old(self)@)));
    }

    fn append_floor(&mut self, capacity: usize) {
        self.push(Floor::new(capacity));
        assert(floor_views(self@) =~= floor_views(old(self)@).push(
            FloorView { people: Seq::empty(), capacity, dest_prob: 0 },
        ));
    }

    fn update_capacities(&mut self, capacity: usize) {
        let ghost views = floor_views(self@);
        let mut fits: bool = true;
        let mut i: usize = 0;
        while i < self.len()
            invariant
                i <= self@.len(),
                self@ == old(self)@,
                views == floor_views(self@),
                fits == fits_all_floors(views.take(i as int), capacity),
            decreases self@.len() - i,
        {
            proof {
                let before = views.take(i as int);
                let upto = views.take(i + 1);
                if fits_all_floors(before, capacity) && self@[i as int].people@.len() <= capacity {
                    assert forall|k: int| 0 <= k < upto.len() implies (#[trigger] upto[k]).people.len()
                        <= capacity by {
                        if k < i {
                            assert(before[k] == upto[k]);
                        }
                    }
                } else if !fits_all_floors(before, capacity) {
                    let k = choose|k: int| 0 <= k < before.len() && !((#[trigger] before[k]).people.len() <= capacity);
                    assert(upto[k] == before[k]);
                } else {
                    assert(upto[i as int] == self@[i as int]@);
                }
            }
            if capacity < self[i].get_num_people() {
                fits = false;
            }
            i = i + 1;
        }
        assert(views.take(i as int) == views);
        if fits {
            let mut j: usize = 0;
            while j < self.len()
                invariant
                    j <= self@.len(),
                    self@.len() == old(self)@.len(),
                    forall|k: int|
                        0 <= k < j ==> (#[trigger] self@[k])@ == (FloorView { capacity, ..old(self)@[k]@ }),
                    forall|k: int| j <= k < self@.len() ==> self@[k] == #[trigger] old(self)@[k],
                decreases self@.len() - j,
            {
                self[j].capacity = capacity;
                j = j + 1;
            }
            assert(floor_views(self@) =~= recapped_floors(views, capacity));
        }
    }
}

} // verus!
