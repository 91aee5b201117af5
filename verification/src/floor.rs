//! A floor of the building and the people on it.

use crate::chance::{
    all_chances, at_least_one, leave_chance, lemma_leave_chance_exact, lemma_order_does_not_matter, one_to,
    stay_exact, FINE, ONE,
};
use crate::people::{
    admitted, all_rested, all_wf, kept, lemma_split_all, lemma_split_preserves, lemma_split_sizes, take_up_to,
    taken, People, Pick,
};
use crate::person::Person;
use rand::rngs::StdRng;
use vstd::prelude::*;

verus! {

/// The leave chances of those of `s` who are at rest, that is, at their
/// destination, in order.
pub open spec fn resting_chances(s: Seq<Person>) -> Seq<u32>
    decreases s.len(),
{
    if s.len() == 0 {
        Seq::empty()
    } else if s.last().is_waiting() {
        resting_chances(s.drop_last())
    } else {
        resting_chances(s.drop_last()).push(s.last().p_out)
    }
}

/// The leave chances of well-formed passengers are chances.
pub proof fn lemma_resting_chances(s: Seq<Person>)
    requires
        all_wf(s),
    ensures
        all_chances(resting_chances(s)),
        resting_chances(s).len() <= s.len(),
    decreases s.len(),
{
    if s.len() > 0 {
        let init = s.drop_last();
        assert(all_wf(init)) by {
            assert forall|i: int| 0 <= i < init.len() implies (#[trigger] init[i]).wf() by {
                assert(init[i] == s[i]);
            }
        }
        lemma_resting_chances(init);
        assert(s.last().wf());
    }
}

/// The leave chance of a floor, against the exact value. The chance that
/// [`Floor::get_p_out`] returns lies between zero and one; it is never below
/// the exact chance that at least one person at rest decides to leave, one
/// minus the product of the chances that each one stays, and exceeds it by
/// less than one unit of [`FINE`], however many they are. On a floor where
/// nobody is at rest it is zero.
pub proof fn lemma_floor_leave_chance(s: Seq<Person>)
    requires
        all_wf(s),
    ensures
        ({
            let ps = resting_chances(s);
            let exact = (one_to(ps.len()) - stay_exact(ps)) * FINE;
            exact <= leave_chance(ps) * one_to(ps.len()) < exact + one_to(ps.len())
        }),
        0 <= leave_chance(resting_chances(s)) <= FINE,
        resting_chances(s).len() == 0 ==> leave_chance(resting_chances(s)) == 0,
{
    lemma_resting_chances(s);
    lemma_leave_chance_exact(resting_chances(s));
}

/// The leave chances at rest of two groups, one after the other, are those of
/// the first followed by those of the second.
pub proof fn lemma_resting_chances_concat(a: Seq<Person>, b: Seq<Person>)
    ensures
        resting_chances(a + b) == resting_chances(a) + resting_chances(b),
    decreases b.len(),
{
    if b.len() == 0 {
        assert(a + b == a);
        assert(resting_chances(a) + resting_chances(b) == resting_chances(a));
    } else {
        lemma_resting_chances_concat(a, b.drop_last());
        assert((a + b).drop_last() == a + b.drop_last());
        assert((a + b).last() == b.last());
        if !b.last().is_waiting() {
            assert((resting_chances(a) + resting_chances(b.drop_last())).push(b.last().p_out) == resting_chances(a)
                + resting_chances(b.drop_last()).push(b.last().p_out));
        }
    }
}

/// Those kept from their destination do not count: a floor without one of
/// them has the same leave chances at rest, and so the same leave chance.
pub proof fn lemma_waiting_do_not_count(s: Seq<Person>, i: int)
    requires
        0 <= i < s.len(),
        s[i].is_waiting(),
    ensures
        resting_chances(s.remove(i)) == resting_chances(s),
{
    let front = s.take(i);
    let one = seq![s[i]];
    let back = s.skip(i + 1);
    assert(s == (front + one) + back);
    assert(s.remove(i) == front + back);
    lemma_resting_chances_concat(front + one, back);
    lemma_resting_chances_concat(front, one);
    lemma_resting_chances_concat(front, back);
    assert(one.len() == 1);
    assert(one.last() == s[i]);
    assert(one.drop_last().len() == 0);
    assert(resting_chances(one.drop_last()).len() == 0);
    assert(one.last().is_waiting());
    assert(resting_chances(one) == resting_chances(one.drop_last()));
    assert(resting_chances(front) + resting_chances(one) == resting_chances(front));
}

/// The order of the people on a floor does not matter to its leave chance:
/// the same people in another order give the same chance.
pub proof fn lemma_floor_order_does_not_matter(s: Seq<Person>, t: Seq<Person>)
    requires
        s.to_multiset() == t.to_multiset(),
    ensures
        resting_chances(s).to_multiset() == resting_chances(t).to_multiset(),
        leave_chance(resting_chances(s)) == leave_chance(resting_chances(t)),
    decreases s.len(),
{
    broadcast use vstd::seq_lib::group_to_multiset_ensures;

    s.to_multiset_ensures();
    t.to_multiset_ensures();
    assert(s.len() == t.len());
    if s.len() == 0 {
        assert(resting_chances(s) == resting_chances(t));
    } else {
        let x = s.last();
        let init = s.drop_last();
        assert(s[s.len() - 1] == x);
        assert(s.contains(x));
        assert(t.to_multiset().count(x) > 0);
        assert(t.contains(x));
        let j = choose|j: int| 0 <= j < t.len() && t[j] == x;
        let front = t.take(j);
        let back = t.skip(j + 1);
        assert(init == s.remove(s.len() - 1));
        assert(init.to_multiset() == s.to_multiset().remove(x));
        assert(t.remove(j).to_multiset() == t.to_multiset().remove(x));
        lemma_floor_order_does_not_matter(init, t.remove(j));
        assert(t.remove(j) == front + back);
        assert(t == (front + seq![x]) + back);
        lemma_resting_chances_concat(front, back);
        lemma_resting_chances_concat(front + seq![x], back);
        lemma_resting_chances_concat(front, seq![x]);
        let rf = resting_chances(front);
        let rb = resting_chances(back);
        let one = seq![x];
        assert(one.len() == 1);
        assert(one.last() == x);
        assert(one.drop_last().len() == 0);
        assert(resting_chances(one.drop_last()).len() == 0);
        vstd::seq_lib::lemma_multiset_commutative(rf, rb);
        if x.is_waiting() {
            assert(resting_chances(one).len() == 0);
            assert(rf + resting_chances(one) == rf);
        } else {
            let p = x.p_out;
            assert(resting_chances(one) == seq![p]);
            assert(rf + seq![p] == rf.push(p));
            vstd::seq_lib::lemma_multiset_commutative(rf.push(p), rb);
            assert(resting_chances(t).to_multiset() == (rf + rb).to_multiset().insert(p));
        }
    }
    lemma_order_does_not_matter(resting_chances(s), resting_chances(t));
}

/// `after` is `before` once every passenger at rest has had a leave draw:
/// nobody comes or goes, those kept from their destination are as they were,
/// and each one at rest is what [`Person::after_leave_draw`] makes of them
/// for the outcome shown by their own flag. A leave chance of zero never
/// makes anyone leave, and a leave chance of one always does.
pub open spec fn leave_drawn(before: Seq<Person>, after: Seq<Person>) -> bool {
    &&& after.len() == before.len()
    &&& forall|i: int|
        0 <= i < before.len() ==> {
            let was = #[trigger] before[i];
            let now = after[i];
            if was.is_waiting() {
                now == was
            } else {
                &&& now == was.after_leave_draw(now.is_leaving)
                &&& !was.is_leaving && was.p_out == 0 ==> !now.is_leaving
                &&& was.p_out == ONE ==> now.is_leaving
            }
        }
}

/// A floor: the people on it in order of arrival, how many it can hold, and
/// an advisory score of how likely it is to need an elevator next tick.
#[derive(Debug)]
pub struct Floor {
    pub people: Vec<Person>,
    pub capacity: usize,
    /// In units of [`FINE`]; may exceed one on the ground floor when the
    /// arrival rate does.
    pub dest_prob: u128,
}

/// What a floor is, as plain values.
pub struct FloorView {
    pub people: Seq<Person>,
    pub capacity: usize,
    pub dest_prob: u128,
}

impl FloorView {
    /// The floor holds no more people than its capacity, each of them is
    /// well formed, and those at rest have no wait behind them.
    pub open spec fn wf(self) -> bool {
        &&& self.people.len() <= self.capacity
        &&& all_wf(self.people)
        &&& all_rested(self.people)
    }
}

impl View for Floor {
    type V = FloorView;

    open spec fn view(&self) -> FloorView {
        FloorView { people: self.people@, capacity: self.capacity, dest_prob: self.dest_prob }
    }
}

impl Clone for Floor {
    fn clone(&self) -> (copy: Self)
        ensures
            copy.people@ == self.people@,
            copy.capacity == self.capacity,
            copy.dest_prob == self.dest_prob,
    {
        Floor { people: self.people.clone(), capacity: self.capacity, dest_prob: self.dest_prob }
    }
}

impl Floor {
    /// See [`FloorView::wf`].
    pub open spec fn wf(&self) -> bool {
        self@.wf()
    }

    /// An empty floor with a score of zero.
    pub fn new(capacity: usize) -> (floor: Floor)
        ensures
            floor.people@ == Seq::<Person>::empty(),
            floor.capacity == capacity,
            floor.dest_prob == 0,
            floor.wf(),
    {
        Floor { people: Vec::new(), capacity, dest_prob: 0 }
    }

    /// How many more people the floor can hold.
    pub fn get_free_capacity(&self) -> (free: usize)
        requires
            self.people@.len() <= self.capacity,
        ensures
            free == self.capacity - self.people@.len(),
    {
        self.capacity - self.people.len()
    }

    /// The chance, in units of [`FINE`], that at least one person at rest on
    /// this floor decides to leave this tick; zero where nobody is at rest.
    pub fn get_p_out(&self) -> (chance: u64)
        requires
            all_wf(self.people@),
        ensures
            chance == leave_chance(resting_chances(self.people@)),
            chance <= FINE,
            self.people@.len() == 0 ==> chance == 0,
    {
        let mut chances: Vec<u32> = Vec::new();
        let mut i: usize = 0;
        while i < self.people.len()
            invariant
                i <= self.people@.len(),
                all_wf(self.people@),
                chances@ == resting_chances(self.people@.take(i as int)),
            decreases self.people@.len() - i,
        {
            let person: Person = self.people[i];
            assert(self.people@.take(i + 1).drop_last() == self.people@.take(i as int));
            if person.floor_on == person.floor_to {
                chances.push(person.p_out);
            }
            i = i + 1;
        }
        proof {
            assert(self.people@.take(i as int) == self.people@);
            lemma_resting_chances(self.people@);
        }
        at_least_one(&chances)
    }

    /// Draws the leave event of every person at rest on the floor.
    pub fn gen_people_leaving(&mut self, rng: &mut StdRng)
        requires
            all_wf(old(self).people@),
        ensures
            leave_drawn(old(self).people@, final(self).people@),
            final(self).capacity == old(self).capacity,
            final(self).dest_prob == old(self).dest_prob,
            all_wf(final(self).people@),
    {
        let mut i: usize = 0;
        while i < self.people.len()
            invariant
                i <= self.people@.len(),
                self.people@.len() == old(self).people@.len(),
                self.capacity == old(self).capacity,
                self.dest_prob == old(self).dest_prob,
                all_wf(old(self).people@),
                all_wf(self.people@),
                leave_drawn(old(self).people@.take(i as int), self.people@.take(i as int)),
                forall|k: int| i <= k < self.people@.len() ==> self.people@[k] == #[trigger] old(self).people@[k],
            decreases self.people@.len() - i,
        {
            let ghost before = self.people@;
            let mut person: Person = self.people[i];
            assert(person == old(self).people@[i as int]);
            assert(person.wf());
            if person.floor_on == person.floor_to {
                let _leaving: bool = person.gen_is_leaving(rng);
                self.people.set(i, person);
            }
            proof {
                let was = old(self).people@.take(i + 1);
                let now = self.people@.take(i + 1);
                assert forall|k: int| 0 <= k < was.len() implies {
                    let w = #[trigger] was[k];
                    let n = now[k];
                    if w.is_waiting() {
                        n == w
                    } else {
                        &&& n == w.after_leave_draw(n.is_leaving)
                        &&& !w.is_leaving && w.p_out == 0 ==> !n.is_leaving
                        &&& w.p_out == ONE ==> n.is_leaving
                    }
                } by {
                    if k < i {
                        assert(was[k] == old(self).people@.take(i as int)[k]);
                        assert(now[k] == before.take(i as int)[k]);
                    }
                }
                assert forall|k: int| 0 <= k < self.people@.len() implies (#[trigger] self.people@[k]).wf() by {
                    if k != i {
                        assert(before[k].wf());
                    }
                }
            }
            i = i + 1;
        }
        assert(self.people@.take(i as int) == self.people@);
        assert(old(self).people@.take(i as int) == old(self).people@);
    }

    /// Removes, in order of arrival, up to `free_elevator_capacity` of the
    /// people kept from their destination, and returns them for boarding.
    /// Those at rest stay where they are.
    pub fn flush_people_entering_elevator(&mut self, free_elevator_capacity: usize) -> (boarding: Vec<
        Person,
    >)
        ensures
            boarding@ == taken(old(self).people@, Pick::Waiting, free_elevator_capacity as nat),
            final(self).people@ == kept(old(self).people@, Pick::Waiting, free_elevator_capacity as nat),
            final(self).capacity == old(self).capacity,
            final(self).dest_prob == old(self).dest_prob,
            boarding@.len() <= free_elevator_capacity,
            boarding@.len() + final(self).people@.len() == old(self).people@.len(),
            old(self).wf() ==> final(self).wf() && all_wf(boarding@),
    {
        proof {
            lemma_split_sizes(old(self).people@, Pick::Waiting, free_elevator_capacity as nat);
            if old(self).wf() {
                lemma_split_preserves(
                    old(self).people@,
                    Pick::Waiting,
                    free_elevator_capacity as nat,
                    |p: Person| p.wf() && (!p.is_waiting() ==> p.wait_time == 0),
                );
            }
        }
        take_up_to(&mut self.people, Pick::Waiting, free_elevator_capacity)
    }

    /// Removes everyone who is on their way out of the building, and returns
    /// them. Meant for the ground floor.
    pub fn flush_people_leaving_floor(&mut self) -> (leaving: Vec<Person>)
        ensures
            leaving@ == taken(old(self).people@, Pick::Leaving, old(self).people@.len()),
            final(self).people@ == kept(old(self).people@, Pick::Leaving, old(self).people@.len()),
            final(self).capacity == old(self).capacity,
            final(self).dest_prob == old(self).dest_prob,
            forall|i: int| 0 <= i < leaving@.len() ==> (#[trigger] leaving@[i]).is_leaving,
            forall|i: int| 0 <= i < final(self).people@.len() ==> !(#[trigger] final(self).people@[i]).is_leaving,
            leaving@.len() + final(self).people@.len() == old(self).people@.len(),
            old(self).wf() ==> final(self).wf() && all_wf(leaving@),
    {
        let n: usize = self.people.len();
        proof {
            lemma_split_sizes(old(self).people@, Pick::Leaving, n as nat);
            lemma_split_all(old(self).people@, Pick::Leaving, n as nat);
            if old(self).wf() {
                lemma_split_preserves(
                    old(self).people@,
                    Pick::Leaving,
                    n as nat,
                    |p: Person| p.wf() && (!p.is_waiting() ==> p.wait_time == 0),
                );
            }
        }
        take_up_to(&mut self.people, Pick::Leaving, n)
    }

    /// Lets `people` onto the floor, in order, until the floor is full; those
    /// who do not fit are dropped.
    pub fn extend(&mut self, people: Vec<Person>)
        ensures
            final(self).people@ == admitted(old(self).people@, people@, old(self).capacity),
            final(self).capacity == old(self).capacity,
            final(self).dest_prob == old(self).dest_prob,
            old(self).wf() && all_wf(people@) && all_rested(people@) ==> final(self).wf(),
    {
        let mut i: usize = 0;
        assert(self.people@ == old(self).people@ + people@.take(0));
        while i < people.len() && self.people.len() < self.capacity
            invariant
                i <= people@.len(),
                self.capacity == old(self).capacity,
                self.dest_prob == old(self).dest_prob,
                self.people@ == old(self).people@ + people@.take(i as int),
                old(self).people@.len() <= self.capacity ==> self.people@.len() <= self.capacity,
                old(self).people@.len() > self.capacity ==> i == 0,
            decreases people@.len() - i,
        {
            self.people.push(people[i]);
            assert(people@.take(i + 1) == people@.take(i as int).push(people@[i as int]));
            i = i + 1;
        }
        assert(people@.take(people@.len() as int) == people@);
        proof {
            if old(self).wf() && all_wf(people@) && all_rested(people@) {
                assert forall|k: int| 0 <= k < self.people@.len() implies (#[trigger] self.people@[k]).wf() && (
                !self.people@[k].is_waiting() ==> self.people@[k].wait_time == 0) by {
                    if k < old(self).people@.len() {
                        assert(old(self).people@[k].wf());
                    } else {
                        assert(self.people@[k] == people@[k - old(self).people@.len()]);
                        assert(people@[k - old(self).people@.len()].wf());
                    }
                }
            }
        }
    }
}

impl People for Floor {
    open spec fn people(&self) -> Seq<Person> {
        self.people@
    }

    fn gen_num_tips(&self, rng: &mut StdRng) -> (num_tips: usize) {
        self.people.gen_num_tips(rng)
    }

    fn get_dest_floors(&self) -> (floors: Vec<usize>) {
        self.people.get_dest_floors()
    }

    fn get_num_people(&self) -> (n: usize) {
        self.people.get_num_people()
    }

    fn get_num_people_waiting(&self) -> (n: usize) {
        self.people.get_num_people_waiting()
    }

    fn get_num_people_going_to_floor(&self, floor_to: usize) -> (n: usize) {
        self.people.get_num_people_going_to_floor(floor_to)
    }

    fn get_aggregate_wait_time(&self) -> (total: u128) {
        self.people.get_aggregate_wait_time()
    }

    fn are_people_going_to_floor(&self, floor_index: usize) -> (going: bool) {
        self.people.are_people_going_to_floor(floor_index)
    }

    fn are_people_waiting(&self) -> (waiting: bool) {
        self.people.are_people_waiting()
    }

    fn increment_wait_times(&mut self)
        ensures
            final(self).capacity == old(self).capacity,
            final(self).dest_prob == old(self).dest_prob,
    {
        self.people.increment_wait_times()
    }

    fn reset_wait_times(&mut self)
        ensures
            final(self).capacity == old(self).capacity,
            final(self).dest_prob == old(self).dest_prob,
    {
        self.people.reset_wait_times()
    }
}

} // verus!
