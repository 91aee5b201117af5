//! Passengers in aggregate: what floors and elevators both answer about the
//! people they hold.

use crate::chance::ONE;
use crate::person::Person;
use rand::rngs::StdRng;
use vstd::prelude::*;

verus! {

/// How many of `s` are kept from their destination.
pub open spec fn count_waiting(s: Seq<Person>) -> nat
    decreases s.len(),
{
    if s.len() == 0 {
        0
    } else {
        count_waiting(s.drop_last()) + if s.last().is_waiting() {
            1nat
        } else {
            0nat
        }
    }
}

/// How many of `s` are bound for `floor`.
pub open spec fn count_going_to(s: Seq<Person>, floor: usize) -> nat
    decreases s.len(),
{
    if s.len() == 0 {
        0
    } else {
        count_going_to(s.drop_last(), floor) + if s.last().floor_to == floor {
            1nat
        } else {
            0nat
        }
    }
}

/// The wait counters of `s`, added up.
pub open spec fn total_wait(s: Seq<Person>) -> nat
    decreases s.len(),
{
    if s.len() == 0 {
        0
    } else {
        total_wait(s.drop_last()) + s.last().wait_time as nat
    }
}

/// The destinations of `s`, one per passenger, in order.
pub open spec fn dest_floors(s: Seq<Person>) -> Seq<usize> {
    Seq::new(s.len(), |i: int| s[i].floor_to)
}

/// Whether anyone of `s` is kept from their destination.
pub open spec fn any_waiting(s: Seq<Person>) -> bool {
    exists|i: int| 0 <= i < s.len() && (#[trigger] s[i]).is_waiting()
}

/// Whether anyone of `s` is bound for `floor`.
pub open spec fn any_going_to(s: Seq<Person>, floor: usize) -> bool {
    exists|i: int| 0 <= i < s.len() && (#[trigger] s[i]).floor_to == floor
}

/// `s` one tick later: see [`Person::after_tick`].
pub open spec fn ticked(s: Seq<Person>) -> Seq<Person> {
    Seq::new(s.len(), |i: int| s[i].after_tick())
}

/// `s` with the wait counter of everyone at their destination started over:
/// see [`Person::after_arrival`].
pub open spec fn settled(s: Seq<Person>) -> Seq<Person> {
    Seq::new(s.len(), |i: int| s[i].after_arrival())
}

/// `held` after `more` asked to be let in where at most `capacity` fit: those
/// of `more` that fit join, in order, and the others are dropped.
pub open spec fn admitted(held: Seq<Person>, more: Seq<Person>, capacity: usize) -> Seq<Person> {
    if held.len() + more.len() <= capacity {
        held + more
    } else if held.len() <= capacity {
        held + more.take(capacity - held.len())
    } else {
        held
    }
}

/// Everyone of `s` is bound for a floor below `num_floors`.
pub open spec fn all_within(s: Seq<Person>, num_floors: nat) -> bool {
    forall|i: int| 0 <= i < s.len() ==> (#[trigger] s[i]).floor_to < num_floors
}

/// Whatever holds of everyone held and of everyone asking to be let in holds
/// of everyone there afterwards; and letting people in never takes the
/// number past the capacity.
pub proof fn lemma_admitted(held: Seq<Person>, more: Seq<Person>, capacity: usize, holds: spec_fn(Person) -> bool)
    requires
        forall|i: int| 0 <= i < held.len() ==> holds(#[trigger] held[i]),
        forall|i: int| 0 <= i < more.len() ==> holds(#[trigger] more[i]),
    ensures
        forall|i: int|
            0 <= i < admitted(held, more, capacity).len() ==> holds(#[trigger] admitted(held, more, capacity)[i]),
        held.len() <= capacity ==> admitted(held, more, capacity).len() <= capacity,
        held.len() <= admitted(held, more, capacity).len() <= held.len() + more.len(),
{
    let all = admitted(held, more, capacity);
    assert forall|i: int| 0 <= i < all.len() implies holds(#[trigger] all[i]) by {
        if i < held.len() {
            assert(all[i] == held[i]);
        } else {
            assert(all[i] == more[i - held.len()]);
        }
    }
}

/// Everyone of `s` who is at their destination has no wait behind them.
pub open spec fn all_rested(s: Seq<Person>) -> bool {
    forall|i: int| 0 <= i < s.len() && !(#[trigger] s[i]).is_waiting() ==> s[i].wait_time == 0
}

/// Every passenger of `s` is well formed.
pub open spec fn all_wf(s: Seq<Person>) -> bool {
    forall|i: int| 0 <= i < s.len() ==> (#[trigger] s[i]).wf()
}

/// Every passenger of `s` that is kept from their destination can count one
/// more tick.
pub open spec fn can_tick(s: Seq<Person>) -> bool {
    forall|i: int| 0 <= i < s.len() && (#[trigger] s[i]).is_waiting() ==> s[i].wait_time < usize::MAX
}

/// The wait counters of `s` add up to less than `len * 2^64`, so to less than
/// `2^128`.
pub proof fn lemma_total_wait_bound(s: Seq<Person>)
    ensures
        total_wait(s) <= s.len() * usize::MAX,
    decreases s.len(),
{
    if s.len() > 0 {
        lemma_total_wait_bound(s.drop_last());
        assert(total_wait(s) <= (s.len() - 1) * usize::MAX + usize::MAX);
        assert((s.len() - 1) * usize::MAX + usize::MAX == s.len() * usize::MAX) by (nonlinear_arith);
    }
}

/// How many of `draws` came out true.
pub open spec fn count_true(draws: Seq<bool>) -> nat
    decreases draws.len(),
{
    if draws.len() == 0 {
        0
    } else {
        count_true(draws.drop_last()) + if draws.last() {
            1nat
        } else {
            0nat
        }
    }
}

/// `draws` are tip draws of `s`, one per passenger, in order: whoever has a
/// tipping chance of zero does not tip, and whoever has a tipping chance of
/// one does.
pub open spec fn are_tip_draws(s: Seq<Person>, draws: Seq<bool>) -> bool {
    &&& draws.len() == s.len()
    &&& forall|i: int|
        0 <= i < s.len() ==> {
            &&& (#[trigger] s[i]).p_tip == 0 ==> !draws[i]
            &&& s[i].p_tip == ONE ==> draws[i]
        }
}

/// No more draws come out true than there are; none if every one came out
/// false, and all if every one came out true.
pub proof fn lemma_count_true(draws: Seq<bool>)
    ensures
        count_true(draws) <= draws.len(),
        (forall|i: int| 0 <= i < draws.len() ==> !draws[i]) ==> count_true(draws) == 0,
        (forall|i: int| 0 <= i < draws.len() ==> draws[i]) ==> count_true(draws) == draws.len(),
    decreases draws.len(),
{
    if draws.len() > 0 {
        let init = draws.drop_last();
        lemma_count_true(init);
        if forall|i: int| 0 <= i < draws.len() ==> !draws[i] {
            assert forall|i: int| 0 <= i < init.len() implies !init[i] by {
                assert(init[i] == draws[i]);
            }
            assert(!draws[draws.len() - 1]);
        }
        if forall|i: int| 0 <= i < draws.len() ==> draws[i] {
            assert forall|i: int| 0 <= i < init.len() implies init[i] by {
                assert(init[i] == draws[i]);
            }
            assert(draws[draws.len() - 1]);
        }
    }
}

/// How many of `draws` came out true.
pub fn count_tips(draws: &Vec<bool>) -> (num_tips: usize)
    ensures
        num_tips == count_true(draws@),
        num_tips <= draws@.len(),
{
    let mut num_tips: usize = 0;
    let mut i: usize = 0;
    while i < draws.len()
        invariant
            i <= draws@.len(),
            num_tips <= i,
            num_tips == count_true(draws@.take(i as int)),
        decreases draws@.len() - i,
    {
        assert(draws@.take(i + 1).drop_last() == draws@.take(i as int));
        if draws[i] {
            num_tips = num_tips + 1;
        }
        i = i + 1;
    }
    assert(draws@.take(i as int) == draws@);
    num_tips
}

/// Which passengers a removal picks out of a collection.
#[derive(Clone, Copy, Debug)]
pub enum Pick {
    /// Those kept from their destination.
    Waiting,
    /// Those on their way out of the building.
    Leaving,
    /// Those at their destination.
    Arrived,
}

impl Pick {
    /// Whether the removal picks `person`.
    pub open spec fn picks(self, person: Person) -> bool {
        match self {
            Pick::Waiting => person.is_waiting(),
            Pick::Leaving => person.is_leaving,
            Pick::Arrived => !person.is_waiting(),
        }
    }

    /// Whether the removal picks `person`.
    pub fn test(self, person: &Person) -> (picked: bool)
        ensures
            picked == self.picks(*person),
    {
        match self {
            Pick::Waiting => person.floor_on != person.floor_to,
            Pick::Leaving => person.is_leaving,
            Pick::Arrived => person.floor_on == person.floor_to,
        }
    }
}

/// The first `max` passengers of `s` that `pick` picks, in order.
pub open spec fn taken(s: Seq<Person>, pick: Pick, max: nat) -> Seq<Person>
    decreases s.len(),
{
    if s.len() == 0 || max == 0 {
        Seq::empty()
    } else if pick.picks(s[0]) {
        seq![s[0]] + taken(s.drop_first(), pick, (max - 1) as nat)
    } else {
        taken(s.drop_first(), pick, max)
    }
}

/// What is left of `s`, in order, once the first `max` passengers that `pick`
/// picks are gone.
pub open spec fn kept(s: Seq<Person>, pick: Pick, max: nat) -> Seq<Person>
    decreases s.len(),
{
    if s.len() == 0 {
        Seq::empty()
    } else if max == 0 {
        s
    } else if pick.picks(s[0]) {
        kept(s.drop_first(), pick, (max - 1) as nat)
    } else {
        seq![s[0]] + kept(s.drop_first(), pick, max)
    }
}

/// A removal splits the collection: nobody is lost or made up, at most `max`
/// are taken, and each one taken was picked.
pub proof fn lemma_split_sizes(s: Seq<Person>, pick: Pick, max: nat)
    ensures
        taken(s, pick, max).len() + kept(s, pick, max).len() == s.len(),
        taken(s, pick, max).len() <= max,
        forall|i: int| 0 <= i < taken(s, pick, max).len() ==> pick.picks(#[trigger] taken(s, pick, max)[i]),
    decreases s.len(),
{
    if s.len() > 0 && max > 0 {
        if pick.picks(s[0]) {
            lemma_split_sizes(s.drop_first(), pick, (max - 1) as nat);
        } else {
            lemma_split_sizes(s.drop_first(), pick, max);
        }
    }
}

/// Whatever holds of every passenger before a removal holds of every one
/// taken and of every one kept.
pub proof fn lemma_split_preserves(s: Seq<Person>, pick: Pick, max: nat, holds: spec_fn(Person) -> bool)
    requires
        forall|i: int| 0 <= i < s.len() ==> holds(#[trigger] s[i]),
    ensures
        forall|i: int| 0 <= i < taken(s, pick, max).len() ==> holds(#[trigger] taken(s, pick, max)[i]),
        forall|i: int| 0 <= i < kept(s, pick, max).len() ==> holds(#[trigger] kept(s, pick, max)[i]),
    decreases s.len(),
{
    if s.len() > 0 && max > 0 {
        let rest = s.drop_first();
        assert forall|i: int| 0 <= i < rest.len() implies holds(#[trigger] rest[i]) by {
            assert(rest[i] == s[i + 1]);
        }
        let t = taken(s, pick, max);
        let k = kept(s, pick, max);
        if pick.picks(s[0]) {
            lemma_split_preserves(rest, pick, (max - 1) as nat, holds);
            let t1 = taken(rest, pick, (max - 1) as nat);
            assert(t == seq![s[0]] + t1);
            assert(k == kept(rest, pick, (max - 1) as nat));
            assert forall|i: int| 0 <= i < t.len() implies holds(#[trigger] t[i]) by {
                if i > 0 {
                    assert(t[i] == t1[i - 1]);
                } else {
                    assert(t[i] == s[0]);
                }
            }
        } else {
            lemma_split_preserves(rest, pick, max, holds);
            let k1 = kept(rest, pick, max);
            assert(k == seq![s[0]] + k1);
            assert(t == taken(rest, pick, max));
            assert forall|i: int| 0 <= i < k.len() implies holds(#[trigger] k[i]) by {
                if i > 0 {
                    assert(k[i] == k1[i - 1]);
                } else {
                    assert(k[i] == s[0]);
                }
            }
        }
    } else if s.len() > 0 {
        assert(kept(s, pick, max) == s);
    }
}

/// A removal with room for the whole collection leaves nobody behind that it
/// picks.
pub proof fn lemma_split_all(s: Seq<Person>, pick: Pick, max: nat)
    requires
        s.len() <= max,
    ensures
        forall|i: int| 0 <= i < kept(s, pick, max).len() ==> !pick.picks(#[trigger] kept(s, pick, max)[i]),
    decreases s.len(),
{
    if s.len() > 0 {
        let rest = s.drop_first();
        let k = kept(s, pick, max);
        if pick.picks(s[0]) {
            lemma_split_all(rest, pick, (max - 1) as nat);
            assert(k == kept(rest, pick, (max - 1) as nat));
        } else {
            lemma_split_all(rest, pick, max);
            let k1 = kept(rest, pick, max);
            assert(k == seq![s[0]] + k1);
            assert forall|i: int| 0 <= i < k.len() implies !pick.picks(#[trigger] k[i]) by {
                if i > 0 {
                    assert(k[i] == k1[i - 1]);
                } else {
                    assert(k[i] == s[0]);
                }
            }
        }
    }
}

/// Removes from `people`, in order, the first `max` passengers that `pick`
/// picks, and returns them; the others stay, in order.
pub fn take_up_to(people: &mut Vec<Person>, pick: Pick, max: usize) -> (out: Vec<Person>)
    ensures
        out@ == taken(old(people)@, pick, max as nat),
        final(people)@ == kept(old(people)@, pick, max as nat),
{
    let mut out: Vec<Person> = Vec::new();
    let mut rest: Vec<Person> = Vec::new();
    let n: usize = people.len();
    let mut i: usize = 0;
    assert(people@.skip(0) == people@);
    assert(Seq::<Person>::empty() + taken(people@, pick, max as nat) == taken(people@, pick, max as nat));
    assert(Seq::<Person>::empty() + kept(people@, pick, max as nat) == kept(people@, pick, max as nat));
    while i < n
        invariant
            i <= n,
            n == people@.len(),
            people@ == old(people)@,
            out@.len() <= max,
            taken(people@, pick, max as nat) == out@ + taken(
                people@.skip(i as int),
                pick,
                (max - out@.len()) as nat,
            ),
            kept(people@, pick, max as nat) == rest@ + kept(
                people@.skip(i as int),
                pick,
                (max - out@.len()) as nat,
            ),
        decreases n - i,
    {
        let person: Person = people[i];
        let ghost tail = people@.skip(i as int);
        let ghost room = (max - out@.len()) as nat;
        let ghost out_before = out@;
        let ghost rest_before = rest@;
        assert(tail.drop_first() == people@.skip(i + 1));
        assert(tail[0] == person);
        if out.len() < max && pick.test(&person) {
            out.push(person);
            assert(out@ + taken(people@.skip(i + 1), pick, (room - 1) as nat) == out_before + taken(
                tail,
                pick,
                room,
            ));
        } else {
            rest.push(person);
            assert(rest@ + kept(people@.skip(i + 1), pick, room) == rest_before + kept(tail, pick, room));
        }
        i = i + 1;
    }
    assert(people@.skip(i as int).len() == 0);
    assert(out@ + Seq::<Person>::empty() == out@);
    assert(rest@ + Seq::<Person>::empty() == rest@);
    *people = rest;
    out
}

/// A collection of passengers. Floors, elevators and plain vectors of
/// passengers all answer the same questions about the people they hold.
pub trait People {
    /// The passengers held, in order of arrival.
    spec fn people(&self) -> Seq<Person>;

    /// Draws, for each passenger, whether they tip, and counts those who do.
    fn gen_num_tips(&self, rng: &mut StdRng) -> (num_tips: usize)
        requires
            all_wf(self.people()),
        ensures
            exists|draws: Seq<bool>| are_tip_draws(self.people(), draws) && num_tips == #[trigger] count_true(draws),
            num_tips <= self.people().len(),
            (forall|i: int| 0 <= i < self.people().len() ==> (#[trigger] self.people()[i]).p_tip == 0)
                ==> num_tips == 0,
            (forall|i: int|
                0 <= i < self.people().len() ==> (#[trigger] self.people()[i]).p_tip == ONE)
                ==> num_tips == self.people().len(),
    ;

    /// The destination of each passenger, in order.
    fn get_dest_floors(&self) -> (floors: Vec<usize>)
        ensures
            floors@ == dest_floors(self.people()),
    ;

    /// How many passengers there are.
    fn get_num_people(&self) -> (n: usize)
        ensures
            n == self.people().len(),
    ;

    /// How many passengers are kept from their destination.
    fn get_num_people_waiting(&self) -> (n: usize)
        ensures
            n == count_waiting(self.people()),
    ;

    /// How many passengers are bound for `floor_to`.
    fn get_num_people_going_to_floor(&self, floor_to: usize) -> (n: usize)
        ensures
            n == count_going_to(self.people(), floor_to),
    ;

    /// The wait counters of all passengers, added up.
    fn get_aggregate_wait_time(&self) -> (total: u128)
        ensures
            total == total_wait(self.people()),
    ;

    /// Whether any passenger is bound for `floor_index`.
    fn are_people_going_to_floor(&self, floor_index: usize) -> (going: bool)
        ensures
            going == any_going_to(self.people(), floor_index),
    ;

    /// Whether any passenger is kept from their destination.
    fn are_people_waiting(&self) -> (waiting: bool)
        ensures
            waiting == any_waiting(self.people()),
    ;

    /// One tick passes: every passenger kept from their destination waits one
    /// tick longer, and nothing else changes.
    fn increment_wait_times(&mut self)
        requires
            can_tick(old(self).people()),
        ensures
            final(self).people() == ticked(old(self).people()),
    ;

    /// Every passenger at their destination has the wait counter started
    /// over, and nothing else changes.
    fn reset_wait_times(&mut self)
        ensures
            final(self).people() == settled(old(self).people()),
    ;
}

impl People for Vec<Person> {
    open spec fn people(&self) -> Seq<Person> {
        self@
    }

    fn gen_num_tips(&self, rng: &mut StdRng) -> (num_tips: usize) {
        let mut draws: Vec<bool> = Vec::new();
        let mut i: usize = 0;
        while i < self.len()
            invariant
                i <= self@.len(),
                all_wf(self@),
                are_tip_draws(self@.take(i as int), draws@),
            decreases self@.len() - i,
        {
            assert(self@[i as int].wf());
            let tips: bool = self[i].gen_tip(rng);
            let ghost before = draws@;
            draws.push(tips);
            proof {
                let upto = self@.take(i + 1);
                assert forall|k: int| 0 <= k < upto.len() implies {
                    &&& (#[trigger] upto[k]).p_tip == 0 ==> !draws@[k]
                    &&& upto[k].p_tip == ONE ==> draws@[k]
                } by {
                    if k < i {
                        assert(self@.take(i as int)[k] == upto[k]);
                        assert(draws@[k] == before[k]);
                    }
                }
            }
            i = i + 1;
        }
        proof {
            assert(self@.take(i as int) == self@);
            lemma_count_true(draws@);
            if forall|k: int| 0 <= k < self@.len() ==> (#[trigger] self@[k]).p_tip == 0 {
                assert forall|k: int| 0 <= k < draws@.len() implies !draws@[k] by {
                    assert(self@[k].p_tip == 0);
                }
            }
            if forall|k: int| 0 <= k < self@.len() ==> (#[trigger] self@[k]).p_tip == ONE {
                assert forall|k: int| 0 <= k < draws@.len() implies draws@[k] by {
                    assert(self@[k].p_tip == ONE);
                }
            }
        }
        count_tips(&draws)
    }

    fn get_dest_floors(&self) -> (floors: Vec<usize>) {
        let mut floors: Vec<usize> = Vec::new();
        let mut i: usize = 0;
        while i < self.len()
            invariant
                i <= self.len(),
                floors@ == dest_floors(self@.take(i as int)),
            decreases self.len() - i,
        {
            floors.push(self[i].floor_to);
            i = i + 1;
        }
        assert(self@.take(i as int) == self@);
        floors
    }

    fn get_num_people(&self) -> (n: usize) {
        self.len()
    }

    fn get_num_people_waiting(&self) -> (n: usize) {
        let mut n: usize = 0;
        let mut i: usize = 0;
        while i < self.len()
            invariant
                i <= self.len(),
                n <= i,
                n == count_waiting(self@.take(i as int)),
            decreases self.len() - i,
        {
            assert(self@.take(i + 1).drop_last() == self@.take(i as int));
            if self[i].floor_on != self[i].floor_to {
                n = n + 1;
            }
            i = i + 1;
        }
        assert(self@.take(i as int) == self@);
        n
    }

    fn get_num_people_going_to_floor(&self, floor_to: usize) -> (n: usize) {
        let mut n: usize = 0;
        let mut i: usize = 0;
        while i < self.len()
            invariant
                i <= self.len(),
                n <= i,
                n == count_going_to(self@.take(i as int), floor_to),
            decreases self.len() - i,
        {
            assert(self@.take(i + 1).drop_last() == self@.take(i as int));
            if self[i].floor_to == floor_to {
                n = n + 1;
            }
            i = i + 1;
        }
        assert(self@.take(i as int) == self@);
        n
    }

    fn get_aggregate_wait_time(&self) -> (total: u128) {
        let mut total: u128 = 0;
        let mut i: usize = 0;
        while i < self.len()
            invariant
                i <= self.len(),
                total == total_wait(self@.take(i as int)),
            decreases self.len() - i,
        {
            proof {
                assert(self@.take(i + 1).drop_last() == self@.take(i as int));
                lemma_total_wait_bound(self@.take(i + 1));
                assert((i + 1) * usize::MAX <= usize::MAX * usize::MAX) by (nonlinear_arith)
                    requires
                        i + 1 <= usize::MAX,
                ;
                assert(usize::MAX * usize::MAX <= u128::MAX) by (nonlinear_arith)
                    requires
                        usize::MAX <= u64::MAX,
                ;
            }
            total = total + self[i].wait_time as u128;
            i = i + 1;
        }
        assert(self@.take(i as int) == self@);
        total
    }

    fn are_people_going_to_floor(&self, floor_index: usize) -> (going: bool) {
        let mut i: usize = 0;
        while i < self.len()
            invariant
                i <= self.len(),
                forall|k: int| 0 <= k < i ==> (#[trigger] self@[k]).floor_to != floor_index,
            decreases self.len() - i,
        {
            if self[i].floor_to == floor_index {
                return true;
            }
            i = i + 1;
        }
        false
    }

    fn are_people_waiting(&self) -> (waiting: bool) {
        let mut i: usize = 0;
        while i < self.len()
            invariant
                i <= self.len(),
                forall|k: int| 0 <= k < i ==> !(#[trigger] self@[k]).is_waiting(),
            decreases self.len() - i,
        {
            if self[i].floor_on != self[i].floor_to {
                return true;
            }
            i = i + 1;
        }
        false
    }

    fn increment_wait_times(&mut self) {
        let mut i: usize = 0;
        while i < self.len()
            invariant
                i <= self.len(),
                self@.len() == old(self)@.len(),
                can_tick(old(self)@),
                forall|k: int| 0 <= k < i ==> self@[k] == (#[trigger] old(self)@[k]).after_tick(),
                forall|k: int| i <= k < self@.len() ==> self@[k] == #[trigger] old(self)@[k],
            decreases self.len() - i,
        {
            let mut person: Person = self[i];
            if person.floor_on != person.floor_to {
                assert(old(self)@[i as int].is_waiting());
                person.increment_wait_time();
                self.set(i, person);
            }
            i = i + 1;
        }
        assert(self@ =~= ticked(old(self)@));
    }

    fn reset_wait_times(&mut self) {
        let mut i: usize = 0;
        while i < self.len()
            invariant
                i <= self.len(),
                self@.len() == old(self)@.len(),
                forall|k: int| 0 <= k < i ==> self@[k] == (#[trigger] old(self)@[k]).after_arrival(),
                forall|k: int| i <= k < self@.len() ==> self@[k] == #[trigger] old(self)@[k],
            decreases self.len() - i,
        {
            let mut person: Person = self[i];
            if person.floor_on == person.floor_to {
                person.reset_wait_time();
                self.set(i, person);
            }
            i = i + 1;
        }
        assert(self@ =~= settled(old(self)@));
    }
}

} // verus!
