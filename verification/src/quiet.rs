//! A building with nobody in it stays as it is for as long as nobody arrives.

use crate::building::BuildingView;
use crate::chance::FINE;
use crate::dispatch::lemma_nearest_targets;
use crate::elevator::ElevatorView;
use crate::elevators::total_energy;
use crate::floor::FloorView;
use crate::floors::wait_floors;
use crate::people::{are_tip_draws, count_true};
use crate::person::Person;
use vstd::prelude::*;

verus! {

impl BuildingView {
    /// Nobody is on any floor or aboard any elevator, and every elevator is
    /// stopped.
    pub open spec fn is_quiet(self) -> bool {
        &&& forall|i: int| 0 <= i < self.floors.len() ==> (#[trigger] self.floors[i]).people.len() == 0
        &&& forall|j: int|
            0 <= j < self.elevators.len() ==> (#[trigger] self.elevators[j]).people.len() == 0
                && self.elevators[j].stopped
    }
}

/// On empty floors nobody waits.
pub proof fn lemma_nobody_waits(fs: Seq<FloorView>)
    requires
        forall|i: int| 0 <= i < fs.len() ==> (#[trigger] fs[i]).people.len() == 0,
    ensures
        wait_floors(fs).len() == 0,
    decreases fs.len(),
{
    if fs.len() > 0 {
        assert forall|i: int| 0 <= i < fs.drop_last().len() implies (#[trigger] fs.drop_last()[i]).people.len()
            == 0 by {
            assert(fs[i].people.len() == 0);
        }
        lemma_nobody_waits(fs.drop_last());
        assert(fs[fs.len() - 1].people.len() == 0);
    }
}

/// Stopped elevators spend nothing.
pub proof fn lemma_stopped_spend_nothing(es: Seq<ElevatorView>)
    requires
        forall|j: int| 0 <= j < es.len() ==> (#[trigger] es[j]).stopped,
    ensures
        total_energy(es) == 0,
    decreases es.len(),
{
    if es.len() > 0 {
        assert forall|j: int| 0 <= j < es.drop_last().len() implies (#[trigger] es.drop_last()[j]).stopped by {
            assert(es[j].stopped);
        }
        lemma_stopped_spend_nothing(es.drop_last());
        assert(es[es.len() - 1].stopped);
    }
}

/// In a quiet building the nearest-request rule sends no elevator anywhere,
/// and neither does the rule for an elevator free to choose.
pub proof fn lemma_quiet_dispatch(b: BuildingView)
    requires
        b.wf(),
        b.is_quiet(),
    ensures
        b.dispatched(b.nearest_targets()) == b,
        forall|i: int| 0 <= i < b.elevators.len() ==> #[trigger] b.rational_target(i) == b.elevators[i].floor_on,
        forall|i: int| 0 <= i < b.elevators.len() ==> #[trigger] b.nearest_target(i) == b.elevators[i].floor_on,
{
    lemma_nobody_waits(b.floors);
    let after = b.dispatched(b.nearest_targets());
    assert forall|i: int| 0 <= i < b.elevators.len() implies b.rational_target(i) == b.elevators[i].floor_on
        && b.nearest_target(i) == b.elevators[i].floor_on && #[trigger] after.elevators[i] == b.elevators[i] by {
        assert(b.elevators[i].stopped);
        assert(b.elevators[i].people.len() == 0);
    }
    assert(after.elevators =~= b.elevators);
}

/// In a quiet building an exchange changes nothing.
pub proof fn lemma_quiet_exchange(b: BuildingView, k: nat)
    requires
        b.wf(),
        b.is_quiet(),
        k <= b.elevators.len(),
    ensures
        b.exchange_upto(k) == b,
    decreases k,
{
    if k > 0 {
        lemma_quiet_exchange(b, (k - 1) as nat);
        let e = b.elevators[k - 1];
        assert(e.stopped && e.people.len() == 0);
        let f = b.floors[e.floor_on as int];
        assert(f.people.len() == 0);
        let after = b.exchange_at(k - 1);
        assert(after.elevators[k - 1].people =~= e.people);
        assert(after.floors[e.floor_on as int].people =~= f.people);
        assert(after.elevators =~= b.elevators);
        assert(after.floors =~= b.floors);
    }
}

/// A quiet building that nobody arrives at is quiet after the tick: the
/// elevators are where they were, the wait account and the tips are what
/// they were, no floor has lost capacity, and the tick is accounted with no
/// energy spent, so that an average energy of zero stays zero.
pub proof fn lemma_quiet_tick(b: BuildingView, after: BuildingView, samples: Seq<u64>)
    requires
        b.wf(),
        b.is_quiet(),
        b.ticked_to(after, 0, samples),
    ensures
        after.is_quiet(),
        after.elevators == b.elevators,
        after.floors.len() == b.floors.len(),
        forall|i: int| 0 <= i < b.floors.len() ==> (#[trigger] after.floors[i]).capacity == b.floors[i].capacity,
        after.wait_time_total == b.wait_time_total,
        after.wait_time_denom == b.wait_time_denom,
        after.tot_tips == b.tot_tips,
        after.p_in == b.p_in,
        after.energy_total == b.energy_total,
        after.energy_ticks == b.energy_ticks + 1,
        after.energy_total == 0 ==> after.avg_energy() == 0,
{
    let (a, m, c) = choose|a: BuildingView, m: BuildingView, c: BuildingView|
        #![trigger a.tips_flushed(m, samples), m.arrived(c, 0)]
        {
            &&& b.exchanged().left(a)
            &&& a.tips_flushed(m, samples)
            &&& m.arrived(c, 0)
            &&& after == c.waited().scored().energy_accounted(c.energy_ticks as int, c.waited().scored().energy())
        };
    lemma_quiet_exchange(b, b.elevators.len());
    // Leave draws: nobody is there to draw.
    assert forall|i: int| 0 <= i < a.floors.len() implies (#[trigger] a.floors[i]).people.len() == 0
        && a.floors[i].capacity == b.floors[i].capacity by {
        assert(b.floors[i].people.len() == 0);
    }
    // Tips: nobody leaves.
    assert(a.leavers().len() == 0);
    let draws = choose|draws: Seq<bool>|
        are_tip_draws(a.leavers(), draws) && #[trigger] a.tipped(count_true(draws), samples) == m;
    assert(count_true(draws) == 0);
    assert(samples.take(0).len() == 0);
    assert(m.tot_tips == b.tot_tips);
    assert forall|i: int| 0 <= i < m.floors.len() implies (#[trigger] m.floors[i]).people.len() == 0
        && m.floors[i].capacity == b.floors[i].capacity by {
        assert(a.floors[i].people.len() == 0);
    }
    // Arrivals: nobody arrives.
    let newcomers = choose|newcomers: Seq<Person>| m.are_arrivals(newcomers, 0) && #[trigger] m.joined_by(newcomers) == c;
    assert forall|i: int| 0 <= i < c.floors.len() implies (#[trigger] c.floors[i]).people.len() == 0
        && c.floors[i].capacity == b.floors[i].capacity by {
        assert(m.floors[i].people.len() == 0);
    }
    // Waiting and scoring move nobody.
    let w = c.waited().scored();
    assert forall|j: int| 0 <= j < w.elevators.len() implies (#[trigger] w.elevators[j]) == b.elevators[j] by {
        assert(b.elevators[j].people.len() == 0);
        assert(w.elevators[j].people =~= b.elevators[j].people);
    }
    assert(w.elevators =~= b.elevators);
    lemma_stopped_spend_nothing(w.elevators);
    assert forall|i: int| 0 <= i < after.floors.len() implies (#[trigger] after.floors[i]).people.len() == 0
        && after.floors[i].capacity == b.floors[i].capacity by {
        assert(c.floors[i].people.len() == 0);
    }
    let ticks = after.energy_ticks as int;
    assert(0 * FINE / ticks == 0) by (nonlinear_arith)
        requires
            ticks > 0,
    ;
}

/// A quiet building under the nearest-request policy: one whole tick
/// without arrivals, dispatch included, leaves it quiet, with the elevators
/// where they were and every account as it was.
pub proof fn lemma_quiet_nearest_tick(
    b: BuildingView,
    mid: BuildingView,
    after: BuildingView,
    samples: Seq<u64>,
)
    requires
        b.wf(),
        b.is_quiet(),
        mid == b.dispatched(b.nearest_targets()),
        mid.ticked_to(after, 0, samples),
    ensures
        after.is_quiet(),
        after.elevators == b.elevators,
        after.wait_time_total == b.wait_time_total,
        after.wait_time_denom == b.wait_time_denom,
        after.tot_tips == b.tot_tips,
        after.energy_total == b.energy_total,
        after.energy_ticks == b.energy_ticks + 1,
        after.energy_total == 0 ==> after.avg_energy() == 0,
{
    lemma_quiet_dispatch(b);
    lemma_nearest_targets(b);
    lemma_quiet_tick(b, after, samples);
}

/// An energy account that holds no energy holds none after a tick in which
/// none is spent, whatever the number of the tick: the average stays zero.
pub proof fn lemma_zero_energy_stays_zero(b: BuildingView, time_step: int)
    requires
        0 <= time_step,
        b.energy_total == 0,
    ensures
        b.energy_accounted(time_step, 0).energy_total == 0,
        b.energy_accounted(time_step, 0).energy_ticks > 0,
        b.energy_accounted(time_step, 0).avg_energy() == 0,
{
    let after = b.energy_accounted(time_step, 0);
    assert(0 * time_step + 0 * b.energy_ticks == 0) by (nonlinear_arith);
    let ticks_before = b.energy_ticks as int;
    assert(ticks_before > 0 ==> ticks_before * (time_step + 1) > 0) by (nonlinear_arith)
        requires
            0 <= time_step,
    ;
    let ticks = after.energy_ticks as int;
    assert(0 * FINE / ticks == 0) by (nonlinear_arith)
        requires
            ticks > 0,
    ;
}

} // verus!
