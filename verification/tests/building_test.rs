use elevator_sim::building::{
    Building, ConfigError, ELEVATOR_CAPACITY, FLOOR_CAPACITY, P_OUT, P_TIP, TIP_SUCCESS, TIP_TRIALS,
};
use elevator_sim::floors::Floors;
use elevator_sim::people::People;
use elevator_sim::person::Person;
use elevator_sim::chance::{FINE, ONE};
use rand::rngs::StdRng;
use rand::SeedableRng;

fn building(num_floors: usize, num_elevators: usize) -> Building {
    Building::from(num_floors, num_elevators, 500_000, 5_000, 2_500, 500).unwrap()
}

fn person(floor_on: usize, floor_to: usize, wait_time: usize) -> Person {
    Person { floor_on, floor_to, is_leaving: false, wait_time, p_out: P_OUT, p_tip: P_TIP }
}

#[test]
fn constants() {
    assert_eq!(P_OUT, 50_000);
    assert_eq!(P_TIP, 500_000);
    assert_eq!(TIP_TRIALS, 100);
    assert_eq!(TIP_SUCCESS, 500_000);
    assert_eq!(ONE, 1_000_000);
}

#[test]
fn new_building_is_empty_and_idle() {
    let b = building(4, 2);
    assert_eq!(b.floors.len(), 4);
    assert_eq!(b.elevators.len(), 2);
    assert!(b.floors.iter().all(|f| f.get_num_people() == 0 && f.capacity == FLOOR_CAPACITY && f.dest_prob == 0));
    assert!(b.elevators.iter().all(|e| e.get_num_people() == 0 && e.stopped && !e.moving_up && e.floor_on == 0));
    assert!(b.elevators.iter().all(|e| e.capacity == ELEVATOR_CAPACITY));
    assert!(b.elevators.iter().all(|e| (e.energy_up, e.energy_down, e.energy_coef) == (5_000, 2_500, 500)));
    assert_eq!(b.energy_total, 0);
    assert_eq!(b.energy_ticks, 0);
    assert_eq!(b.avg_energy(), 0);
    assert_eq!(b.wait_time_total, 0);
    assert_eq!(b.wait_time_denom, 0);
    assert_eq!(b.tot_tips, 0);
    assert_eq!(b.p_in, 500_000);
    assert_eq!(b.avg_wait_time(), 0);
}

#[test]
fn a_building_without_floors_is_refused() {
    assert_eq!(Building::from(0, 2, 500_000, 1, 1, 1).err(), Some(ConfigError::NoFloors));
    assert_eq!(Building::from(0, 2, 0, 1, 1, 1).err(), Some(ConfigError::NoFloors));
}

#[test]
fn a_building_without_arrivals_is_refused() {
    assert_eq!(Building::from(3, 2, 0, 1, 1, 1).err(), Some(ConfigError::NoArrivals));
}

#[test]
fn a_building_with_too_many_elevators_is_refused() {
    let too_many = u32::MAX as usize + 1;
    assert_eq!(Building::from(3, too_many, 1, 1, 1, 1).err(), Some(ConfigError::TooManyElevators));
}

#[test]
fn a_building_may_have_no_elevators() {
    let b = Building::from(2, 0, 1, 0, 0, 0).unwrap();
    assert_eq!(b.elevators.len(), 0);
}

#[test]
fn tips_are_handed_over_and_the_account_starts_over() {
    let mut b = building(2, 1);
    b.tot_tips = 123;
    assert_eq!(b.collect_tips(), 123);
    assert_eq!(b.tot_tips, 0);
    assert_eq!(b.collect_tips(), 0);
}

#[test]
fn average_energy_is_a_running_mean() {
    let mut b = building(2, 1);
    b.update_average_energy(0, 10);
    assert_eq!(b.avg_energy(), 10 * FINE as u128);
    b.update_average_energy(1, 20);
    assert_eq!(b.avg_energy(), 15 * FINE as u128);
    b.update_average_energy(2, 0);
    assert_eq!(b.avg_energy(), 10 * FINE as u128);
    b.update_average_energy(3, 10);
    assert_eq!(b.avg_energy(), 10 * FINE as u128);
    assert_eq!((b.energy_total, b.energy_ticks), (40, 4));
}

#[test]
fn average_energy_keeps_what_rounding_would_lose() {
    let mut b = building(2, 1);
    b.update_average_energy(0, 10);
    b.update_average_energy(1, 10);
    b.update_average_energy(2, 1);
    // 21 / 3
    assert_eq!(b.avg_energy(), 7 * FINE as u128);
    b.update_average_energy(3, 1);
    // 22 / 4
    assert_eq!(b.avg_energy(), 5_500_000_000_000_000_000);
    b.update_average_energy(4, 0);
    b.update_average_energy(5, 0);
    // 22 / 6
    assert_eq!(b.avg_energy(), 3_666_666_666_666_666_666);
}

#[test]
fn average_energy_from_an_account_at_another_tick_is_the_exact_fraction() {
    // an average of 10, counted 5 times, and 4 once: 54 / 6
    let mut b = building(2, 1);
    b.energy_total = 20;
    b.energy_ticks = 2;
    b.update_average_energy(5, 4);
    assert_eq!((b.energy_total, b.energy_ticks), (108, 12));
    assert_eq!(b.avg_energy(), 9 * FINE as u128);
    // an average of 10 counted no times: the new tick alone
    let mut c = building(2, 1);
    c.energy_total = 20;
    c.energy_ticks = 2;
    c.update_average_energy(0, 7);
    assert_eq!(c.avg_energy(), 7 * FINE as u128);
    // an empty account stands for an average of zero: 8 / 4
    let mut d = building(2, 1);
    d.update_average_energy(3, 8);
    assert_eq!((d.energy_total, d.energy_ticks), (8, 4));
    assert_eq!(d.avg_energy(), 2 * FINE as u128);
}

#[test]
fn average_energy_does_not_drift() {
    // an average of 2500 after 10000 ticks, then 5000, 0, 5000, 0
    let mut b = building(2, 1);
    b.energy_total = 25_000_000;
    b.energy_ticks = 10_000;
    assert_eq!(b.avg_energy(), 2_500 * FINE as u128);
    for (t, spent) in [(10_000, 5_000), (10_001, 0), (10_002, 5_000), (10_003, 0)] {
        b.update_average_energy(t, spent);
    }
    assert_eq!(b.avg_energy(), 2_500 * FINE as u128);
    // ticks alternating 5000 and 0 from the start
    let mut c = building(2, 1);
    for t in 0..10_000 {
        c.update_average_energy(t, if t % 2 == 0 { 5_000 } else { 0 });
    }
    assert_eq!(c.avg_energy(), 2_500 * FINE as u128);
    assert_eq!((c.energy_total, c.energy_ticks), (25_000_000, 10_000));
}

#[test]
fn tips_are_the_first_samples_added_up() {
    let b = building(2, 1);
    let samples: Vec<u64> = vec![50, 47, 53, 60];
    assert_eq!(b.gen_tip_value(0, &samples), 0);
    assert_eq!(b.gen_tip_value(1, &samples), 50);
    assert_eq!(b.gen_tip_value(3, &samples), 150);
    assert_eq!(b.gen_tip_value(4, &samples), 210);
}

#[test]
fn average_wait_is_zero_while_nobody_has_arrived() {
    let mut b = building(3, 1);
    assert_eq!(b.avg_wait_time(), 0);
    b.exchange_people_on_elevator();
    assert_eq!(b.wait_time_denom, 0);
    assert_eq!(b.avg_wait_time(), 0);
}

#[test]
fn average_wait_in_fine_units() {
    let mut b = building(3, 1);
    b.wait_time_total = 8;
    b.wait_time_denom = 2;
    assert_eq!(b.avg_wait_time(), 4 * FINE as u128);
    b.wait_time_total = 10;
    b.wait_time_denom = 3;
    assert_eq!(b.avg_wait_time(), 3_333_333_333_333_333_333);
    b.wait_time_total = 0;
    b.wait_time_denom = 5;
    assert_eq!(b.avg_wait_time(), 0);
}

#[test]
fn exchange_lets_people_off_then_on_and_accounts_for_their_wait() {
    let mut b = building(4, 1);
    b.elevators[0].floor_on = 1;
    b.elevators[0].people = vec![person(1, 1, 3), person(1, 2, 4), person(1, 1, 5)];
    b.floors[1].people = vec![person(1, 3, 1), person(1, 1, 0), person(1, 0, 2)];
    b.exchange_people_on_elevator();
    // aboard: the one bound for floor 2, then the two who waited on the floor
    assert_eq!(b.elevators[0].get_dest_floors(), vec![2, 3, 0]);
    assert_eq!(
        b.elevators[0].people.iter().map(|p| p.wait_time).collect::<Vec<usize>>(),
        vec![4, 1, 2]
    );
    // on the floor: the one at rest, then the two who got off, their wait started over
    assert_eq!(b.floors[1].get_dest_floors(), vec![1, 1, 1]);
    assert_eq!(b.floors[1].people.iter().map(|p| p.wait_time).collect::<Vec<usize>>(), vec![0, 0, 0]);
    assert_eq!(b.wait_time_total, 8);
    assert_eq!(b.wait_time_denom, 2);
    assert_eq!(b.avg_wait_time(), 4 * FINE as u128);
}

#[test]
fn exchange_folds_new_waits_into_the_old() {
    let mut b = building(4, 1);
    b.wait_time_total = 10;
    b.wait_time_denom = 2;
    b.elevators[0].floor_on = 2;
    b.elevators[0].people = vec![person(2, 2, 2)];
    b.exchange_people_on_elevator();
    // (10 + 2) / (2 + 1)
    assert_eq!(b.wait_time_total, 12);
    assert_eq!(b.wait_time_denom, 3);
    assert_eq!(b.avg_wait_time(), 4 * FINE as u128);
}

#[test]
fn a_moving_elevator_exchanges_nobody() {
    let mut b = building(4, 1);
    b.elevators[0].floor_on = 1;
    b.elevators[0].people = vec![person(1, 1, 3)];
    b.elevators[0].update_direction(3);
    b.floors[1].people = vec![person(1, 3, 1)];
    b.exchange_people_on_elevator();
    assert_eq!(b.elevators[0].get_num_people(), 1);
    assert_eq!(b.floors[1].get_num_people(), 1);
    assert_eq!(b.wait_time_denom, 0);
}

#[test]
fn boarding_is_capped_by_the_room_aboard() {
    let mut b = building(4, 1);
    b.elevators[0].capacity = 3;
    b.elevators[0].people = vec![person(0, 0, 1), person(0, 2, 0)];
    b.floors[0].people = vec![person(0, 1, 0), person(0, 2, 0), person(0, 3, 0), person(0, 1, 0)];
    b.exchange_people_on_elevator();
    // one got off, so two of the four waiting fit
    assert_eq!(b.elevators[0].get_dest_floors(), vec![2, 1, 2]);
    assert_eq!(b.floors[0].get_dest_floors(), vec![3, 1, 0]);
}

#[test]
fn people_getting_off_onto_a_full_floor_are_dropped() {
    let mut b = building(3, 1);
    b.floors[0].capacity = 2;
    b.floors[0].people = vec![person(0, 0, 0), person(0, 0, 0)];
    b.elevators[0].people = vec![person(0, 0, 4), person(0, 0, 6)];
    b.exchange_people_on_elevator();
    assert_eq!(b.elevators[0].get_num_people(), 0);
    assert_eq!(b.floors[0].get_num_people(), 2);
    assert_eq!(b.wait_time_total, 10);
    assert_eq!(b.wait_time_denom, 2);
}

#[test]
fn elevators_on_one_floor_take_turns() {
    let mut b = building(3, 2);
    b.elevators[0].capacity = 1;
    b.elevators[1].capacity = 5;
    b.floors[0].people = vec![person(0, 1, 0), person(0, 2, 0), person(0, 1, 0)];
    b.exchange_people_on_elevator();
    assert_eq!(b.elevators[0].get_dest_floors(), vec![1]);
    assert_eq!(b.elevators[1].get_dest_floors(), vec![2, 1]);
    assert_eq!(b.floors[0].get_num_people(), 0);
}

#[test]
fn leavers_tip_with_the_first_samples() {
    let mut rng = StdRng::seed_from_u64(1);
    let mut b = building(3, 1);
    let mut out = person(0, 0, 0);
    out.is_leaving = true;
    out.p_tip = ONE;
    b.floors[0].people = vec![out, person(0, 0, 0), out];
    b.tot_tips = 5;
    b.flush_and_update_tips(&mut rng, &vec![50, 40, 30]);
    assert_eq!(b.tot_tips, 5 + 50 + 40);
    assert_eq!(b.floors[0].get_num_people(), 1);
}

#[test]
fn leavers_who_never_tip_leave_nothing() {
    let mut rng = StdRng::seed_from_u64(1);
    let mut b = building(3, 1);
    let mut out = person(0, 0, 0);
    out.is_leaving = true;
    out.p_tip = 0;
    b.floors[0].people = vec![out, out];
    b.flush_and_update_tips(&mut rng, &vec![50, 40]);
    assert_eq!(b.tot_tips, 0);
    assert_eq!(b.floors[0].get_num_people(), 0);
}

#[test]
fn tips_of_fair_tippers_are_a_stretch_of_the_samples() {
    let mut rng = StdRng::seed_from_u64(17);
    let mut b = building(3, 1);
    let mut out = person(0, 0, 0);
    out.is_leaving = true;
    b.floors[0].people = vec![out, out, out];
    b.flush_and_update_tips(&mut rng, &vec![1, 10, 100]);
    assert!([0, 1, 11, 111].contains(&b.tot_tips));
}

#[test]
fn arrivals_join_the_ground_floor() {
    let mut rng = StdRng::seed_from_u64(6);
    let mut b = building(5, 1);
    b.gen_people_arriving(7, &mut rng);
    assert_eq!(b.floors[0].get_num_people(), 7);
    for p in b.floors[0].people.iter() {
        assert_eq!(p.floor_on, 0);
        assert!(p.floor_to < 5);
        assert_eq!(p.wait_time, 0);
        assert!(!p.is_leaving);
        assert_eq!(p.p_out, P_OUT);
        assert_eq!(p.p_tip, P_TIP);
    }
    assert!(b.floors[1..].iter().all(|f| f.get_num_people() == 0));
    b.gen_people_arriving(0, &mut rng);
    assert_eq!(b.floors[0].get_num_people(), 7);
}

#[test]
fn arrivals_beyond_the_capacity_are_lost() {
    let mut rng = StdRng::seed_from_u64(6);
    let mut b = building(5, 1);
    b.floors[0].capacity = 4;
    b.floors[0].people = vec![person(0, 2, 9)];
    b.gen_people_arriving(10, &mut rng);
    assert_eq!(b.floors[0].get_num_people(), 4);
    assert_eq!(b.floors[0].people[0].wait_time, 9);
    b.gen_people_arriving(3, &mut rng);
    assert_eq!(b.floors[0].get_num_people(), 4);
}

#[test]
fn score_of_the_ground_floor_is_the_share_of_arrivals_bound_elsewhere() {
    let mut b = building(4, 1);
    b.update_dest_probabilities();
    // 0.5 * 3 / 4
    assert_eq!(b.floors[0].dest_prob, 375_000_000_000_000_000);
    assert_eq!(b.floors[1].dest_prob, 0);
    let mut one = building(1, 0);
    one.update_dest_probabilities();
    assert_eq!(one.floors[0].dest_prob, 0);
}

#[test]
fn score_is_one_where_someone_waits_or_is_headed() {
    let mut b = building(4, 1);
    b.floors[0].people = vec![person(0, 2, 0)];
    b.floors[3].people = vec![person(3, 0, 0)];
    b.elevators[0].people = vec![person(0, 1, 0)];
    b.update_dest_probabilities();
    assert_eq!(Floors::get_dest_probabilities(&b), vec![FINE as u128, FINE as u128, 0, FINE as u128]);
}

#[test]
fn score_of_an_upper_floor_is_its_leave_probability() {
    let mut b = building(3, 1);
    b.floors[1].people = vec![person(1, 1, 0), person(1, 1, 0)];
    b.floors[2].people = vec![person(2, 2, 0)];
    b.update_dest_probabilities();
    assert_eq!(b.floors[1].dest_prob, 97_500_000_000_000_000);
    assert_eq!(b.floors[2].dest_prob, 50_000_000_000_000_000);
}

#[test]
fn score_of_the_ground_floor_may_exceed_one() {
    let mut b = Building::from(3, 1, 3_000_000, 1, 1, 1).unwrap();
    b.update_dest_probabilities();
    assert_eq!(b.floors[0].dest_prob, 2_000_000_000_000_000_000);
    b.floors[0].people = vec![person(0, 2, 0)];
    b.update_dest_probabilities();
    assert_eq!(b.floors[0].dest_prob, 2_000_000_000_000_000_000);
    // 0.000001 * 2 / 3, rounded down to a whole unit
    let mut c = Building::from(3, 1, 1, 1, 1, 1).unwrap();
    c.update_dest_probabilities();
    assert_eq!(c.floors[0].dest_prob, 666_666_666_666);
}

#[test]
fn a_tick_passes_throughout_the_building() {
    let mut b = building(3, 1);
    b.floors[1].people = vec![person(1, 2, 4), person(1, 1, 0)];
    b.elevators[0].people = vec![person(0, 2, 1), person(0, 0, 7)];
    Floors::increment_wait_times(&mut b);
    assert_eq!(b.floors[1].people[0].wait_time, 5);
    assert_eq!(b.floors[1].people[1].wait_time, 0);
    assert_eq!(b.elevators[0].people[0].wait_time, 2);
    assert_eq!(b.elevators[0].people[1].wait_time, 7);
}

#[test]
fn building_answers_for_its_floors() {
    let mut b = building(6, 1);
    b.floors[4].people = vec![person(4, 0, 0)];
    b.floors[1].people = vec![person(1, 0, 0)];
    assert!(b.are_people_waiting_on_floor(4));
    assert!(!b.are_people_waiting_on_floor(3));
    assert_eq!(b.get_nearest_wait_floor(3), (4, 1));
    assert_eq!(b.get_nearest_wait_floor(0), (1, 1));
    b.floors[0].people = vec![Person { is_leaving: true, ..person(0, 0, 0) }];
    assert_eq!(b.flush_first_floor().len(), 1);
    b.append_floor(9);
    assert_eq!(b.floors.len(), 7);
    Floors::update_capacities(&mut b, 1);
    assert!(b.floors.iter().all(|f| f.capacity == 1));
    assert_eq!(b.elevators[0].capacity, ELEVATOR_CAPACITY);
}

#[test]
fn leave_draws_at_the_building() {
    let mut rng = StdRng::seed_from_u64(5);
    let mut b = building(3, 1);
    b.floors[2].people = vec![Person { p_out: ONE, ..person(2, 2, 0) }, Person { p_out: 0, ..person(2, 2, 0) }];
    b.elevators[0].people = vec![Person { p_out: ONE, ..person(0, 0, 0) }];
    Floors::gen_people_leaving(&mut b, &mut rng);
    assert!(b.floors[2].people[0].is_leaving);
    assert_eq!(b.floors[2].people[0].floor_to, 0);
    assert!(!b.floors[2].people[1].is_leaving);
    assert!(!b.elevators[0].people[0].is_leaving);
}

#[test]
fn building_clone_holds_the_same() {
    let mut b = building(3, 2);
    b.floors[1].people = vec![person(1, 2, 4)];
    b.elevators[1].people = vec![person(0, 2, 1)];
    b.energy_total = 4;
    b.energy_ticks = 2;
    b.wait_time_total = 9;
    b.wait_time_denom = 3;
    b.tot_tips = 8;
    let copy = b.clone();
    assert_eq!(copy.floors.len(), 3);
    assert_eq!(copy.elevators.len(), 2);
    assert_eq!(copy.floors[1].get_dest_floors(), vec![2]);
    assert_eq!(copy.elevators[1].get_dest_floors(), vec![2]);
    assert_eq!((copy.energy_total, copy.energy_ticks), (4, 2));
    assert_eq!((copy.wait_time_total, copy.wait_time_denom, copy.tot_tips, copy.p_in), (9, 3, 8, 500_000));
}

#[test]
fn a_tick_of_the_building_runs_every_step() {
    let mut rng = StdRng::seed_from_u64(12);
    let mut b = building(3, 1);
    b.elevators[0].people = vec![person(0, 0, 3), person(0, 2, 1)];
    b.floors[0].people = vec![person(0, 1, 2)];
    b.floors[0].capacity = 5;
    let samples: Vec<u64> = vec![50; 5];
    b.advance_tick(&mut rng, 0, 2, &samples);
    // the one who arrived is counted, the others wait one tick longer
    assert_eq!(b.wait_time_total, 3);
    assert_eq!(b.wait_time_denom, 1);
    assert_eq!(b.elevators[0].get_dest_floors(), vec![2, 1]);
    assert_eq!(
        b.elevators[0].people.iter().map(|p| p.wait_time).collect::<Vec<usize>>(),
        vec![2, 3]
    );
    // stopped elevator: the tick is accounted with no energy spent
    assert_eq!((b.energy_total, b.energy_ticks), (0, 1));
    assert_eq!(b.avg_energy(), 0);
    // ground floor: whoever of the one at rest and the two arrivals is still there
    assert!(b.floors[0].get_num_people() <= 3);
    assert!(b.floors[0].people.iter().all(|p| !p.is_leaving));
    assert_eq!(b.floors[1].dest_prob, FINE as u128);
    assert_eq!(b.floors[2].dest_prob, FINE as u128);
}

#[test]
fn a_new_building_is_ready_for_its_first_tick() {
    let b = building(3, 2);
    let samples: Vec<u64> = vec![50; FLOOR_CAPACITY];
    assert!(b.is_ready(0, &samples));
    assert!(!b.is_ready(1, &samples));
    let mut late = building(3, 2);
    late.energy_ticks = i32::MAX as u64 - 1;
    assert!(late.is_ready(i32::MAX - 1, &samples));
}

#[test]
fn a_building_is_not_ready_without_a_tick_number_to_come() {
    let b = building(3, 2);
    let samples: Vec<u64> = vec![50; FLOOR_CAPACITY];
    assert!(!b.is_ready(-1, &samples));
    let mut last = building(3, 2);
    last.energy_ticks = i32::MAX as u64;
    assert!(!last.is_ready(i32::MAX, &samples));
}

#[test]
fn a_building_is_not_ready_when_the_energy_account_would_overflow() {
    let samples: Vec<u64> = vec![50; FLOOR_CAPACITY];
    let most_per_elevator: u128 = (u32::MAX as u128) << 64;
    let mut b = building(3, 2);
    b.energy_total = u128::MAX - 2 * most_per_elevator;
    assert!(b.is_ready(0, &samples));
    b.energy_total = u128::MAX - 2 * most_per_elevator + 1;
    assert!(!b.is_ready(0, &samples));
}

#[test]
fn a_building_in_order_is_told_from_one_out_of_order() {
    let mut b = building(3, 2);
    assert!(b.is_wf());
    b.floors[1].people = vec![person(1, 2, 4), person(1, 1, 0)];
    b.elevators[0].people = vec![person(0, 0, 3), person(0, 2, 1)];
    assert!(b.is_wf());
    let mut wrong_floor = b.clone();
    wrong_floor.floors[1].people[0].floor_on = 2;
    assert!(!wrong_floor.is_wf());
    let mut no_such_floor = b.clone();
    no_such_floor.elevators[0].people[1].floor_to = 3;
    assert!(!no_such_floor.is_wf());
    let mut rested_with_a_wait = b.clone();
    rested_with_a_wait.floors[1].people[1].wait_time = 1;
    assert!(!rested_with_a_wait.is_wf());
    let mut too_full = b.clone();
    too_full.elevators[0].capacity = 1;
    assert!(!too_full.is_wf());
    let mut off_the_top = b.clone();
    off_the_top.elevators[1].floor_on = 3;
    assert!(!off_the_top.is_wf());
    let mut bad_chance = b.clone();
    bad_chance.floors[1].people[0].p_out = ONE + 1;
    assert!(!bad_chance.is_wf());
    let mut leaving_upwards = b.clone();
    leaving_upwards.floors[1].people[0].is_leaving = true;
    assert!(!leaving_upwards.is_wf());
    let mut account = b.clone();
    account.wait_time_total = 1;
    assert!(!account.is_wf());
    let mut energy = b.clone();
    energy.energy_total = 1;
    assert!(!energy.is_wf());
    energy.energy_ticks = 1;
    assert!(energy.is_wf());
    let mut no_floors = b.clone();
    no_floors.floors.clear();
    no_floors.elevators.clear();
    assert!(!no_floors.is_wf());
}

#[test]
fn no_arrivals_change_nothing() {
    let mut rng = StdRng::seed_from_u64(3);
    let mut b = building(3, 1);
    b.floors[0].people = vec![person(0, 2, 4)];
    b.gen_people_arriving(0, &mut rng);
    assert_eq!(b.floors[0].get_num_people(), 1);
    assert_eq!(b.floors[0].people[0].wait_time, 4);
}

#[test]
fn a_building_is_not_ready_with_too_few_tip_samples() {
    let b = building(3, 2);
    let samples: Vec<u64> = vec![50; FLOOR_CAPACITY - 1];
    assert!(!b.is_ready(0, &samples));
}

#[test]
fn a_building_is_not_ready_when_the_tips_would_overflow() {
    let mut b = building(3, 2);
    b.floors[0].capacity = 2;
    b.tot_tips = u64::MAX - 10;
    assert!(b.is_ready(0, &vec![5, 5]));
    assert!(!b.is_ready(0, &vec![5, 6]));
    assert!(!b.is_ready(0, &vec![u64::MAX, u64::MAX]));
}

#[test]
fn a_building_is_not_ready_with_a_wait_counter_at_its_limit() {
    let samples: Vec<u64> = vec![50; FLOOR_CAPACITY];
    let mut b = building(3, 2);
    b.floors[2].people = vec![person(2, 0, usize::MAX - 1)];
    assert!(b.is_ready(0, &samples));
    b.floors[2].people = vec![person(2, 0, usize::MAX)];
    assert!(!b.is_ready(0, &samples));
    let mut c = building(3, 2);
    c.elevators[1].people = vec![person(0, 2, usize::MAX)];
    assert!(!c.is_ready(0, &samples));
}

#[test]
fn a_building_is_not_ready_when_the_wait_account_would_overflow() {
    let samples: Vec<u64> = vec![50; FLOOR_CAPACITY];
    let mut b = building(3, 2);
    b.elevators[0].people = vec![person(0, 2, 0), person(0, 1, 0)];
    b.elevators[1].people = vec![person(0, 2, 0)];
    b.wait_time_denom = usize::MAX - 3;
    b.wait_time_total = 0;
    assert!(b.is_ready(0, &samples));
    b.wait_time_denom = usize::MAX - 2;
    assert!(!b.is_ready(0, &samples));
}

#[test]
fn headroom_of_a_group() {
    assert!(elevator_sim::building::have_headroom(&vec![person(0, 1, 5), person(0, 1, usize::MAX - 1)]));
    assert!(!elevator_sim::building::have_headroom(&vec![person(0, 1, 5), person(0, 0, usize::MAX)]));
    assert!(elevator_sim::building::have_headroom(&Vec::new()));
}
