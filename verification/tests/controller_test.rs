use elevator_sim::building::{Building, ConfigError, P_OUT, P_TIP};
use elevator_sim::controller::{ElevatorController, NearestController, RandomController};
use elevator_sim::people::People;
use elevator_sim::person::Person;
use elevator_sim::chance::ONE;
use rand::rngs::StdRng;
use rand::RngCore;
use rand::SeedableRng;

fn building(num_floors: usize, num_elevators: usize) -> Building {
    Building::from(num_floors, num_elevators, 500_000, 5_000, 2_500, 500).unwrap()
}

fn person(floor_on: usize, floor_to: usize) -> Person {
    Person { floor_on, floor_to, is_leaving: false, wait_time: 0, p_out: P_OUT, p_tip: P_TIP }
}

fn random_controller(b: Building, seed: u64, p_rational: u32) -> RandomController {
    match RandomController::from(b, StdRng::seed_from_u64(seed), p_rational) {
        Ok(c) => c,
        Err(e) => panic!("refused: {:?}", e),
    }
}

#[test]
fn a_chance_above_one_is_refused() {
    let made = RandomController::from(building(3, 1), StdRng::seed_from_u64(0), ONE + 1);
    assert!(matches!(made, Err(ConfigError::BadProbability)));
    let made = RandomController::from(building(3, 1), StdRng::seed_from_u64(0), ONE);
    assert!(made.is_ok());
}

#[test]
fn new_random_controller_has_no_targets() {
    let c = random_controller(building(4, 3), 1, 250_000);
    assert_eq!(c.floors_to, vec![None, None, None]);
    assert_eq!(c.num_floors, 4);
    assert_eq!(c.p_rational, 250_000);
    assert!(c.upgradable);
    assert!(c.can_be_upgraded());
}

#[test]
fn random_controller_from_a_building_alone_never_decides_well() {
    let c = match RandomController::from_building(building(4, 2)) {
        Ok(c) => c,
        Err(e) => panic!("refused: {:?}", e),
    };
    assert_eq!(c.p_rational, 0);
    assert_eq!(c.floors_to, vec![None, None]);
    assert!(c.can_be_upgraded());
}

#[test]
fn upgrading_by_three_tenths_reaches_one_and_stops_there() {
    let mut c = random_controller(building(3, 1), 1, 0);
    assert!(c.can_be_upgraded());
    c.upgrade(300_000);
    assert_eq!(c.p_rational, 300_000);
    assert!(c.can_be_upgraded());
    c.upgrade(300_000);
    assert_eq!(c.p_rational, 600_000);
    assert!(c.can_be_upgraded());
    c.upgrade(300_000);
    assert_eq!(c.p_rational, 900_000);
    assert!(c.can_be_upgraded());
    c.upgrade(300_000);
    assert_eq!(c.p_rational, ONE);
    assert!(!c.can_be_upgraded());
    c.upgrade(300_000);
    assert_eq!(c.p_rational, ONE);
    assert!(!c.can_be_upgraded());
}

#[test]
fn upgrading_by_the_largest_step_does_not_overflow() {
    let mut c = random_controller(building(3, 1), 1, 999_999);
    c.upgrade(u32::MAX);
    assert_eq!(c.p_rational, ONE);
    let mut d = random_controller(building(3, 1), 1, 5);
    d.upgrade(0);
    assert_eq!(d.p_rational, 5);
}

#[test]
fn a_policy_marked_as_final_cannot_be_upgraded() {
    let mut c = random_controller(building(3, 1), 1, 0);
    c.upgradable = false;
    assert!(!c.can_be_upgraded());
}

#[test]
fn nearest_controller_cannot_be_upgraded() {
    let mut c = NearestController::from(building(3, 1));
    assert!(!c.can_be_upgraded());
    c.upgrade(500_000);
    assert!(!c.can_be_upgraded());
    let d = NearestController::from_building(building(3, 1));
    assert!(!d.can_be_upgraded());
    assert_eq!(d.building.floors.len(), 3);
}

#[test]
fn the_building_can_be_read_changed_and_copied() {
    let mut c = NearestController::from(building(3, 1));
    assert_eq!(c.get_building().floors.len(), 3);
    c.get_building_mut().tot_tips = 4;
    assert_eq!(c.building.tot_tips, 4);
    let copy = c.clone_building();
    assert_eq!(copy.tot_tips, 4);
    let mut r = random_controller(copy, 3, 0);
    r.get_building_mut().tot_tips = 6;
    assert_eq!(r.get_building().tot_tips, 6);
    assert_eq!(r.clone_building().tot_tips, 6);
    assert_eq!(c.building.tot_tips, 4);
}

#[test]
fn nearest_goes_for_the_nearest_destination_aboard() {
    let mut b = building(8, 1);
    b.elevators[0].floor_on = 4;
    b.elevators[0].people = vec![person(4, 7), person(4, 2), person(4, 6)];
    b.floors[5].people = vec![person(5, 0)];
    let mut c = NearestController::from(b);
    c.update_elevators();
    let e = &c.building.elevators[0];
    assert!(!e.stopped && !e.moving_up);
    assert_eq!(e.floor_on, 3);
    assert!(e.people.iter().all(|p| p.floor_on == 3));
}

#[test]
fn nearest_goes_for_the_nearest_floor_with_someone_waiting_when_empty() {
    let mut b = building(8, 1);
    b.elevators[0].floor_on = 2;
    b.floors[5].people = vec![person(5, 0)];
    b.floors[0].people = vec![person(0, 3)];
    let mut c = NearestController::from(b);
    c.update_elevators();
    assert_eq!(c.building.elevators[0].floor_on, 1);
    assert!(!c.building.elevators[0].moving_up);
}

#[test]
fn nearest_stays_when_there_is_nothing_to_do() {
    let mut b = building(4, 2);
    b.elevators[1].floor_on = 2;
    let mut c = NearestController::from(b);
    c.update_elevators();
    assert!(c.building.elevators.iter().all(|e| e.stopped));
    assert_eq!(c.building.elevators[0].floor_on, 0);
    assert_eq!(c.building.elevators[1].floor_on, 2);
}

#[test]
fn nearest_stays_to_pick_up_those_waiting_where_it_is() {
    let mut b = building(4, 1);
    b.elevators[0].floor_on = 1;
    b.floors[1].people = vec![person(1, 3)];
    b.floors[2].people = vec![person(2, 0)];
    let mut c = NearestController::from(b);
    c.update_elevators();
    assert!(c.building.elevators[0].stopped);
    assert_eq!(c.building.elevators[0].floor_on, 1);
}

#[test]
fn a_moving_elevator_goes_on_until_it_has_to_stop() {
    let mut b = building(6, 1);
    b.elevators[0].people = vec![person(0, 3)];
    let mut c = NearestController::from(b);
    c.update_elevators();
    assert_eq!(c.building.elevators[0].floor_on, 1);
    c.update_elevators();
    assert_eq!(c.building.elevators[0].floor_on, 2);
    assert!(!c.building.elevators[0].stopped);
    c.update_elevators();
    assert_eq!(c.building.elevators[0].floor_on, 3);
    assert!(!c.building.elevators[0].stopped);
    // someone aboard wants to get off here
    c.update_elevators();
    assert_eq!(c.building.elevators[0].floor_on, 3);
    assert!(c.building.elevators[0].stopped);
}

#[test]
fn a_moving_elevator_stops_where_someone_waits() {
    let mut b = building(6, 1);
    b.elevators[0].people = vec![person(0, 5)];
    b.floors[2].people = vec![person(2, 4)];
    let mut c = NearestController::from(b);
    c.update_elevators();
    c.update_elevators();
    assert_eq!(c.building.elevators[0].floor_on, 2);
    c.update_elevators();
    assert_eq!(c.building.elevators[0].floor_on, 2);
    assert!(c.building.elevators[0].stopped);
}

#[test]
fn a_moving_elevator_stops_at_the_top_and_at_the_bottom() {
    let mut b = building(3, 2);
    b.elevators[0].floor_on = 2;
    b.elevators[0].moving_up = true;
    b.elevators[0].stopped = false;
    b.elevators[1].floor_on = 0;
    b.elevators[1].moving_up = false;
    b.elevators[1].stopped = false;
    let mut c = NearestController::from(b);
    c.update_elevators();
    assert!(c.building.elevators[0].stopped);
    assert_eq!(c.building.elevators[0].floor_on, 2);
    assert!(c.building.elevators[1].stopped);
    assert_eq!(c.building.elevators[1].floor_on, 0);
}

#[test]
fn always_rational_goes_where_nearest_would_from_a_standstill() {
    let mut b = building(8, 2);
    b.elevators[0].floor_on = 4;
    b.elevators[0].people = vec![person(4, 7), person(4, 2), person(4, 6)];
    b.floors[5].people = vec![person(5, 0)];
    b.elevators[1].floor_on = 6;
    let mut c = random_controller(b, 5, ONE);
    c.update_floors_to();
    assert_eq!(c.floors_to, vec![Some(2), Some(5)]);
    c.update_elevators();
    // the second elevator has arrived: its target is forgotten
    assert_eq!(c.floors_to, vec![Some(2), None]);
    assert_eq!(c.building.elevators[0].floor_on, 3);
    assert_eq!(c.building.elevators[1].floor_on, 5);
    assert!(!c.building.elevators[1].stopped);
    c.update_elevators();
    assert_eq!(c.floors_to, vec![None, None]);
    assert_eq!(c.building.elevators[0].floor_on, 2);
    assert_eq!(c.building.elevators[1].floor_on, 5);
    assert!(c.building.elevators[1].stopped);
}

#[test]
fn always_rational_idles_when_there_is_nothing_to_do() {
    let mut c = random_controller(building(5, 2), 5, ONE);
    for _ in 0..10 {
        c.update_elevators();
        assert!(c.building.elevators.iter().all(|e| e.stopped && e.floor_on == 0));
        assert_eq!(c.floors_to, vec![None, None]);
    }
}

#[test]
fn never_rational_keeps_to_floors_of_the_building() {
    let mut c = random_controller(building(4, 3), 9, 0);
    let mut seen = vec![false; 4];
    for _ in 0..300 {
        c.update_floors_to();
        for target in c.floors_to.iter() {
            let floor = target.unwrap();
            assert!(floor < 4);
            seen[floor] = true;
        }
        c.update_elevators();
        for e in c.building.elevators.iter() {
            assert!(e.floor_on < 4);
        }
    }
    assert_eq!(seen, vec![true, true, true, true]);
}

#[test]
fn a_target_is_kept_until_it_is_reached() {
    let mut c = random_controller(building(6, 1), 9, 0);
    c.floors_to = vec![Some(3)];
    c.update_elevators();
    assert_eq!(c.floors_to, vec![Some(3)]);
    c.update_elevators();
    assert_eq!(c.floors_to, vec![Some(3)]);
    c.update_elevators();
    assert_eq!(c.building.elevators[0].floor_on, 3);
    assert_eq!(c.floors_to, vec![None]);
}

#[test]
fn targets_reached_are_forgotten() {
    let mut b = building(6, 3);
    b.elevators[0].floor_on = 2;
    b.elevators[1].floor_on = 4;
    let mut c = random_controller(b, 9, 0);
    c.floors_to = vec![Some(2), Some(5), None];
    c.clear_floors_to();
    assert_eq!(c.floors_to, vec![None, Some(5), None]);
}

#[test]
fn a_building_that_grows_gets_targets_for_its_new_elevators() {
    let mut c = random_controller(building(2, 1), 9, 0);
    c.get_building_mut().elevators.push(elevator_sim::elevator::Elevator::from(4, 1, 1, 1));
    elevator_sim::floors::Floors::append_floor(c.get_building_mut(), 10);
    c.update_floors_to();
    assert_eq!(c.floors_to.len(), 2);
    assert_eq!(c.num_floors, 3);
    assert!(c.floors_to.iter().all(|t| t.unwrap() < 3));
}

fn run_nearest(seed: u64, ticks: i32, arrivals: &[usize]) -> Vec<(u128, u128, u64)> {
    let mut rng = StdRng::seed_from_u64(seed);
    let mut c = NearestController::from(building(5, 2));
    let samples: Vec<u64> = vec![50; 100];
    let mut trajectory = Vec::new();
    for t in 0..ticks {
        let n = arrivals[t as usize % arrivals.len()];
        c.advance_tick(&mut rng, t, n, &samples);
        let b = c.get_building();
        trajectory.push((b.avg_energy(), b.avg_wait_time(), b.tot_tips));
    }
    trajectory
}

fn run_random(seed: u64, ticks: i32, arrivals: &[usize]) -> Vec<(u128, u128, u64)> {
    let mut rng = StdRng::seed_from_u64(seed);
    let mut c = random_controller(building(5, 2), seed + 1, 300_000);
    let samples: Vec<u64> = vec![50; 100];
    let mut trajectory = Vec::new();
    for t in 0..ticks {
        let n = arrivals[t as usize % arrivals.len()];
        c.advance_tick(&mut rng, t, n, &samples);
        let b = c.get_building();
        trajectory.push((b.avg_energy(), b.avg_wait_time(), b.tot_tips));
    }
    trajectory
}

#[test]
fn fifty_ticks_without_arrivals_leave_everything_at_zero() {
    let mut rng = StdRng::seed_from_u64(3);
    let b = Building::from(2, 1, 1, 5_000, 2_500, 500).unwrap();
    let mut c = NearestController::from(b);
    let samples: Vec<u64> = vec![50; 100];
    for t in 0..50 {
        c.advance_tick(&mut rng, t, 0, &samples);
        let b = c.get_building();
        assert!(b.floors.iter().all(|f| f.get_num_people() == 0));
        assert!(b.elevators.iter().all(|e| e.get_num_people() == 0));
        assert_eq!(b.energy_total, 0);
        assert_eq!(b.avg_energy(), 0);
        assert_eq!(b.avg_wait_time(), 0);
        assert_eq!(b.tot_tips, 0);
    }
    assert_eq!(c.get_building().energy_ticks, 50);
    assert!(c.is_in_order());
}

#[test]
fn a_leaving_passenger_draws_nothing() {
    let mut drawn = StdRng::seed_from_u64(77);
    let mut untouched = StdRng::seed_from_u64(77);
    let mut p = Person { is_leaving: true, ..person(3, 0) };
    for _ in 0..10 {
        assert!(p.gen_is_leaving(&mut drawn));
    }
    assert_eq!(drawn.next_u64(), untouched.next_u64());
}

#[test]
fn a_policy_out_of_order_is_told() {
    let mut c = random_controller(building(4, 2), 9, 0);
    assert!(c.is_in_order());
    c.floors_to = vec![Some(3), None];
    assert!(c.is_in_order());
    c.floors_to = vec![Some(4), None];
    assert!(!c.is_in_order());
    c.floors_to = vec![None, None, None];
    assert!(!c.is_in_order());
    c.floors_to = vec![None];
    c.p_rational = ONE + 1;
    assert!(!c.is_in_order());
    c.p_rational = ONE;
    assert!(c.is_in_order());
    c.building.elevators[0].floor_on = 4;
    assert!(!c.is_in_order());
    let mut n = NearestController::from(building(4, 2));
    assert!(n.is_in_order());
    n.building.floors[0].capacity = 0;
    n.building.floors[0].people = vec![person(0, 0)];
    assert!(!n.is_in_order());
}

#[test]
fn two_runs_with_one_seed_go_the_same_way() {
    let arrivals = [0, 2, 1, 0, 3, 0, 0, 1];
    assert_eq!(run_nearest(42, 200, &arrivals), run_nearest(42, 200, &arrivals));
    assert_eq!(run_random(42, 200, &arrivals), run_random(42, 200, &arrivals));
}

#[test]
fn a_run_moves_people_and_spends_energy() {
    let arrivals = [1, 2, 0, 1];
    let trajectory = run_nearest(7, 300, &arrivals);
    let last = trajectory[trajectory.len() - 1];
    assert!(last.0 > 0);
    assert!(last.1 > 0);
    assert!(last.2 > 0);
}

#[test]
fn a_run_keeps_the_building_in_order() {
    let mut rng = StdRng::seed_from_u64(99);
    let mut c = random_controller(building(6, 3), 100, 500_000);
    let samples: Vec<u64> = vec![50; 100];
    for t in 0..300 {
        assert!(c.is_in_order());
        assert!(c.get_building().is_ready(t, &samples));
        c.advance_tick(&mut rng, t, (t % 4) as usize, &samples);
        let b = c.get_building();
        for (i, f) in b.floors.iter().enumerate() {
            assert!(f.get_num_people() <= f.capacity);
            assert!(f.people.iter().all(|p| p.floor_on == i && p.floor_to < 6));
            assert!(f.people.iter().all(|p| !p.is_leaving || p.floor_to == 0));
        }
        for e in b.elevators.iter() {
            assert!(e.floor_on < 6);
            assert!(e.get_num_people() <= e.capacity);
            assert!(e.people.iter().all(|p| p.floor_on == e.floor_on && p.floor_to < 6));
        }
    }
}

#[test]
fn two_policies_seeded_by_the_system_draw_apart() {
    let mut a = match RandomController::from_building(building(1000, 8)) {
        Ok(c) => c,
        Err(e) => panic!("refused: {:?}", e),
    };
    let mut b = match RandomController::from_building(building(1000, 8)) {
        Ok(c) => c,
        Err(e) => panic!("refused: {:?}", e),
    };
    a.update_floors_to();
    b.update_floors_to();
    assert_ne!(a.floors_to, b.floors_to);
}

#[test]
fn target_once_the_draws_are_made() {
    let mut b = building(8, 1);
    b.elevators[0].floor_on = 4;
    b.elevators[0].people = vec![person(4, 7), person(4, 2), person(4, 6)];
    assert_eq!(b.target_after_draw(0, true, None), 2);
    assert_eq!(b.target_after_draw(0, true, Some(5)), 2);
    assert_eq!(b.target_after_draw(0, false, Some(5)), 5);
    assert_eq!(b.target_after_draw(0, false, Some(0)), 0);
    assert_eq!(b.rational_target(0), 2);
    assert_eq!(b.nearest_target(0), 2);
    assert_eq!(b.idle_target(0), 2);
}

#[test]
fn a_policy_that_never_decides_well_does_not_stay_on_the_ground_floor() {
    let mut c = random_controller(building(6, 4), 21, 0);
    let mut above = 0;
    for _ in 0..50 {
        c.update_floors_to();
        above += c.floors_to.iter().filter(|t| t.unwrap() > 0).count();
        c.floors_to = vec![None; 4];
    }
    assert!(above > 100);
}
