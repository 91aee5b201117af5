use elevator_sim::elevator::Elevator;
use elevator_sim::elevators::{lists_floor, Elevators};
use elevator_sim::nearest::floors_between;
use elevator_sim::people::People;
use elevator_sim::person::Person;

fn rider(floor_on: usize, floor_to: usize, wait_time: usize) -> Person {
    Person { floor_on, floor_to, is_leaving: false, wait_time, p_out: 50_000, p_tip: 500_000 }
}

fn elevator_at(floor: usize, dests: &[usize]) -> Elevator {
    let mut e = Elevator::from(10, 5, 2, 1);
    e.floor_on = floor;
    let mut people: Vec<Person> = Vec::new();
    for d in dests {
        people.push(rider(floor, *d, 0));
    }
    e.extend(people);
    e
}

#[test]
fn new_elevator_is_empty_and_stopped_on_the_ground_floor() {
    let e = Elevator::from(8, 5, 2, 1);
    assert_eq!(e.floor_on, 0);
    assert!(e.stopped);
    assert!(!e.moving_up);
    assert_eq!(e.capacity, 8);
    assert_eq!(e.get_num_people(), 0);
    assert_eq!(e.get_free_capacity(), 8);
    assert_eq!((e.energy_up, e.energy_down, e.energy_coef), (5, 2, 1));
}

#[test]
fn energy_is_zero_when_stopped() {
    let e = elevator_at(3, &[1, 2, 4]);
    assert!(e.stopped);
    assert_eq!(e.get_energy_spent(), 0);
}

#[test]
fn energy_moving_up_is_the_base_plus_the_load() {
    let mut e = Elevator::from(10, 5_000, 2_500, 500);
    e.extend(vec![rider(0, 3, 0), rider(0, 3, 0), rider(0, 2, 0)]);
    e.update_direction(3);
    assert_eq!(e.get_energy_spent(), 5_000 + 500 * 3);
}

#[test]
fn energy_moving_down_is_the_base_plus_the_load() {
    let mut e = Elevator::from(10, 5_000, 2_500, 500);
    e.floor_on = 4;
    e.extend(vec![rider(4, 0, 0), rider(4, 1, 0)]);
    e.update_direction(0);
    assert_eq!(e.get_energy_spent(), 2_500 + 500 * 2);
}

#[test]
fn energy_of_an_empty_moving_elevator_is_the_base() {
    let mut e = Elevator::from(10, 7, 3, 100);
    e.update_direction(2);
    assert_eq!(e.get_energy_spent(), 7);
}

#[test]
fn energy_does_not_overflow_with_the_largest_costs() {
    let mut e = Elevator::from(10, u32::MAX, u32::MAX, u32::MAX);
    e.extend(vec![rider(0, 1, 0), rider(0, 1, 0)]);
    e.update_direction(1);
    assert_eq!(e.get_energy_spent(), 3 * (u32::MAX as u128));
}

#[test]
fn direction_follows_the_target() {
    let mut e = elevator_at(3, &[]);
    e.update_direction(5);
    assert!(!e.stopped && e.moving_up);
    e.update_direction(1);
    assert!(!e.stopped && !e.moving_up);
    e.update_direction(3);
    assert!(e.stopped);
    assert!(!e.moving_up);
}

#[test]
fn a_stopped_elevator_stays() {
    let mut e = elevator_at(3, &[1]);
    assert_eq!(e.update_floor(), 3);
    assert_eq!(e.floor_on, 3);
    assert_eq!(e.people[0].floor_on, 3);
}

#[test]
fn a_moving_elevator_moves_one_floor_and_takes_everyone_along() {
    let mut e = elevator_at(3, &[5, 6]);
    e.update_direction(5);
    assert_eq!(e.update_floor(), 4);
    assert_eq!(e.floor_on, 4);
    assert!(e.people.iter().all(|p| p.floor_on == 4));
    e.update_direction(0);
    assert_eq!(e.update_floor(), 3);
    assert_eq!(e.update_floor(), 2);
    assert!(e.people.iter().all(|p| p.floor_on == 2));
    assert_eq!(e.get_dest_floors(), vec![5, 6]);
}

#[test]
fn nearest_destination_of_an_empty_elevator() {
    let e = elevator_at(4, &[]);
    assert_eq!(e.get_nearest_dest_floor(), (0, 0));
}

#[test]
fn nearest_destination_is_the_nearest() {
    let e = elevator_at(4, &[9, 5, 0]);
    assert_eq!(e.get_nearest_dest_floor(), (5, 1));
}

#[test]
fn nearest_destination_among_equally_near_is_the_first_met() {
    // distances 3, 3 and 5 from floor 5
    let e = elevator_at(5, &[2, 8, 10]);
    assert_eq!(e.get_nearest_dest_floor(), (2, 3));
    let f = elevator_at(5, &[8, 2, 10]);
    assert_eq!(f.get_nearest_dest_floor(), (8, 3));
    let g = elevator_at(5, &[10, 8, 2]);
    assert_eq!(g.get_nearest_dest_floor(), (8, 3));
}

#[test]
fn nearest_destination_may_be_the_floor_itself() {
    let e = elevator_at(5, &[5, 6]);
    assert_eq!(e.get_nearest_dest_floor(), (5, 0));
    let f = elevator_at(5, &[6, 5]);
    assert_eq!(f.get_nearest_dest_floor(), (5, 0));
}

#[test]
fn floors_between_two_floors() {
    assert_eq!(floors_between(2, 7), 5);
    assert_eq!(floors_between(7, 2), 5);
    assert_eq!(floors_between(4, 4), 0);
}

#[test]
fn getting_off_only_while_stopped() {
    let mut e = elevator_at(3, &[3, 4, 3]);
    e.update_direction(4);
    let nobody = e.flush_people_leaving_elevator();
    assert!(nobody.is_empty());
    assert_eq!(e.get_num_people(), 3);
    e.update_direction(3);
    let off = e.flush_people_leaving_elevator();
    assert_eq!(off.len(), 2);
    assert!(off.iter().all(|p| p.floor_to == 3));
    assert_eq!(e.get_dest_floors(), vec![4]);
}

#[test]
fn elevator_takes_people_up_to_its_capacity() {
    let mut e = Elevator::from(2, 1, 1, 1);
    e.extend(vec![rider(0, 1, 0), rider(0, 2, 0), rider(0, 3, 0)]);
    assert_eq!(e.get_dest_floors(), vec![1, 2]);
    assert_eq!(e.get_free_capacity(), 0);
}

#[test]
fn elevator_answers_for_its_people() {
    let mut e = elevator_at(2, &[2, 4, 4]);
    e.people[1].wait_time = 6;
    assert_eq!(e.get_num_people_waiting(), 2);
    assert_eq!(e.get_num_people_going_to_floor(4), 2);
    assert_eq!(e.get_aggregate_wait_time(), 6);
    assert!(e.are_people_waiting());
    assert!(e.are_people_going_to_floor(2));
    assert!(!e.are_people_going_to_floor(3));
    e.increment_wait_times();
    assert_eq!(e.get_aggregate_wait_time(), 8);
    e.people[0].wait_time = 3;
    e.reset_wait_times();
    assert_eq!(e.people[0].wait_time, 0);
    assert_eq!(e.people[1].wait_time, 7);
}

#[test]
fn elevator_clone_holds_the_same() {
    let mut e = elevator_at(2, &[4]);
    e.update_direction(4);
    let copy = e.clone();
    assert_eq!(copy.floor_on, 2);
    assert!(copy.moving_up && !copy.stopped);
    assert_eq!(copy.get_dest_floors(), vec![4]);
    assert_eq!((copy.capacity, copy.energy_up, copy.energy_down, copy.energy_coef), (10, 5, 2, 1));
}

#[test]
fn destinations_across_elevators_are_listed_once_in_the_order_met() {
    let elevators = vec![elevator_at(0, &[3, 1, 3]), elevator_at(2, &[]), elevator_at(1, &[1, 4, 3, 0])];
    assert_eq!(elevators.get_dest_floors(), vec![3, 1, 4, 0]);
    let none: Vec<Elevator> = Vec::new();
    assert_eq!(none.get_dest_floors(), Vec::<usize>::new());
}

#[test]
fn listing_a_floor() {
    let floors = vec![3, 1, 4];
    assert!(lists_floor(&floors, 4));
    assert!(!lists_floor(&floors, 2));
}

#[test]
fn energy_across_elevators_adds_up() {
    let mut elevators = vec![elevator_at(0, &[3, 3]), elevator_at(2, &[0]), elevator_at(1, &[])];
    elevators[0].update_direction(3);
    elevators[1].update_direction(0);
    // up: 5 + 1 * 2, down: 2 + 1 * 1, stopped: 0
    assert_eq!(elevators.get_energy_spent(), 7 + 3);
}

#[test]
fn every_elevator_takes_its_step() {
    let mut elevators = vec![elevator_at(0, &[3]), elevator_at(2, &[0]), elevator_at(1, &[])];
    elevators[0].update_direction(3);
    elevators[1].update_direction(0);
    elevators.update_floors();
    assert_eq!(elevators.iter().map(|e| e.floor_on).collect::<Vec<usize>>(), vec![1, 1, 1]);
    assert_eq!(elevators[0].people[0].floor_on, 1);
    assert_eq!(elevators[1].people[0].floor_on, 1);
}

#[test]
fn a_tick_passes_aboard_every_elevator() {
    let mut elevators = vec![elevator_at(0, &[3, 0]), elevator_at(2, &[0])];
    Elevators::increment_wait_times(&mut elevators);
    assert_eq!(elevators[0].people[0].wait_time, 1);
    assert_eq!(elevators[0].people[1].wait_time, 0);
    assert_eq!(elevators[1].people[0].wait_time, 1);
}

#[test]
fn an_elevator_is_added() {
    let mut elevators = vec![elevator_at(3, &[1])];
    elevators.append_elevator(6, 9, 8, 7);
    assert_eq!(elevators.len(), 2);
    assert_eq!(elevators[1].floor_on, 0);
    assert!(elevators[1].stopped);
    assert_eq!(elevators[1].capacity, 6);
    assert_eq!((elevators[1].energy_up, elevators[1].energy_down, elevators[1].energy_coef), (9, 8, 7));
    assert_eq!(elevators[0].floor_on, 3);
}

#[test]
fn elevator_capacities_change_together() {
    let mut elevators = vec![elevator_at(0, &[3, 1]), elevator_at(2, &[0])];
    Elevators::update_capacities(&mut elevators, 2);
    assert_eq!(elevators.iter().map(|e| e.capacity).collect::<Vec<usize>>(), vec![2, 2]);
}

#[test]
fn a_capacity_below_the_occupancy_of_one_elevator_is_refused_on_all() {
    let mut elevators = vec![elevator_at(0, &[3, 1, 2]), elevator_at(2, &[0])];
    Elevators::update_capacities(&mut elevators, 2);
    assert_eq!(elevators.iter().map(|e| e.capacity).collect::<Vec<usize>>(), vec![10, 10]);
    assert_eq!(elevators[0].get_dest_floors(), vec![3, 1, 2]);
    assert_eq!(elevators[1].get_dest_floors(), vec![0]);
}
