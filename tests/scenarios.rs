use hashcode2021::greedy::GreedyImprover;
use hashcode2021::improve::{Improver, IncrementalImprover};
use hashcode2021::intersect::{queue_order, reorder_intersection};
use hashcode2021::load::ParseError;
use hashcode2021::naive::Naive;
use hashcode2021::phased::PhasedImprover;
use hashcode2021::adapt::AdaptiveScheduler;
use hashcode2021::incr::IncrementalScheduler;
use hashcode2021::sched::{Intersection, Schedule, Scheduler};
use hashcode2021::shuffle::{bounded_factorial, ShuffleImprover};
use hashcode2021::sums::AllSums;
use hashcode2021::Simulation;
use std::collections::VecDeque;
use std::sync::atomic::AtomicBool;
use std::sync::Arc;

const SINGLE_CAR: &str = "6 2 2 1 1000\n0 1 a 1\n1 0 b 2\n2 a b\n";

const CONTENDING: &str = "4 2 2 2 100\n0 1 a 1\n0 1 c 1\n1 a\n1 a\n";

// Three streets x, y, z into intersection 1, whose first cars reach the
// light at times 1, 3 and 0.
const THREE_WAY: &str = "10 2 6 3 100\n\
0 1 x 1\n\
0 1 y 2\n\
0 1 z 1\n\
1 0 o 1\n\
1 0 p 1\n\
1 0 q 1\n\
2 z o\n\
3 p x o\n\
3 q y o\n";

fn sim_of(text: &str) -> Simulation {
    Simulation::parse(text).unwrap()
}

fn names(sched: &Schedule, inter_id: u32) -> Vec<(String, u32)> {
    sched.intersections[&inter_id]
        .turns
        .iter()
        .map(|&(s, t)| (sched.simulation.streets[s].name.clone(), t))
        .collect()
}

#[test]
fn single_car_single_intersection() {
    let sim = sim_of(SINGLE_CAR);
    let mut sched = Schedule::new(&sim);
    sched.load_from_str("1\n1\n1\na 1\n").unwrap();
    let stats = sched.stats().unwrap();
    assert_eq!(stats.score, 1004);
    assert_eq!(stats.num_arrived_cars, 1);
    assert_eq!(stats.earliest_arrival, 2);
    assert_eq!(stats.latest_arrival, 2);
    assert!(stats.crossed_streets.contains(&0));
    assert_eq!(stats.crossed_streets.len(), 1);
    assert!(stats.total_wait_time.is_empty());
}

#[test]
fn two_cars_on_their_last_street_arrive_at_once() {
    let sim = sim_of(CONTENDING);
    let mut sched = Schedule::new(&sim);
    sched.load_from_str("1\n1\n2\na 1\nc 1\n").unwrap();
    let stats = sched.stats().unwrap();
    assert_eq!(stats.score, 208);
    assert_eq!(stats.num_arrived_cars, 2);
}

#[test]
fn reorder_puts_first_arrivals_first() {
    let sim = sim_of(THREE_WAY);
    let mut sched = Schedule::new(&sim);
    sched
        .load_from_str("2\n0\n2\np 1\nq 1\n1\n3\nx 1\ny 2\nz 3\n")
        .unwrap();
    let before = sched.stats().unwrap().score;
    let score = reorder_intersection(&mut sched, 1);
    let turns = names(&sched, 1);
    assert_eq!(
        turns,
        vec![("z".to_string(), 3), ("x".to_string(), 1), ("y".to_string(), 2)]
    );
    let mut times: Vec<u32> = turns.iter().map(|p| p.1).collect();
    times.sort();
    assert_eq!(times, vec![1, 2, 3]);
    assert_eq!(score, sched.stats().unwrap().score);
    assert!(score >= before);
    assert_eq!(sched.intersections[&0].turns, vec![(4, 1), (5, 1)]);
}

#[test]
fn empty_intersection_is_never_green() {
    let sim = sim_of(SINGLE_CAR);
    let mut sched = Schedule::new(&sim);
    sched.load_from_str("1\n1\n0\n").unwrap();
    for t in 0..20 {
        assert!(!sched.is_green(1, 0, t));
    }
    let stats = sched.stats().unwrap();
    assert_eq!(stats.score, 0);
    assert_eq!(stats.num_arrived_cars, 0);
    assert_eq!(stats.total_wait_time[&0], 7);
}

#[test]
fn subset_sums_witness() {
    let mut sums = AllSums::new();
    sums.add(2);
    sums.add(3);
    sums.add(5);
    assert!(sums.contains_any(8, 10));
    let w = sums.get_min_sum_values(8, 10).unwrap();
    assert_eq!(w.iter().sum::<u32>(), 8);
    let mut sorted = w.clone();
    sorted.sort();
    assert_eq!(sorted, vec![3, 5]);
    assert!(!sums.contains_any(11, 11));
    assert!(sums.get_min_sum_values(11, 11).is_none());
    assert!(sums.contains_any(7, 7));
}

#[test]
fn empty_subset_sums_hold_zero() {
    let sums = AllSums::new();
    assert!(sums.contains_any(0, 0));
    assert_eq!(sums.get_min_sum_values(0, 0), Some(vec![]));
    assert!(!sums.contains_any(1, 5));
}

#[test]
fn simulation_of_a_clone_is_the_same() {
    let sim = sim_of(THREE_WAY);
    let mut sched = Schedule::new(&sim);
    sched
        .load_from_str("2\n0\n2\np 1\nq 1\n1\n3\nx 1\ny 2\nz 3\n")
        .unwrap();
    let a = sched.stats().unwrap();
    let b = sched.clone().stats().unwrap();
    assert_eq!(a.score, b.score);
    assert_eq!(a.total_wait_time, b.total_wait_time);
    assert_eq!(a.crossed_streets, b.crossed_streets);
    assert_eq!(a.num_arrived_cars, b.num_arrived_cars);
    assert_eq!(a.earliest_arrival, b.earliest_arrival);
    assert_eq!(a.latest_arrival, b.latest_arrival);
}

#[test]
fn at_most_one_green_street_per_intersection() {
    let sim = sim_of(THREE_WAY);
    let mut sched = Schedule::new(&sim);
    sched.load_from_str("1\n1\n3\nx 1\ny 2\nz 3\n").unwrap();
    for t in 0..30 {
        let green = (0..3).filter(|&s| sched.is_green(1, s, t)).count();
        assert_eq!(green, 1);
    }
    assert!(sched.is_green(1, 0, 0));
    assert!(sched.is_green(1, 1, 1));
    assert!(sched.is_green(1, 1, 2));
    assert!(sched.is_green(1, 2, 5));
    assert!(sched.is_green(1, 0, 6));
}

#[test]
fn crossed_streets_lie_on_paths() {
    let sim = sim_of(THREE_WAY);
    let mut sched = Schedule::new(&sim);
    sched
        .load_from_str("2\n0\n2\np 1\nq 1\n1\n3\nx 1\ny 2\nz 3\n")
        .unwrap();
    let stats = sched.stats().unwrap();
    for s in stats.crossed_streets.iter() {
        assert!(sim.car_paths.iter().any(|p| p[..p.len() - 1].contains(s)));
    }
    assert_eq!(stats.num_arrived_cars, 3);
}

#[test]
fn schedule_text_round_trip() {
    let sim = sim_of(THREE_WAY);
    let mut sched = Schedule::new(&sim);
    sched
        .load_from_str("2\n1\n3\ny 2\nz 3\nx 1\n0\n1\np 4\n")
        .unwrap();
    let text = sched.to_text();
    assert_eq!(text, "2\n0\n1\np 4\n1\n3\ny 2\nz 3\nx 1\n");
    let mut again = Schedule::new(&sim);
    again.load_from_str(&text).unwrap();
    assert_eq!(again.intersections[&1].turns, sched.intersections[&1].turns);
    assert_eq!(again.intersections[&0].turns, sched.intersections[&0].turns);
    assert_eq!(again.intersections[&1].cycle(), 6);
}

#[test]
fn instance_parse_reads_every_field() {
    let sim = sim_of(SINGLE_CAR);
    assert_eq!(sim.duration, 6);
    assert_eq!(sim.num_intersections, 2);
    assert_eq!(sim.bonus, 1000);
    assert_eq!(sim.streets.len(), 2);
    assert_eq!(sim.streets[1].name, "b");
    assert_eq!(sim.streets[1].start_insersection, 1);
    assert_eq!(sim.streets[1].end_intersection, 0);
    assert_eq!(sim.streets[1].travel_time, 2);
    assert_eq!(sim.car_paths, vec![vec![0, 1]]);
    assert_eq!(sim.max_theoretical_score(), 1004);
}

#[test]
fn instance_parse_errors() {
    assert_eq!(Simulation::parse("").err(), Some(ParseError::MissingFirstLine));
    assert_eq!(
        Simulation::parse("6 2 x 1 1000\n").err(),
        Some(ParseError::InvalidNumber { line: 1 })
    );
    assert_eq!(
        Simulation::parse("6 2 2 1\n").err(),
        Some(ParseError::WrongFieldCount { line: 1 })
    );
    assert_eq!(
        Simulation::parse("6 2 2 1 1000\n0 1 a 1\n").err(),
        Some(ParseError::MissingLine { line: 3 })
    );
    assert_eq!(
        Simulation::parse("6 2 2 1 1000\n0 1 a 1\n1 0 b\n2 a b\n").err(),
        Some(ParseError::WrongFieldCount { line: 3 })
    );
    assert_eq!(
        Simulation::parse("6 2 2 1 1000\n0 1 a 1\n1 5 b 2\n2 a b\n").err(),
        Some(ParseError::IntersectionOutOfRange { line: 3 })
    );
    assert_eq!(
        Simulation::parse("6 2 2 1 1000\n0 1 a 1\n1 0 b 0\n2 a b\n").err(),
        Some(ParseError::ZeroTime { line: 3 })
    );
    assert_eq!(
        Simulation::parse("6 2 2 1 1000\n0 1 a 1\n1 0 b 2\n2 a c\n").err(),
        Some(ParseError::UnknownStreet { line: 4 })
    );
    assert_eq!(
        Simulation::parse("6 2 2 1 1000\n0 1 a 1\n1 0 b 2\n3 a b\n").err(),
        Some(ParseError::WrongFieldCount { line: 4 })
    );
    assert_eq!(
        Simulation::parse("6 2 2 1 1000\n0 1 a 1\n1 0 b 2\n").err(),
        Some(ParseError::MissingLine { line: 4 })
    );
    assert_eq!(
        Simulation::parse("4294967295 2 2 1 1000\n0 1 a 1\n1 0 b 2\n2 a b\n").err(),
        Some(ParseError::TooLarge { line: 1 })
    );
    assert_eq!(
        Simulation::parse("6 2 2 1 4294967296\n").err(),
        Some(ParseError::InvalidNumber { line: 1 })
    );
}

#[test]
fn schedule_parse_errors() {
    let sim = sim_of(THREE_WAY);
    let mut sched = Schedule::new(&sim);
    sched.load_from_str("1\n1\n1\nx 1\n").unwrap();
    let before = sched.intersections[&1].turns.clone();
    assert_eq!(sched.load_from_str(""), Err(ParseError::MissingFirstLine));
    assert_eq!(sched.load_from_str("one\n"), Err(ParseError::InvalidNumber { line: 1 }));
    assert_eq!(
        sched.load_from_str("1\n5\n1\nx 1\n"),
        Err(ParseError::IntersectionOutOfRange { line: 2 })
    );
    assert_eq!(
        sched.load_from_str("1\n1\n2\nx 1\n"),
        Err(ParseError::MissingLine { line: 5 })
    );
    assert_eq!(
        sched.load_from_str("1\n1\n1\nw 1\n"),
        Err(ParseError::UnknownStreet { line: 4 })
    );
    assert_eq!(
        sched.load_from_str("1\n1\n2\nx 1\nx 2\n"),
        Err(ParseError::DuplicateStreet { line: 5 })
    );
    assert_eq!(
        sched.load_from_str("1\n1\n1\nx\n"),
        Err(ParseError::WrongFieldCount { line: 4 })
    );
    assert_eq!(
        sched.load_from_str("1\n1\n1\nx 0\n"),
        Err(ParseError::ZeroTime { line: 4 })
    );
    assert_eq!(
        sched.load_from_str("1\n1\n2\nx 4294967295\ny 1\n"),
        Err(ParseError::TooLarge { line: 5 })
    );
    assert_eq!(sched.load_from_str("1\n"), Err(ParseError::MissingLine { line: 2 }));
    assert_eq!(sched.intersections[&1].turns, before);
}

#[test]
fn intersection_phase_edits() {
    let mut inter = Intersection::new(3, 2);
    inter.add_street(5, 1);
    assert_eq!(inter.cycle(), 3);
    inter.add_street_time(5, 2);
    assert_eq!(inter.turns, vec![(3, 2), (5, 3)]);
    inter.add_street_time(7, 1);
    assert_eq!(inter.turns, vec![(3, 2), (5, 3), (7, 1)]);
    assert_eq!(inter.cycle(), 6);
    inter.sub_street_time(5, 1);
    assert_eq!(inter.turns, vec![(3, 2), (5, 2), (7, 1)]);
    inter.sub_street_time(3, 2);
    assert_eq!(inter.turns, vec![(5, 2), (7, 1)]);
    assert_eq!(inter.cycle(), 3);
    assert_eq!(inter.get_street_time(7), Some(1));
    assert_eq!(inter.get_street_time(3), None);
    assert!(inter.is_green(5, 0));
    assert!(inter.is_green(5, 1));
    assert!(inter.is_green(7, 2));
    assert!(inter.is_green(5, 3));
}

#[test]
fn schedule_phase_edits() {
    let sim = sim_of(THREE_WAY);
    let mut sched = Schedule::new(&sim);
    sched.add_street(1, 0, 1);
    sched.add_street(1, 1, 2);
    assert_eq!(sched.num_streets_in_intersection(0), 2);
    assert!(!sched.is_street_always_green(0));
    sched.add_street_time(2, 3);
    assert_eq!(sched.intersections[&1].turns, vec![(0, 1), (1, 2), (2, 3)]);
    sched.add_street_time(0, 1);
    assert_eq!(sched.intersections[&1].turns, vec![(0, 2), (1, 2), (2, 3)]);
    sched.sub_street_time(1, 5);
    assert_eq!(sched.intersections[&1].turns, vec![(0, 2), (2, 3)]);
    assert_eq!(sched.get_intersection_id(4), Some(0));
    assert_eq!(sched.get_intersection_id(9), None);
    sched.add_street(0, 4, 1);
    assert!(sched.is_street_always_green(4));
    sched.reset_intersection(1);
    assert!(!sched.intersections.contains_key(&1));
    assert!(!sched.is_green(1, 0, 0));
}

#[test]
fn shuffle_keeps_phases_and_changes_order() {
    let sim = sim_of("10 2 5 0 1\n0 1 a 1\n0 1 b 1\n0 1 c 1\n0 1 d 1\n0 1 e 1\n");
    let mut sched = Schedule::new(&sim);
    for s in 0..5 {
        sched.add_street(1, s, s as u32 + 1);
    }
    let initial = sched.intersections[&1].turns.clone();
    let mut changed = false;
    for _ in 0..50 {
        sched.shuffle_intersection(0);
        let mut now = sched.intersections[&1].turns.clone();
        if now != initial {
            changed = true;
        }
        now.sort();
        assert_eq!(now, initial);
        assert_eq!(sched.intersections[&1].cycle(), 15);
    }
    assert!(changed);
}

#[test]
fn factorial_is_bounded() {
    assert_eq!(bounded_factorial(0, 10), 1);
    assert_eq!(bounded_factorial(1, 10), 1);
    assert_eq!(bounded_factorial(3, 10), 6);
    assert_eq!(bounded_factorial(4, 10), 10);
    assert_eq!(bounded_factorial(5, 200), 120);
    assert_eq!(bounded_factorial(30, usize::MAX), usize::MAX);
}

#[test]
fn queues_are_visited_longest_first() {
    let queues: Vec<VecDeque<usize>> = vec![
        vec![1].into_iter().collect(),
        VecDeque::new(),
        vec![2, 3].into_iter().collect(),
        vec![4].into_iter().collect(),
    ];
    assert_eq!(queue_order(&queues), vec![2, 0, 3]);
}

#[test]
fn naive_schedule_gives_each_crossed_street_a_second() {
    let sim = sim_of(THREE_WAY);
    let sched = Naive {}.schedule(&sim);
    assert_eq!(sched.intersections[&1].turns, vec![(0, 1), (1, 1), (2, 1)]);
    assert_eq!(sched.intersections[&0].turns, vec![(4, 1), (5, 1)]);
}

#[test]
fn greedy_improvement_scores_more() {
    let sim = sim_of(THREE_WAY);
    let mut sched = Schedule::new(&sim);
    sched
        .load_from_str("2\n0\n2\np 1\nq 1\n1\n3\nx 1\ny 2\nz 3\n")
        .unwrap();
    let base = sched.stats().unwrap().score;
    let mut greedy = GreedyImprover::default();
    greedy.set_min_wait_time(1);
    let flag = Arc::new(AtomicBool::new(false));
    match greedy.improve(flag.clone(), sched.clone()) {
        Some((better, score)) => {
            assert!(score > base);
            assert_eq!(better.stats().unwrap().score, score);
        }
        None => panic!("reordering intersection 1 lets car 0 through at once"),
    }
    let improved = IncrementalImprover::new(flag).improve(&sched, &greedy);
    assert!(improved.stats().unwrap().score > base);
}

#[test]
fn shuffle_improvement_never_scores_less() {
    let sim = sim_of(THREE_WAY);
    let mut sched = Schedule::new(&sim);
    sched
        .load_from_str("2\n0\n2\np 1\nq 1\n1\n3\nx 1\ny 2\nz 3\n")
        .unwrap();
    let base = sched.stats().unwrap().score;
    let mut shuffle = ShuffleImprover::default();
    shuffle.set_min_wait_time(1);
    let flag = Arc::new(AtomicBool::new(false));
    if let Some((better, score)) = shuffle.improve(flag, sched.clone()) {
        assert!(score > base);
        assert_eq!(better.stats().unwrap().score, score);
    }
}

#[test]
fn phased_improvement_scores_more() {
    let sim = sim_of(THREE_WAY);
    let mut sched = Schedule::new(&sim);
    sched
        .load_from_str("2\n0\n2\np 1\nq 1\n1\n3\nx 1\ny 2\nz 3\n")
        .unwrap();
    let base = sched.stats().unwrap().score;
    let phased = PhasedImprover::default();
    let flag = Arc::new(AtomicBool::new(false));
    match phased.improve(flag, sched.clone()) {
        Some((better, score)) => {
            assert!(score > base);
            assert_eq!(better.stats().unwrap().score, score);
        }
        None => panic!("reordering intersection 1 scores more"),
    }
}

#[test]
fn adaptive_schedule_opens_slots_for_first_cars() {
    let sim = sim_of(THREE_WAY);
    let sched = AdaptiveScheduler::default().schedule(&sim);
    let mut inter1: Vec<usize> = sched.intersections[&1].turns.iter().map(|p| p.0).collect();
    assert!(sched.intersections[&1].turns.iter().all(|p| p.1 == 1));
    inter1.sort();
    assert_eq!(inter1, vec![0, 1, 2]);
    assert!(sched.stats().unwrap().num_arrived_cars >= 1);
}

#[test]
fn incremental_schedule_scores_at_least_naive() {
    let sim = sim_of(THREE_WAY);
    let naive = Naive {}.schedule(&sim).stats().unwrap().score;
    let mut incr = IncrementalScheduler::default();
    incr.set_min_wait_time(1);
    incr.set_rounds(3);
    let sched = incr.schedule(&sim);
    assert!(sched.stats().unwrap().score >= naive);
}

#[test]
fn text_parses_through_from_str() {
    let sim: Simulation = SINGLE_CAR.parse().unwrap();
    assert_eq!(sim.streets.len(), 2);
    let street: hashcode2021::Street = "3 4 main 7".parse().unwrap();
    assert_eq!(street.name, "main");
    assert_eq!(street.start_insersection, 3);
    assert_eq!(street.end_intersection, 4);
    assert_eq!(street.travel_time, 7);
    assert_eq!(
        "3 4 main".parse::<hashcode2021::Street>().err(),
        Some(ParseError::WrongFieldCount { line: 1 })
    );
    assert_eq!(
        "3 x main 7".parse::<hashcode2021::Street>().err(),
        Some(ParseError::InvalidNumber { line: 1 })
    );
}

#[test]
fn earliest_arrival_counts_arrivals_at_time_zero() {
    let sim = sim_of("6 2 2 2 100\n0 1 a 1\n1 0 b 2\n2 a b\n1 b\n");
    let mut sched = Schedule::new(&sim);
    sched.load_from_str("1\n1\n1\na 1\n").unwrap();
    let stats = sched.stats().unwrap();
    assert_eq!(stats.num_arrived_cars, 2);
    assert_eq!(stats.earliest_arrival, 0);
    assert_eq!(stats.latest_arrival, 2);
    assert_eq!(stats.score, 106 + 104);
}

#[test]
fn total_street_operations() {
    let sim = sim_of(THREE_WAY);
    let mut sched = Schedule::new(&sim);
    assert!(!sched.is_street_always_green(0));
    sched.add_street(1, 0, 2);
    sched.add_street_time(0, 0);
    assert_eq!(sched.intersections[&1].turns, vec![(0, 2)]);
    assert!(sched.is_street_always_green(0));
}

#[test]
fn words_split_at_unicode_white_space() {
    let street: hashcode2021::Street = "3\u{a0}4\u{2003}main\u{3000}7".parse().unwrap();
    assert_eq!(street.name, "main");
    assert_eq!(street.travel_time, 7);
}
