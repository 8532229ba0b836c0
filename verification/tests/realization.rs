use coalescent::{Coalescent, Waiting};
use partitions::PartitionVec;
use rand::distributions::Distribution;
use rand::rngs::StdRng;
use rand::SeedableRng;
use rand_distr::Exp;

fn blocks_of(partition: &PartitionVec<()>) -> Vec<Vec<usize>> {
    partition
        .all_sets()
        .map(|set| {
            let mut members: Vec<usize> = set.map(|(index, _)| index).collect();
            members.sort();
            members
        })
        .collect()
}

fn told(events: &Vec<(Waiting, PartitionVec<()>)>) -> Vec<(Waiting, Vec<Vec<usize>>)> {
    events.iter().map(|(waiting, partition)| (*waiting, blocks_of(partition))).collect()
}

#[test]
fn realization_of_one_element() {
    let mut process = Coalescent::new(1, StdRng::seed_from_u64(1));
    let events = process.generate_realization();
    assert_eq!(told(&events), vec![(Waiting::Immediate, vec![vec![0]])]);
    assert!(process.step().is_none());
}

#[test]
fn realization_of_two_elements() {
    let mut seed: u64 = 0;
    while seed < 50 {
        let mut process = Coalescent::new(2, StdRng::seed_from_u64(seed));
        let events = process.generate_realization();
        assert_eq!(
            told(&events),
            vec![
                (Waiting::Immediate, vec![vec![0], vec![1]]),
                (Waiting::Exponential { rate: 2 }, vec![vec![0, 1]]),
            ]
        );
        seed += 1;
    }
}

#[test]
fn realization_has_one_event_for_each_block_count() {
    for n in 1..=12usize {
        let mut process = Coalescent::new(n, StdRng::seed_from_u64(n as u64));
        let events = process.generate_realization();
        assert_eq!(events.len(), n);
        assert_eq!(events[0].0, Waiting::Immediate);
        let start: Vec<Vec<usize>> = (0..n).map(|i| vec![i]).collect();
        assert_eq!(blocks_of(&events[0].1), start);
        for (t, (waiting, partition)) in events.iter().enumerate() {
            assert_eq!(partition.amount_of_sets(), n - t);
            assert_eq!(partition.len(), n);
            if t > 0 {
                assert_eq!(*waiting, Waiting::Exponential { rate: n - t + 1 });
            }
        }
        let everything: Vec<usize> = (0..n).collect();
        assert_eq!(blocks_of(&events[n - 1].1), vec![everything]);
    }
}

#[test]
fn realization_merges_one_pair_at_a_time() {
    let mut process = Coalescent::new(9, StdRng::seed_from_u64(77));
    let events = process.generate_realization();
    for t in 1..events.len() {
        let before = &events[t - 1].1;
        let after = &events[t].1;
        let mut joined = 0;
        for a in 0..9 {
            for b in (a + 1)..9 {
                if before.same_set(a, b) {
                    assert!(after.same_set(a, b));
                } else if after.same_set(a, b) {
                    joined += 1;
                }
            }
        }
        assert!(joined >= 1);
        assert_eq!(after.amount_of_sets() + 1, before.amount_of_sets());
    }
}

#[test]
fn realization_leaves_the_state_as_it_was() {
    let mut process = Coalescent::new(6, StdRng::seed_from_u64(5));
    process.step();
    process.step();
    let before = blocks_of(process.state());
    let events = process.generate_realization();
    assert_eq!(blocks_of(process.state()), before);
    assert_eq!(process.block_count(), 4);
    assert_eq!(events.len(), 4);
    assert_eq!(events[0].0, Waiting::Immediate);
    assert_eq!(blocks_of(&events[0].1), before);
    assert_eq!(events[3].1.amount_of_sets(), 1);
    assert_eq!(events[1].0, Waiting::Exponential { rate: 4 });
}

#[test]
fn realization_twice_from_the_same_state() {
    let mut process = Coalescent::new(10, StdRng::seed_from_u64(2024));
    let first = process.generate_realization();
    let second = process.generate_realization();
    assert_eq!(first.len(), 10);
    assert_eq!(second.len(), 10);
    assert_eq!(told(&first)[0], told(&second)[0]);
    assert_eq!(blocks_of(&first[0].1).len(), 10);
    for t in 0..10 {
        assert_eq!(first[t].0, second[t].0);
        assert_eq!(first[t].1.amount_of_sets(), second[t].1.amount_of_sets());
    }
    assert_eq!(process.block_count(), 10);
}

#[test]
fn realization_moves_the_generator_on() {
    let mut process = Coalescent::new(10, StdRng::seed_from_u64(2024));
    let mut different = 0;
    let first = told(&process.generate_realization());
    for _ in 0..20 {
        if told(&process.generate_realization()) != first {
            different += 1;
        }
    }
    assert!(different >= 1);
}

#[test]
fn realization_is_set_by_the_generator() {
    let mut process = Coalescent::new(10, StdRng::seed_from_u64(6));
    let first = told(&process.generate_realization());
    process.set_rng(StdRng::seed_from_u64(6));
    let second = told(&process.generate_realization());
    assert_eq!(first, second);
}

#[test]
fn realization_of_a_clone_leaves_the_process_alone() {
    let mut process = Coalescent::new(8, StdRng::seed_from_u64(15));
    let mut copy = process.clone();
    let from_copy = told(&copy.generate_realization());
    let from_process = told(&process.generate_realization());
    assert_eq!(from_copy, from_process);
}

#[test]
fn first_merge_of_three_takes_every_pair_equally_often() {
    let mut process = Coalescent::new(3, StdRng::seed_from_u64(2020));
    let mut counts = [0usize; 3];
    for _ in 0..3000 {
        let events = process.generate_realization();
        assert_eq!(events.len(), 3);
        let merged = &events[1].1;
        if merged.same_set(0, 1) {
            counts[0] += 1;
        } else if merged.same_set(0, 2) {
            counts[1] += 1;
        } else {
            assert!(merged.same_set(1, 2));
            counts[2] += 1;
        }
    }
    assert_eq!(counts[0] + counts[1] + counts[2], 3000);
    for count in counts.iter() {
        assert!(*count > 850 && *count < 1150);
    }
}

#[test]
fn waiting_time_of_two_blocks_has_rate_two() {
    let mut process = Coalescent::new(2, StdRng::seed_from_u64(41));
    let mut times = StdRng::seed_from_u64(42);
    let mut total: f64 = 0.0;
    let samples = 20000;
    for _ in 0..samples {
        let events = process.generate_realization();
        let rate = match events[1].0 {
            Waiting::Exponential { rate } => rate,
            Waiting::Immediate => panic!("the merge takes time"),
        };
        assert_eq!(rate, 2);
        let time: f64 = Exp::new(rate as f64).unwrap().sample(&mut times);
        assert!(time > 0.0);
        total += time;
    }
    let mean = total / samples as f64;
    assert!((mean - 0.5).abs() < 0.02);
}

#[test]
fn waiting_times_after_the_first_are_positive() {
    let mut process = Coalescent::new(12, StdRng::seed_from_u64(7));
    let mut times = StdRng::seed_from_u64(8);
    for _ in 0..200 {
        let events = process.generate_realization();
        for (t, (waiting, _)) in events.iter().enumerate() {
            match waiting {
                Waiting::Immediate => assert_eq!(t, 0),
                Waiting::Exponential { rate } => {
                    assert!(t > 0);
                    assert!(*rate >= 2);
                    let time: f64 = Exp::new(*rate as f64).unwrap().sample(&mut times);
                    assert!(time > 0.0);
                }
            }
        }
    }
}
