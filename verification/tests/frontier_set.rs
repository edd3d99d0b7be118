use spore::bijective_finite_sequence::BijectiveFiniteSequence;
use spore::my_rng::Rng;

#[test]
fn a_new_set_is_empty() {
    let set: BijectiveFiniteSequence<u64> = BijectiveFiniteSequence::new();
    assert_eq!(set.len(), 0);
    assert!(set.is_empty());
    assert!(!set.contains(&0));
    assert!(set.as_slice().is_empty());
    assert!(set.validate());
}

#[test]
fn members_stand_in_the_order_they_joined() {
    let mut set = BijectiveFiniteSequence::new();
    set.insert(5u64);
    set.insert(7);
    set.insert(9);
    assert_eq!(set.as_slice(), &[5, 7, 9]);
    assert_eq!(set.len(), 3);
    assert!(!set.is_empty());
    assert!(set.contains(&5) && set.contains(&7) && set.contains(&9));
    assert!(!set.contains(&6));
    assert!(set.validate());
}

#[test]
fn a_member_joins_once() {
    let mut set = BijectiveFiniteSequence::new();
    set.insert(5u64);
    set.insert(7);
    set.insert(5);
    set.insert(7);
    assert_eq!(set.as_slice(), &[5, 7]);
    assert!(set.validate());
}

#[test]
fn the_last_member_takes_the_place_of_one_that_leaves() {
    let mut set = BijectiveFiniteSequence::new();
    for value in [1u64, 2, 3, 4, 5] {
        set.insert(value);
    }
    assert_eq!(set.remove(&2), Some(2));
    assert_eq!(set.as_slice(), &[1, 5, 3, 4]);
    assert!(!set.contains(&2));
    assert!(set.contains(&5));
    assert!(set.validate());
    assert_eq!(set.remove(&1), Some(1));
    assert_eq!(set.as_slice(), &[4, 5, 3]);
    assert!(set.validate());
}

#[test]
fn the_last_member_leaves_without_a_swap() {
    let mut set = BijectiveFiniteSequence::new();
    for value in [1u64, 2, 3] {
        set.insert(value);
    }
    assert_eq!(set.remove(&3), Some(3));
    assert_eq!(set.as_slice(), &[1, 2]);
    assert!(set.validate());
    assert_eq!(set.remove(&2), Some(2));
    assert_eq!(set.remove(&1), Some(1));
    assert!(set.is_empty());
    assert!(set.validate());
}

#[test]
fn removing_a_stranger_changes_nothing() {
    let mut set = BijectiveFiniteSequence::new();
    set.insert(1u64);
    set.insert(2);
    assert_eq!(set.remove(&3), None);
    assert_eq!(set.as_slice(), &[1, 2]);
    assert_eq!(set.remove(&1), Some(1));
    assert_eq!(set.remove(&1), None);
    assert_eq!(set.as_slice(), &[2]);
    assert!(set.validate());
}

#[test]
fn a_member_that_moved_is_still_found_and_removed() {
    let mut set = BijectiveFiniteSequence::new();
    for value in [10u64, 20, 30] {
        set.insert(value);
    }
    assert_eq!(set.remove(&10), Some(10));
    // 30 now stands first; it must leave from there.
    assert_eq!(set.remove(&30), Some(30));
    assert_eq!(set.as_slice(), &[20]);
    assert!(set.validate());
}

#[test]
fn joining_then_leaving_leaves_no_trace() {
    let mut set = BijectiveFiniteSequence::new();
    for value in [3u64, 1, 4, 15, 9, 2, 6] {
        set.insert(value);
    }
    let before = set.len();
    set.insert(100);
    assert_eq!(set.len(), before + 1);
    assert_eq!(set.remove(&100), Some(100));
    assert_eq!(set.len(), before);
    assert!(!set.contains(&100));
    assert!(set.validate());
}

#[test]
fn joining_then_leaving_with_other_changes_in_between() {
    let mut with = BijectiveFiniteSequence::new();
    let mut without = BijectiveFiniteSequence::new();
    for value in [3u64, 1, 4, 15, 9, 2, 6] {
        with.insert(value);
        without.insert(value);
    }
    with.insert(100);
    let mut rng = Rng::with_seed(11);
    for _ in 0..500 {
        let value = u64::from(rng.next_u32_n(40));
        if rng.next(1) == 0 {
            with.insert(value);
            without.insert(value);
        } else {
            assert_eq!(with.remove(&value), without.remove(&value));
        }
        assert!(with.contains(&100));
        assert_eq!(with.len(), without.len() + 1);
    }
    assert_eq!(with.remove(&100), Some(100));
    assert!(!with.contains(&100));
    assert_eq!(with.len(), without.len());
    let mut left: Vec<u64> = with.as_slice().to_vec();
    let mut right: Vec<u64> = without.as_slice().to_vec();
    left.sort_unstable();
    right.sort_unstable();
    assert_eq!(left, right);
    assert!(with.validate());
    assert!(without.validate());
}

#[test]
fn the_set_stays_sound_under_many_changes() {
    let mut set = BijectiveFiniteSequence::new();
    let mut model: Vec<(usize, usize)> = Vec::new();
    let mut rng = Rng::with_seed(2023);
    for round in 0..3000 {
        let value = (rng.next_u32_n(12) as usize, rng.next_u32_n(12) as usize);
        if rng.next_u32_n(3) == 0 {
            let expected = model.iter().position(|held| *held == value).map(|at| model.swap_remove(at));
            assert_eq!(set.remove(&value), expected);
        } else {
            if !model.contains(&value) {
                model.push(value);
            }
            set.insert(value);
        }
        assert_eq!(set.as_slice(), model.as_slice());
        assert_eq!(set.len(), model.len());
        assert_eq!(set.is_empty(), model.is_empty());
        if round % 50 == 0 {
            assert!(set.validate());
            for row in 0..12 {
                for col in 0..12 {
                    assert_eq!(set.contains(&(row, col)), model.contains(&(row, col)));
                }
            }
        }
    }
    assert!(set.validate());
}

#[test]
fn nothing_is_drawn_from_an_empty_set() {
    let set: BijectiveFiniteSequence<u64> = BijectiveFiniteSequence::new();
    let mut rng = Rng::with_seed(1);
    let mut untouched = Rng::with_seed(1);
    assert_eq!(set.get_random(&mut rng), None);
    assert_eq!(rng.next(32), untouched.next(32));
}

#[test]
fn a_draw_is_the_member_at_the_drawn_position() {
    let mut set = BijectiveFiniteSequence::new();
    for value in [11u64, 22, 33, 44, 55, 66, 77] {
        set.insert(value);
    }
    let mut rng = Rng::with_seed(77);
    let mut replay = Rng::with_seed(77);
    for _ in 0..200 {
        let drawn = *set.get_random(&mut rng).unwrap();
        let position = replay.next_u32_n(7) as usize;
        assert_eq!(drawn, set.as_slice()[position]);
    }
}

#[test]
fn the_only_member_is_always_drawn() {
    let mut set = BijectiveFiniteSequence::new();
    set.insert(9u64);
    let mut rng = Rng::with_seed(5);
    for _ in 0..50 {
        assert_eq!(set.get_random(&mut rng), Some(&9));
    }
}

#[test]
fn draws_visit_every_member_about_equally_often() {
    let members: usize = 10;
    let draws: usize = 100_000;
    let mut set = BijectiveFiniteSequence::new();
    for value in 0..members {
        set.insert(value);
    }
    let mut rng = Rng::with_seed(20_240_229);
    let mut seen = vec![0usize; members];
    for _ in 0..draws {
        seen[*set.get_random(&mut rng).unwrap()] += 1;
    }
    let expected = (draws / members) as f64;
    let chi_square: f64 = seen
        .iter()
        .map(|&count| {
            let off = count as f64 - expected;
            off * off / expected
        })
        .sum();
    // With nine degrees of freedom a value above 33.7 has a chance below
    // one in ten thousand.
    assert!(chi_square < 33.7);
}

#[test]
fn a_clone_is_a_set_of_its_own() {
    let mut set = BijectiveFiniteSequence::new();
    set.insert(1u64);
    set.insert(2);
    let mut copy = set.clone();
    copy.insert(3);
    assert_eq!(copy.remove(&1), Some(1));
    assert_eq!(set.as_slice(), &[1, 2]);
    assert_eq!(copy.as_slice(), &[3, 2]);
    assert!(set.validate() && copy.validate());
}
