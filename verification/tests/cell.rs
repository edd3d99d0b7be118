use spore::my_rng::Rng;
use spore::state::{Color, State};

#[test]
fn fresh_colours_are_never_dark() {
    let mut rng = Rng::with_seed(3);
    for _ in 0..5000 {
        match State::random_filled(&mut rng) {
            State::Filled { r, g, b } => {
                assert!((50..200).contains(&r));
                assert!((50..200).contains(&g));
                assert!((50..200).contains(&b));
            }
            State::Empty => panic!("a fresh cell is filled"),
        }
    }
}

#[test]
fn a_fresh_colour_from_a_known_seed() {
    let mut rng = Rng::with_seed(99);
    assert_eq!(State::random_filled(&mut rng), State::Filled { r: 70, g: 54, b: 118 });
}

#[test]
fn a_fresh_colour_takes_three_draws() {
    let mut rng = Rng::with_seed(12345);
    let mut replay = Rng::with_seed(12345);
    let state = State::random_filled(&mut rng);
    let r = 50 + replay.next_u32_n(150) as u8;
    let g = 50 + replay.next_u32_n(150) as u8;
    let b = 50 + replay.next_u32_n(150) as u8;
    assert_eq!(state, State::Filled { r, g, b });
    assert_eq!(state, State::Filled { r: 137, g: 65, b: 197 });
    assert_eq!(rng.next(32), replay.next(32));
}

#[test]
fn a_channel_drifts_by_at_most_the_step() {
    let mut rng = Rng::with_seed(7);
    let drifted: Vec<u8> = (0..6).map(|_| State::rand_step_single(&mut rng, 3, 100)).collect();
    assert_eq!(drifted, vec![100, 99, 98, 100, 100, 103]);
}

#[test]
fn a_channel_is_clamped_at_both_ends() {
    let mut rng = Rng::with_seed(7);
    let drifted: Vec<u8> = (0..6).map(|_| State::rand_step_single(&mut rng, 300, 100)).collect();
    assert_eq!(drifted, vec![181, 222, 0, 5, 165, 0]);
}

#[test]
fn a_step_of_zero_keeps_the_channel() {
    let mut rng = Rng::with_seed(7);
    let mut replay = Rng::with_seed(7);
    for value in [0u8, 1, 100, 254, 255] {
        assert_eq!(State::rand_step_single(&mut rng, 0, value), value);
        let _ = replay.next_u32_n(1);
    }
    assert_eq!(rng.next(32), replay.next(32));
}

#[test]
fn a_channel_stays_a_channel_for_every_value_and_many_steps() {
    let mut rng = Rng::with_seed(2718);
    for step in [0i32, 1, 2, 3, 10, 127, 128, 255, 256, 1000, 1 << 20, (1 << 30) - 1] {
        for value in 0..=255u8 {
            let drifted = i64::from(State::rand_step_single(&mut rng, step, value));
            assert!((0..=255).contains(&drifted));
            assert!(drifted >= i64::from(value) - i64::from(step));
            assert!(drifted <= i64::from(value) + i64::from(step));
        }
    }
}

#[test]
fn a_drift_is_the_draw_less_the_step() {
    let mut rng = Rng::with_seed(555);
    let mut replay = Rng::with_seed(555);
    for value in [0u8, 3, 100, 250, 255] {
        for step in [1i32, 5, 40] {
            let drifted = State::rand_step_single(&mut rng, step, value);
            let draw = i64::from(replay.next_u32_n(2 * step as u32 + 1));
            let expected = (i64::from(value) + draw - i64::from(step)).clamp(0, 255);
            assert_eq!(i64::from(drifted), expected);
        }
    }
}

#[test]
fn a_colour_drifts_channel_by_channel() {
    let mut rng = Rng::with_seed(12084869079124);
    let mut replay = Rng::with_seed(12084869079124);
    let parent = State::Filled { r: 100, g: 150, b: 200 };
    let child = parent.rand_step(&mut rng, 3);
    let r = State::rand_step_single(&mut replay, 3, 100);
    let g = State::rand_step_single(&mut replay, 3, 150);
    let b = State::rand_step_single(&mut replay, 3, 200);
    assert_eq!(child, State::Filled { r, g, b });
    assert_eq!(rng.next(32), replay.next(32));
}

#[test]
fn a_drifted_colour_is_filled_and_near() {
    let mut rng = Rng::with_seed(4242);
    let mut state = State::Filled { r: 10, g: 128, b: 250 };
    for _ in 0..2000 {
        let next = state.rand_step(&mut rng, 4);
        match (state, next) {
            (State::Filled { r, g, b }, State::Filled { r: r1, g: g1, b: b1 }) => {
                assert!((i32::from(r) - i32::from(r1)).abs() <= 4);
                assert!((i32::from(g) - i32::from(g1)).abs() <= 4);
                assert!((i32::from(b) - i32::from(b1)).abs() <= 4);
            }
            _ => panic!("a drifted cell is filled"),
        }
        state = next;
    }
}

#[test]
fn an_empty_cell_shows_black() {
    assert_eq!(State::Empty.to_color(), Color { r: 0, g: 0, b: 0, a: 255 });
}

#[test]
fn a_filled_cell_shows_its_colour() {
    let state = State::Filled { r: 1, g: 2, b: 3 };
    assert_eq!(state.to_color(), Color { r: 1, g: 2, b: 3, a: 255 });
}
