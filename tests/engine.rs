use extreme_bevy::engine::{Engine, EngineError, Message};
use extreme_bevy::history::InputRecord;
use extreme_bevy::input::{to_bytes, GameInput, INPUT_FIRE, INPUT_UP};
use extreme_bevy::sim::{move_players, spawn_players, Runner, SPAWN_LEFT_X, SPAWN_RIGHT_X};

fn keys(k: u8) -> GameInput {
    GameInput { mouse_x: 0, mouse_y: 0, has_mouse: 0, keys: k }
}

fn cursor(x: f32, y: f32) -> GameInput {
    GameInput { mouse_x: x.to_bits(), mouse_y: y.to_bits(), has_mouse: 1, keys: 0 }
}

fn msg(player: usize, frame: usize, i: GameInput) -> Message {
    Message { player, frame, payload: to_bytes(&i) }
}

#[test]
fn fresh_engine_resolves_zero_input() {
    let e = Engine::new(2, 0, 8, 0);
    assert_eq!(e.frame(), 0);
    assert_eq!(e.confirmed_frames(), 0);
    assert_eq!(e.resolved_input(5, 1), GameInput::zero());
    assert_eq!(e.confirmed_input(0, 0), None);
}

#[test]
fn on_time_inputs_advance_without_rollback() {
    let mut e = Engine::new(2, 0, 8, 0);
    let plan = e.tick(keys(INPUT_UP), &vec![msg(1, 0, keys(INPUT_FIRE))]);
    assert_eq!(plan.rollback_to, None);
    assert_eq!(plan.start, 0);
    assert!(plan.dropped.is_empty());
    assert_eq!(plan.frames, vec![vec![keys(INPUT_UP), keys(INPUT_FIRE)]]);
    assert_eq!(plan.local, InputRecord { frame: 0, player: 0, input: keys(INPUT_UP) });
    assert_eq!(e.frame(), 1);
    assert_eq!(e.confirmed_frames(), 1);
}

#[test]
fn missing_input_holds_previous_frame() {
    let mut e = Engine::new(2, 0, 8, 0);
    e.tick(keys(0), &vec![msg(1, 0, keys(INPUT_FIRE))]);
    let plan = e.tick(keys(0), &vec![]);
    // the remote input of frame 1 has not arrived: frame 0's is held
    assert_eq!(plan.frames, vec![vec![keys(0), keys(INPUT_FIRE)]]);
    assert_eq!(e.resolved_input(1, 1), keys(INPUT_FIRE));
    assert_eq!(e.resolved_input(7, 1), keys(INPUT_FIRE));
    assert_eq!(e.confirmed_frames(), 1);
}

#[test]
fn late_correction_rolls_back_to_its_frame() {
    let mut e = Engine::new(2, 0, 8, 0);
    for f in 0..10usize {
        let plan = e.tick(keys(0), &vec![msg(1, f, keys(0))]);
        assert_eq!(plan.rollback_to, None);
    }
    assert_eq!(e.confirmed_frames(), 10);
    e.tick(keys(INPUT_UP), &vec![]);
    e.tick(keys(0), &vec![]);
    e.tick(keys(0), &vec![]);
    assert_eq!(e.frame(), 13);
    let plan = e.tick(keys(0), &vec![msg(1, 10, keys(INPUT_UP | INPUT_FIRE))]);
    assert_eq!(plan.rollback_to, Some(10));
    assert_eq!(plan.start, 10);
    assert_eq!(plan.frames.len(), 4);
    assert_eq!(plan.frames[0], vec![keys(INPUT_UP), keys(INPUT_UP | INPUT_FIRE)]);
    // frames 11 to 13 hold the corrected remote input
    assert_eq!(plan.frames[3], vec![keys(0), keys(INPUT_UP | INPUT_FIRE)]);
    assert_eq!(e.frame(), 14);
    assert_eq!(e.confirmed_frames(), 11);
}

#[test]
fn earliest_of_out_of_order_corrections_wins() {
    let mut e = Engine::new(2, 0, 8, 0);
    for _ in 0..6 {
        e.tick(keys(0), &vec![]);
    }
    let plan = e.tick(keys(0), &vec![msg(1, 4, keys(INPUT_FIRE)), msg(1, 2, keys(INPUT_UP))]);
    assert_eq!(plan.rollback_to, Some(2));
    assert_eq!(plan.start, 2);
    assert_eq!(plan.frames.len(), 5);
    assert_eq!(plan.frames[0][1], keys(INPUT_UP));
    assert_eq!(plan.frames[1][1], keys(INPUT_UP));
    assert_eq!(plan.frames[2][1], keys(INPUT_FIRE));
}

#[test]
fn correction_equal_to_prediction_needs_no_rollback() {
    let mut e = Engine::new(2, 0, 8, 0);
    e.tick(keys(0), &vec![msg(1, 0, keys(INPUT_FIRE))]);
    e.tick(keys(0), &vec![]);
    e.tick(keys(0), &vec![]);
    let plan = e.tick(keys(0), &vec![msg(1, 1, keys(INPUT_FIRE))]);
    assert_eq!(plan.rollback_to, None);
    assert_eq!(plan.start, 3);
}

#[test]
fn bad_and_stale_messages_are_dropped() {
    let mut e = Engine::new(2, 0, 2, 0);
    for _ in 0..5 {
        e.tick(keys(0), &vec![]);
    }
    assert_eq!(e.window_start(), 3);
    let short = Message { player: 1, frame: 4, payload: vec![0u8; 3] };
    let plan = e.tick(
        keys(0),
        &vec![short, msg(0, 4, keys(INPUT_UP)), msg(5, 4, keys(INPUT_UP)), msg(1, 1, keys(INPUT_UP)), msg(1, 100, keys(INPUT_UP))],
    );
    assert_eq!(
        plan.dropped,
        vec![
            (0, EngineError::MalformedInput),
            (1, EngineError::MalformedInput),
            (2, EngineError::MalformedInput),
            (3, EngineError::HistoryWindowExceeded),
            (4, EngineError::HistoryWindowExceeded),
        ]
    );
    assert_eq!(plan.rollback_to, None);
}

#[test]
fn first_confirmed_value_is_kept() {
    let mut e = Engine::new(2, 0, 8, 0);
    e.tick(keys(0), &vec![msg(1, 0, keys(INPUT_UP)), msg(1, 0, keys(INPUT_FIRE))]);
    assert_eq!(e.confirmed_input(0, 1), Some(keys(INPUT_UP)));
}

#[test]
fn input_delay_shifts_local_input() {
    let mut e = Engine::new(2, 0, 8, 2);
    let plan = e.tick(keys(INPUT_UP), &vec![]);
    assert_eq!(plan.local.frame, 2);
    assert_eq!(plan.frames[0][0], keys(0));
    assert_eq!(e.confirmed_input(2, 0), Some(keys(INPUT_UP)));
}

#[test]
fn window_prunes_old_records_but_keeps_held_input() {
    let mut e = Engine::new(2, 0, 2, 0);
    e.tick(keys(0), &vec![msg(1, 0, keys(INPUT_FIRE))]);
    for _ in 0..5 {
        e.tick(keys(0), &vec![]);
    }
    assert_eq!(e.window_start(), 4);
    assert_eq!(e.confirmed_input(0, 1), None);
    assert_eq!(e.resolved_input(5, 1), keys(INPUT_FIRE));
}

#[test]
fn spawn_positions_are_the_float_bits() {
    assert_eq!(SPAWN_LEFT_X, (-100.0f32).to_bits());
    assert_eq!(SPAWN_RIGHT_X, 100.0f32.to_bits());
    assert_eq!(spawn_players(), vec![(SPAWN_LEFT_X, 0), (SPAWN_RIGHT_X, 0)]);
}

#[test]
fn move_players_follows_cursor() {
    let s = spawn_players();
    let next = move_players(&s, &vec![cursor(5.0, 6.0), keys(INPUT_UP)]);
    assert_eq!(next, vec![(5.0f32.to_bits(), 6.0f32.to_bits()), (SPAWN_RIGHT_X, 0)]);
}

#[test]
fn runner_resimulates_after_correction() {
    let mut r = Runner::new(spawn_players(), 0, 8, 0);
    r.tick(keys(0), &vec![]);
    r.tick(keys(0), &vec![]);
    assert_eq!(r.state(), spawn_players());
    r.tick(keys(0), &vec![msg(1, 0, cursor(1.0, 2.0))]);
    assert_eq!(r.state(), vec![(SPAWN_LEFT_X, 0), (1.0f32.to_bits(), 2.0f32.to_bits())]);
    assert_eq!(r.engine().frame(), 3);
}

#[test]
fn rollback_reaches_the_state_of_on_time_delivery() {
    let remote = [cursor(1.0, 1.0), cursor(2.0, 2.0), keys(0), cursor(4.0, 4.0)];
    let local = [cursor(-1.0, 0.0), keys(0), cursor(-3.0, 0.0), keys(0)];
    let mut on_time = Runner::new(spawn_players(), 0, 8, 0);
    for f in 0..4usize {
        on_time.tick(local[f], &vec![msg(1, f, remote[f])]);
    }
    let mut late = Runner::new(spawn_players(), 0, 8, 0);
    late.tick(local[0], &vec![]);
    late.tick(local[1], &vec![msg(1, 0, remote[0])]);
    late.tick(local[2], &vec![]);
    late.tick(local[3], &vec![msg(1, 3, remote[3]), msg(1, 2, remote[2]), msg(1, 1, remote[1])]);
    assert_eq!(late.state(), on_time.state());
    assert_eq!(late.engine().confirmed_frames(), 4);
}

#[test]
fn same_inputs_give_same_states() {
    let mut a = Runner::new(spawn_players(), 1, 4, 1);
    let mut b = Runner::new(spawn_players(), 1, 4, 1);
    for f in 0..12usize {
        let l = cursor(f as f32, 0.0);
        let m = if f % 3 == 0 { vec![msg(0, f, cursor(0.0, f as f32))] } else { vec![] };
        let m2 = if f % 3 == 0 { vec![msg(0, f, cursor(0.0, f as f32))] } else { vec![] };
        a.tick(l, &m);
        b.tick(l, &m2);
        assert_eq!(a.state(), b.state());
    }
}
