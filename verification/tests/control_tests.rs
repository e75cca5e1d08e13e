use physics_engine::input::{ControlEvent, ControlState, KeyCode, MouseButton, Move};
use physics_engine::scene::{ball_lattice, is_spawn_key, AppAction, SpawnLatch, WindowInput};

fn key(code: KeyCode, pressed: bool) -> ControlEvent {
    ControlEvent::Key { code, pressed }
}

#[test]
fn new_state_holds_nothing() {
    let s = ControlState::new();
    assert!(!s.forward && !s.backward && !s.left && !s.right);
    assert!(!s.up && !s.down && !s.fast && !s.mouse_pressed);
}

#[test]
fn each_key_drives_its_flag() {
    let mut s = ControlState::new();
    s.process_event(&key(KeyCode::KeyW, true));
    assert!(s.forward);
    s.process_event(&key(KeyCode::KeyS, true));
    assert!(s.backward);
    s.process_event(&key(KeyCode::KeyA, true));
    assert!(s.left);
    s.process_event(&key(KeyCode::KeyD, true));
    assert!(s.right);
    s.process_event(&key(KeyCode::Space, true));
    assert!(s.up);
    s.process_event(&key(KeyCode::KeyC, true));
    assert!(s.down);
    s.process_event(&key(KeyCode::ShiftRight, true));
    assert!(s.fast);
    s.process_event(&key(KeyCode::ShiftLeft, false));
    assert!(!s.fast);
    s.process_event(&key(KeyCode::KeyW, false));
    assert!(!s.forward);
    assert!(s.backward && s.left && s.right && s.up && s.down);
    assert!(!s.mouse_pressed);
}

#[test]
fn other_events_change_nothing() {
    let mut s = ControlState::new();
    s.process_event(&key(KeyCode::KeyD, true));
    let before = s;
    s.process_event(&key(KeyCode::Other, true));
    s.process_event(&ControlEvent::CursorMoved);
    s.process_event(&ControlEvent::Other);
    s.process_event(&ControlEvent::Mouse { button: MouseButton::Right, pressed: true });
    s.process_event(&ControlEvent::Mouse { button: MouseButton::Other(4), pressed: true });
    assert_eq!(s, before);
}

#[test]
fn left_button_drags() {
    let mut s = ControlState::new();
    s.process_event(&ControlEvent::Mouse { button: MouseButton::Left, pressed: true });
    assert!(s.mouse_pressed);
    s.process_event(&ControlEvent::Mouse { button: MouseButton::Left, pressed: false });
    assert!(!s.mouse_pressed);
}

#[test]
fn press_then_release_restores_state() {
    let mut s = ControlState::new();
    s.process_event(&key(KeyCode::KeyA, true));
    let before = s;
    s.process_event(&key(KeyCode::Space, true));
    s.process_event(&key(KeyCode::Space, false));
    assert_eq!(s, before);
}

#[test]
fn spawn_key_is_b_either_case() {
    assert!(is_spawn_key("b"));
    assert!(is_spawn_key("B"));
    assert!(!is_spawn_key("c"));
    assert!(!is_spawn_key("bb"));
    assert!(!is_spawn_key(""));
    assert!(!is_spawn_key("é"));
}

#[test]
fn holding_spawn_key_spawns_once() {
    let mut latch = SpawnLatch::new();
    assert!(latch.on_spawn_key(true));
    assert!(!latch.on_spawn_key(true));
    assert!(!latch.on_spawn_key(true));
    assert!(!latch.on_spawn_key(false));
    assert!(!latch.held);
    assert!(latch.on_spawn_key(true));
    assert!(latch.held);
}

#[test]
fn release_without_press_spawns_nothing() {
    let mut latch = SpawnLatch::new();
    assert!(!latch.on_spawn_key(false));
    assert!(!latch.held);
}

#[test]
fn lattice_of_five_layers_from_five() {
    let cells = ball_lattice(5, 5);
    assert_eq!(cells.len(), 125);
    assert_eq!(cells[0], (0, 5, 0));
    assert_eq!(cells[1], (0, 5, 1));
    assert_eq!(cells[5], (1, 5, 0));
    assert_eq!(cells[24], (4, 5, 4));
    assert_eq!(cells[25], (0, 6, 0));
    assert_eq!(cells[124], (4, 9, 4));
}

#[test]
fn empty_lattice() {
    assert!(ball_lattice(0, 5).is_empty());
    assert_eq!(ball_lattice(1, 0), vec![(0, 0, 0)]);
}

#[test]
fn moves_follow_held_keys_in_fixed_order() {
    let mut s = ControlState::new();
    assert!(s.moves().is_empty());
    s.process_event(&key(KeyCode::KeyC, true));
    s.process_event(&key(KeyCode::KeyA, true));
    s.process_event(&key(KeyCode::KeyW, true));
    assert_eq!(s.moves(), vec![Move::Forward, Move::Left, Move::Down]);
    s.process_event(&key(KeyCode::KeyS, true));
    s.process_event(&key(KeyCode::KeyD, true));
    s.process_event(&key(KeyCode::Space, true));
    assert_eq!(
        s.moves(),
        vec![Move::Forward, Move::Backward, Move::Right, Move::Left, Move::Up, Move::Down]
    );
}

#[test]
fn shift_triples_speed() {
    let mut s = ControlState::new();
    assert_eq!(s.speed_factor(), 1);
    s.process_event(&key(KeyCode::ShiftLeft, true));
    assert_eq!(s.speed_factor(), 3);
    s.process_event(&key(KeyCode::ShiftLeft, false));
    assert_eq!(s.speed_factor(), 1);
}

#[test]
fn window_events_map_to_actions() {
    let mut latch = SpawnLatch::new();
    assert_eq!(latch.on_window_event(&WindowInput::CloseRequested), AppAction::Exit);
    assert_eq!(latch.on_window_event(&WindowInput::RedrawRequested), AppAction::Frame);
    assert_eq!(
        latch.on_window_event(&WindowInput::Resized { width: 800, height: 600 }),
        AppAction::Resize { width: 800, height: 600 }
    );
    assert_eq!(latch.on_window_event(&WindowInput::Other), AppAction::Nothing);
    let press_b = WindowInput::Key { text: Some("b".to_string()), pressed: true };
    assert_eq!(latch.on_window_event(&press_b), AppAction::Spawn);
    assert_eq!(latch.on_window_event(&press_b), AppAction::Nothing);
    let press_x = WindowInput::Key { text: Some("x".to_string()), pressed: false };
    assert_eq!(latch.on_window_event(&press_x), AppAction::Nothing);
    assert!(latch.held);
    let release_big_b = WindowInput::Key { text: Some("B".to_string()), pressed: false };
    assert_eq!(latch.on_window_event(&release_big_b), AppAction::Nothing);
    assert!(!latch.held);
    let no_text = WindowInput::Key { text: None, pressed: true };
    assert_eq!(latch.on_window_event(&no_text), AppAction::Nothing);
    assert_eq!(latch.on_window_event(&press_b), AppAction::Spawn);
}

#[test]
fn spawn_answers_over_a_run_count_first_presses() {
    let mut latch = SpawnLatch::new();
    let key_event = |t: &str, pressed: bool| WindowInput::Key { text: Some(t.to_string()), pressed };
    let events = vec![
        key_event("b", true),
        WindowInput::RedrawRequested,
        key_event("b", true),
        key_event("x", true),
        key_event("B", false),
        WindowInput::Other,
        key_event("B", true),
        key_event("b", true),
        key_event("b", false),
        key_event("b", false),
        key_event("b", true),
    ];
    let spawned = events
        .iter()
        .filter(|e| latch.on_window_event(e) == AppAction::Spawn)
        .count();
    assert_eq!(spawned, 3);
    assert!(latch.held);
}
