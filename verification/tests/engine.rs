use winit_input_map::input::{Binds, InputMap};
use winit_input_map::input_code::{
    axis_neg, axis_pos, DeviceInput, GamepadAxis, GamepadButton, GamepadInput, InputCode,
    MouseButton, SpecifyDevice, SpecifyGamepad,
};
use winit_input_map::MAX_INPUT_VALUE;

fn key(n: u32) -> InputCode {
    InputCode::Device { id: SpecifyDevice::Any, input: DeviceInput::Key(n) }
}

#[test]
fn chord_value_and_edges() {
    let shift = key(1);
    let w = key(2);
    let binds: Binds = vec![(0, vec![vec![shift, w]])];
    let mut input = InputMap::new(&binds);
    input.apply(shift, 1);
    assert_eq!(input.value(0), 0);
    assert!(!input.pressing(0));
    input.apply(w, 1);
    assert_eq!(input.value(0), 1);
    assert!(input.pressed(0));
    assert!(input.pressing(0));
    input.apply(shift, 0);
    assert_eq!(input.value(0), 0);
    assert!(input.released(0));
}

#[test]
fn or_binds_sum_without_duplicate_edge() {
    let space = key(10);
    let south = InputCode::Gamepad { id: SpecifyGamepad::Any, input: GamepadInput::South };
    let binds: Binds = vec![(0, vec![vec![space], vec![south]])];
    let mut input = InputMap::new(&binds);
    input.apply(space, 1);
    assert!(input.pressed(0));
    assert_eq!(input.value(0), 1);
    input.apply(south, 1);
    assert_eq!(input.value(0), 2);
    assert!(input.pressed(0));
    assert!(!input.released(0));
}

#[test]
fn analog_magnitude_and_reset() {
    let mmr = InputCode::Device { id: SpecifyDevice::Any, input: DeviceInput::MouseMoveRight };
    let binds: Binds = vec![(0, vec![vec![mmr]])];
    let mut input = InputMap::new(&binds);
    input.apply(mmr, 23);
    assert_eq!(input.value(0), 23);
    input.apply(mmr, 0);
    assert_eq!(input.value(0), 0);
}

#[test]
fn accumulate_saturates() {
    // adapters feed relative deltas under the specific device's scope; the
    // wildcard-scoped binding sees each delta once
    let sc_any = InputCode::Device { id: SpecifyDevice::Any, input: DeviceInput::MouseScrollUp };
    let sc_dev = InputCode::Device { id: SpecifyDevice::Id(1), input: DeviceInput::MouseScrollUp };
    let binds: Binds = vec![(0, vec![vec![sc_any]])];
    let mut input = InputMap::new(&binds);
    input.accumulate(sc_dev, 3);
    input.accumulate(sc_dev, 4);
    assert_eq!(input.value(0), 7);
    input.accumulate(sc_dev, MAX_INPUT_VALUE);
    assert_eq!(input.value(0), MAX_INPUT_VALUE);
}

#[test]
fn wildcard_receives_specific_device_events() {
    let any_w = key(5);
    let w_dev1 = InputCode::Device { id: SpecifyDevice::Id(1), input: DeviceInput::Key(5) };
    let w_dev2 = InputCode::Device { id: SpecifyDevice::Id(2), input: DeviceInput::Key(5) };
    let binds: Binds = vec![(0, vec![vec![any_w]])];
    let mut input = InputMap::new(&binds);
    input.apply(w_dev1, 1);
    assert!(input.pressing(0));
    input.apply(w_dev2, 1);
    assert!(input.pressing(0));
    // the specific-scope form alone is a different key
    assert_eq!(w_dev1.set_any(), any_w);
    assert!(!w_dev1.is_any());
    assert!(any_w.is_any());
}

#[test]
fn axis_and_dir() {
    let plus = key(20);
    let minus = key(21);
    let binds: Binds = vec![(0, vec![vec![plus]]), (1, vec![vec![minus]])];
    let mut input = InputMap::new(&binds);
    input.apply(plus, 3);
    assert_eq!(input.axis(0, 1), 3);
    input.apply(minus, 5);
    assert_eq!(input.axis(0, 1), -2);
    assert_eq!(input.dir(0, 1, 1, 0), (-2, 2));
}

#[test]
fn recently_pressed_records_concrete_code() {
    let bound = key(30);
    let stray = InputCode::Device { id: SpecifyDevice::Id(7), input: DeviceInput::Key(31) };
    let binds: Binds = vec![(0, vec![vec![bound]])];
    let mut input = InputMap::new(&binds);
    assert_eq!(input.recently_pressed, None);
    input.apply(stray, 1);
    assert_eq!(input.recently_pressed, Some(stray));
}

#[test]
fn press_sensitivity_threshold() {
    let k = key(40);
    let binds: Binds = vec![(0, vec![vec![k]])];
    let mut input = InputMap::new(&binds);
    input.press_sensitivity = 5;
    input.apply(k, 4);
    assert!(!input.pressing(0));
    assert!(!input.pressed(0));
    input.apply(k, 5);
    assert!(input.pressing(0));
    assert!(input.pressed(0));
}

#[test]
fn unknown_action_is_neutral() {
    let input = InputMap::empty();
    assert_eq!(input.value(9), 0);
    assert!(!input.pressing(9));
    assert!(!input.pressed(9));
    assert!(!input.released(9));
}

#[test]
fn capacity_checker_rejects_wide_chords() {
    let input = InputMap::empty();
    let ok: Binds = vec![(0, vec![vec![key(1), key(2), key(3), key(4)]])];
    assert!(input.can_add_binds(&ok));
    let wide: Binds = vec![(0, vec![vec![key(1), key(2), key(3), key(4), key(5)]])];
    assert!(!input.can_add_binds(&wide));
    let many: Binds = vec![(0, vec![vec![key(1)]; 17])];
    assert!(!input.can_add_binds(&many));
}

#[test]
fn add_binds_extends_without_disturbing_state() {
    let a = key(50);
    let b = key(51);
    let binds: Binds = vec![(0, vec![vec![a]])];
    let mut input = InputMap::new(&binds);
    input.apply(a, 1);
    assert_eq!(input.value(0), 1);
    let more: Binds = vec![(0, vec![vec![b]]), (1, vec![vec![b]])];
    assert!(input.can_add_binds(&more));
    input.add_binds(&more);
    assert_eq!(input.value(0), 1);
    input.apply(b, 1);
    assert_eq!(input.value(0), 2);
    assert_eq!(input.value(1), 1);
}

#[test]
fn gamepad_mappings() {
    assert_eq!(axis_pos(GamepadAxis::LeftStickX), GamepadInput::LeftStickRight);
    assert_eq!(axis_neg(GamepadAxis::LeftStickX), GamepadInput::LeftStickLeft);
    assert_eq!(axis_pos(GamepadAxis::DPadY), GamepadInput::DPadUp);
    assert_eq!(GamepadInput::from(GamepadButton::LeftTrigger), GamepadInput::LeftBumper);
    assert_eq!(GamepadInput::from(GamepadButton::RightTrigger2), GamepadInput::RightTrigger);
    let code: InputCode = GamepadInput::South.with_id(3);
    assert!(code.has_gamepad_id(3));
    assert!(!code.has_gamepad_id(4));
    assert!(!code.has_device_id(3));
    let m: InputCode = MouseButton::Left.into();
    assert!(m.is_any());
    assert_eq!(m.set_device_id(2).set_any(), m);
}

#[test]
fn tick_reset_clears_edges_and_relative_deltas() {
    let k = key(60);
    let mmr_any = InputCode::Device { id: SpecifyDevice::Any, input: DeviceInput::MouseMoveRight };
    let mmr_dev = InputCode::Device { id: SpecifyDevice::Id(1), input: DeviceInput::MouseMoveRight };
    let binds: Binds = vec![(0, vec![vec![k]]), (1, vec![vec![mmr_any]])];
    let mut input = InputMap::new(&binds);
    input.apply(k, 1);
    input.accumulate(mmr_dev, 23);
    assert!(input.pressed(0));
    assert_eq!(input.value(1), 23);
    input.init();
    // edge flags are gone, the key's level state persists, the relative
    // delta was driven back to zero through the normal update path
    assert!(!input.pressed(0));
    assert!(input.pressing(0));
    assert_eq!(input.value(0), 1);
    assert_eq!(input.value(1), 0);
    // still holding the key the next tick raises no second pressed edge
    input.apply(k, 1);
    assert!(!input.pressed(0));
    input.apply(k, 0);
    assert!(input.released(0));
    input.init();
    assert!(!input.released(0));
}

#[test]
fn tick_reset_clears_rebinding_aid_and_text() {
    let stray = InputCode::Device { id: SpecifyDevice::Id(3), input: DeviceInput::Key(9) };
    let mut input = InputMap::empty();
    input.apply(stray, 1);
    input.text_typed = Some("hi".to_string());
    assert!(input.recently_pressed.is_some());
    input.init();
    assert_eq!(input.recently_pressed, None);
    assert_eq!(input.text_typed, None);
}

#[test]
fn disconnect_clears_only_that_gamepad() {
    let south_any = InputCode::Gamepad { id: SpecifyGamepad::Any, input: GamepadInput::South };
    let south_p1 = GamepadInput::South.with_id(1);
    let south_p2 = GamepadInput::South.with_id(2);
    let binds: Binds = vec![(0, vec![vec![south_any]]), (1, vec![vec![south_p1]])];
    let mut input = InputMap::new(&binds);
    // pad 1 presses both the wildcard-bound and the pad-1-bound action
    input.apply(south_p1, 1);
    assert!(input.pressing(0));
    assert!(input.pressing(1));
    // pad 2 feeds the wildcard binding independently
    input.apply(south_p2, 1);
    assert!(input.pressing(0));
    input.disconnect_gamepad(1);
    // pad 1's own contribution is gone, with a release edge; what pad 2
    // fed through the wildcard scope survives
    assert!(!input.pressing(1));
    assert!(input.released(1));
    assert!(input.pressing(0));
    // a disconnect of an unseen pad changes nothing
    input.disconnect_gamepad(9);
    assert!(input.pressing(0));
}

#[test]
fn release_all_lets_go_of_everything() {
    let k = key(70);
    let b_p1 = GamepadInput::West.with_id(1);
    let binds: Binds = vec![(0, vec![vec![k]]), (1, vec![vec![b_p1]])];
    let mut input = InputMap::new(&binds);
    input.apply(k, 1);
    input.apply(b_p1, 1);
    input.init();
    assert!(input.pressing(0));
    assert!(input.pressing(1));
    input.release_all();
    assert_eq!(input.value(0), 0);
    assert_eq!(input.value(1), 0);
    assert!(input.released(0));
    assert!(input.released(1));
}

#[test]
fn get_binds_reads_the_table_back() {
    let a = key(80);
    let b = key(81);
    let c = key(82);
    let binds: Binds = vec![(0, vec![vec![a, b]]), (1, vec![vec![c], vec![a]])];
    let input = InputMap::new(&binds);
    let read = input.get_binds();
    assert_eq!(read, vec![(0, vec![vec![a, b]]), (1, vec![vec![c], vec![a]])]);
    // and the reading rebuilds the same table
    let rebuilt = InputMap::new(&read);
    assert_eq!(rebuilt.get_binds(), read);
}

#[test]
fn or_sum_fed_from_specific_devices() {
    let x_any = key(90);
    let y_any = key(91);
    let x_dev = x_any.set_device_id(4);
    let y_dev = y_any.set_device_id(5);
    let binds: Binds = vec![(0, vec![vec![x_any], vec![y_any]])];
    let mut input = InputMap::new(&binds);
    input.apply(x_dev, 3);
    input.apply(y_dev, 4);
    assert_eq!(input.value(0), 3 + 4);
}
