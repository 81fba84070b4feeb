use libgefs::engine::input::{
    Axis, ElementState, GamepadEvent, InputGamepad, InputPC, MouseButton, MouseScrollDelta,
    PcEvent, UpdateOutcome, Vec2Bits,
};

fn bits(x: f32, y: f32) -> Vec2Bits {
    Vec2Bits { x: x.to_bits(), y: y.to_bits() }
}

fn key(state: ElementState, code: u32) -> PcEvent {
    PcEvent::KeyboardInput { state, virtual_keycode: Some(code) }
}

#[test]
fn keys_go_down_and_up() {
    let mut i = InputPC::new();
    assert!(!i.is_key_down(36));
    assert_eq!(i.update_events(&key(ElementState::Pressed, 36)), UpdateOutcome::Accepted);
    assert!(i.is_key_down(36));
    i.update_events(&key(ElementState::Pressed, 36));
    i.update_events(&key(ElementState::Released, 36));
    assert!(!i.is_key_down(36));
    // an unknown key changes nothing
    i.update_events(&PcEvent::KeyboardInput { state: ElementState::Pressed, virtual_keycode: None });
    assert!(!i.is_key_down(0));
}

#[test]
fn mouse_buttons_go_down_and_up() {
    let mut i = InputPC::new();
    i.update_events(&PcEvent::MouseInput { state: ElementState::Pressed, button: MouseButton::Left });
    i.update_events(&PcEvent::MouseInput { state: ElementState::Pressed, button: MouseButton::Other(7) });
    assert!(i.is_mouse_button_down(MouseButton::Left));
    assert!(!i.is_mouse_button_down(MouseButton::Right));
    assert!(!i.is_mouse_button_down(MouseButton::Other(7)));
    i.update_events(&PcEvent::MouseInput { state: ElementState::Released, button: MouseButton::Left });
    assert!(!i.is_mouse_button_down(MouseButton::Left));
}

#[test]
fn mouse_readings_and_clear() {
    let mut i = InputPC::new();
    i.update_events(&PcEvent::CursorMoved { position: bits(10.0, 20.5) });
    i.update_events(&PcEvent::MouseMotion { delta: bits(1.0, -2.0) });
    i.update_events(&PcEvent::MouseWheel { scroll: MouseScrollDelta::LineDelta(bits(0.0, 3.0)) });
    i.update_events(&key(ElementState::Pressed, 4));
    assert_eq!(i.mouse_position(), bits(10.0, 20.5));
    assert_eq!(i.mouse_delta(), bits(1.0, -2.0));
    assert_eq!(i.mouse_wheel_delta(), bits(0.0, 3.0));
    i.clear();
    assert_eq!(i.mouse_delta(), Vec2Bits::zeros());
    assert_eq!(i.mouse_wheel_delta(), Vec2Bits::zeros());
    assert_eq!(i.mouse_position(), bits(10.0, 20.5));
    assert!(i.is_key_down(4));
}

#[test]
fn touchpad_scrolling_is_reported_unsupported() {
    let mut i = InputPC::new();
    let r = i.update_events(&PcEvent::MouseWheel { scroll: MouseScrollDelta::PixelDelta(1, 2) });
    assert_eq!(r, UpdateOutcome::TouchpadUnsupported);
    assert_eq!(i.mouse_wheel_delta(), Vec2Bits::zeros());
    assert_eq!(i.update_events(&PcEvent::Other), UpdateOutcome::Accepted);
}

#[test]
fn gamepad_sticks_buttons_and_triggers() {
    let mut g = InputGamepad::new();
    g.update_events(&GamepadEvent::AxisChanged(Axis::LeftStickX, 0.5f32.to_bits()));
    g.update_events(&GamepadEvent::AxisChanged(Axis::LeftStickY, (-0.25f32).to_bits()));
    g.update_events(&GamepadEvent::AxisChanged(Axis::RightStickY, 1.0f32.to_bits()));
    g.update_events(&GamepadEvent::AxisChanged(Axis::LeftZ, 0.75f32.to_bits()));
    let (left, right) = g.axis_values();
    assert_eq!(left, bits(0.5, -0.25));
    assert_eq!(right, bits(0.0, 1.0));
    g.update_events(&GamepadEvent::ButtonPressed(3));
    assert!(g.is_button_down(3));
    g.update_events(&GamepadEvent::ButtonReleased(3));
    assert!(!g.is_button_down(3));
    // a change of value of any button lands in the left trigger
    g.update_events(&GamepadEvent::ButtonChanged(9, 0.6f32.to_bits()));
    assert_eq!(g.trigger_values(), (0.6f32.to_bits(), 0));
    g.update_events(&GamepadEvent::ButtonPressed(5));
    g.clear();
    assert_eq!(g.trigger_values(), (0, 0));
    assert_eq!(g.axis_values(), (Vec2Bits::zeros(), Vec2Bits::zeros()));
    assert!(g.is_button_down(5));
}

#[test]
fn held_keys_and_buttons_are_listed() {
    let mut i = InputPC::new();
    i.update_events(&key(ElementState::Pressed, 12));
    i.update_events(&key(ElementState::Pressed, 30));
    i.update_events(&PcEvent::MouseInput { state: ElementState::Pressed, button: MouseButton::Middle });
    i.update_events(&PcEvent::MouseInput { state: ElementState::Pressed, button: MouseButton::Left });
    let mut keys: Vec<u32> = i.held_keys().iter().copied().collect();
    keys.sort();
    assert_eq!(keys, vec![12, 30]);
    assert_eq!(i.held_mouse_buttons(), vec![MouseButton::Left, MouseButton::Middle]);
    let mut g = InputGamepad::new();
    g.update_events(&GamepadEvent::ButtonPressed(7));
    assert!(g.held_buttons().contains(&7));
    assert_eq!(g.held_buttons().len(), 1);
}
