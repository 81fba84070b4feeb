//! The input state of the keyboard and mouse and of one gamepad, updated
//! event by event.  Analog values are carried as the bit patterns of the
//! 32-bit floats the devices report; this state only stores them.
use std::collections::HashSet;
use vstd::prelude::*;

verus! {

broadcast use vstd::std_specs::hash::group_hash_axioms;

/// Two 32-bit floats, each given by its bit pattern.
#[derive(Clone, Copy, Debug, PartialEq, Eq, Structural)]
pub struct Vec2Bits {
    pub x: u32,
    pub y: u32,
}

impl Vec2Bits {
    /// Both components `0.0`.
    #[verifier::allow_in_spec]
    pub fn zeros() -> Vec2Bits
        returns
            (Vec2Bits { x: 0, y: 0 }),
    {
        Vec2Bits { x: 0, y: 0 }
    }
}

/// Whether a key or button went down or up.
#[derive(Clone, Copy, Debug, PartialEq, Eq, Structural)]
pub enum ElementState {
    Pressed,
    Released,
}

/// A mouse button.
#[derive(Clone, Copy, Debug, PartialEq, Eq, Structural)]
pub enum MouseButton {
    Left,
    Right,
    Middle,
    Other(u16),
}

/// How far the mouse wheel turned.
#[derive(Clone, Copy, Debug, PartialEq, Eq, Structural)]
pub enum MouseScrollDelta {
    /// In lines, as two floats.
    LineDelta(Vec2Bits),
    /// In pixels (touch pads), as the bit patterns of two 64-bit floats.
    PixelDelta(u64, u64),
}

/// A keyboard or mouse event, as far as the input state reads it.
#[derive(Clone, Copy, Debug, PartialEq, Eq, Structural)]
pub enum PcEvent {
    /// A key changed state; `virtual_keycode` is the key's code, if known.
    KeyboardInput { state: ElementState, virtual_keycode: Option<u32> },
    /// A mouse button changed state.
    MouseInput { state: ElementState, button: MouseButton },
    /// The cursor moved to a position in the window.
    CursorMoved { position: Vec2Bits },
    /// Raw mouse motion.
    MouseMotion { delta: Vec2Bits },
    /// The mouse wheel turned.
    MouseWheel { scroll: MouseScrollDelta },
    /// Any other event; it leaves the state as it is.
    Other,
}

/// Whether an event could be taken into the state.
#[derive(Clone, Copy, Debug, PartialEq, Eq, Structural)]
pub enum UpdateOutcome {
    Accepted,
    /// Scrolling by pixels (touch pads), which the state does not track.
    TouchpadUnsupported,
}

/// The keys held down after `e`.
pub open spec fn keys_after(keys: Set<u32>, e: PcEvent) -> Set<u32> {
    match e {
        PcEvent::KeyboardInput { state, virtual_keycode: Some(k) } => match state {
            ElementState::Pressed => keys.insert(k),
            ElementState::Released => keys.remove(k),
        },
        _ => keys,
    }
}

/// The mouse buttons held down after `e`; buttons other than the left,
/// right and middle one are not tracked.
pub open spec fn buttons_after(buttons: Set<MouseButton>, e: PcEvent) -> Set<MouseButton> {
    match e {
        PcEvent::MouseInput { state, button } => match button {
            MouseButton::Other(_) => buttons,
            _ => match state {
                ElementState::Pressed => buttons.insert(button),
                ElementState::Released => buttons.remove(button),
            },
        },
        _ => buttons,
    }
}

/// The cursor position after `e`.
pub open spec fn position_after(position: Vec2Bits, e: PcEvent) -> Vec2Bits {
    match e {
        PcEvent::CursorMoved { position: p } => p,
        _ => position,
    }
}

/// The mouse motion after `e`.
pub open spec fn delta_after(delta: Vec2Bits, e: PcEvent) -> Vec2Bits {
    match e {
        PcEvent::MouseMotion { delta: d } => d,
        _ => delta,
    }
}

/// The wheel motion after `e`.
pub open spec fn wheel_after(wheel: Vec2Bits, e: PcEvent) -> Vec2Bits {
    match e {
        PcEvent::MouseWheel { scroll: MouseScrollDelta::LineDelta(d) } => d,
        _ => wheel,
    }
}

/// The code under which a tracked mouse button is stored.
pub open spec fn button_code(b: MouseButton) -> u8 {
    match b {
        MouseButton::Left => 0,
        MouseButton::Right => 1,
        MouseButton::Middle => 2,
        MouseButton::Other(_) => 3,
    }
}

/// Keys and mouse buttons held down, and the latest mouse readings.
pub struct InputPC {
    keys_down: HashSet<u32>,
    mouse_buttons_down: HashSet<u8>,
    mouse_position: Vec2Bits,
    mouse_delta: Vec2Bits,
    mouse_wheel_delta: Vec2Bits,
}

impl InputPC {
    /// The codes of the keys held down.
    pub closed spec fn keys_down(&self) -> Set<u32> {
        self.keys_down@
    }

    /// The mouse buttons held down.
    pub closed spec fn buttons_down(&self) -> Set<MouseButton> {
        Set::new(
            |b: MouseButton|
                !(b is Other) && self.mouse_buttons_down@.contains(button_code(b)),
        )
    }

    /// The last cursor position.
    pub closed spec fn position(&self) -> Vec2Bits {
        self.mouse_position
    }

    /// The last raw mouse motion.
    pub closed spec fn delta(&self) -> Vec2Bits {
        self.mouse_delta
    }

    /// The last wheel motion.
    pub closed spec fn wheel_delta(&self) -> Vec2Bits {
        self.mouse_wheel_delta
    }

    /// Nothing held down, all readings zero.
    pub fn new() -> (s: Self)
        ensures
            s.keys_down() == Set::<u32>::empty(),
            s.buttons_down() == Set::<MouseButton>::empty(),
            s.position() == Vec2Bits::zeros(),
            s.delta() == Vec2Bits::zeros(),
            s.wheel_delta() == Vec2Bits::zeros(),
    {
        let s = InputPC {
            keys_down: HashSet::new(),
            mouse_buttons_down: HashSet::new(),
            mouse_position: Vec2Bits::zeros(),
            mouse_delta: Vec2Bits::zeros(),
            mouse_wheel_delta: Vec2Bits::zeros(),
        };
        assert(s.buttons_down() =~= Set::<MouseButton>::empty());
        s
    }

    /// Whether `button` is held down.
    pub fn is_mouse_button_down(&self, button: MouseButton) -> (r: bool)
        ensures
            r == self.buttons_down().contains(button),
    {
        let code: u8 = match button {
            MouseButton::Left => 0,
            MouseButton::Right => 1,
            MouseButton::Middle => 2,
            MouseButton::Other(_) => {
                return false;
            },
        };
        self.mouse_buttons_down.contains(&code)
    }

    /// The codes of the keys held down.
    pub fn held_keys(&self) -> (r: &HashSet<u32>)
        ensures
            r@ == self.keys_down(),
    {
        &self.keys_down
    }

    /// The mouse buttons held down, in the order left, right, middle.
    pub fn held_mouse_buttons(&self) -> (r: Vec<MouseButton>)
        ensures
            forall|b: MouseButton| r@.contains(b) <==> #[trigger] self.buttons_down().contains(b),
    {
        let mut r: Vec<MouseButton> = Vec::new();
        let l = self.is_mouse_button_down(MouseButton::Left);
        let rt = self.is_mouse_button_down(MouseButton::Right);
        let m = self.is_mouse_button_down(MouseButton::Middle);
        if l {
            r.push(MouseButton::Left);
        }
        let ghost r1 = r@;
        if rt {
            r.push(MouseButton::Right);
        }
        let ghost r2 = r@;
        if m {
            r.push(MouseButton::Middle);
        }
        assert forall|b: MouseButton| r@.contains(b) <==> #[trigger] self.buttons_down().contains(
            b,
        ) by {
            if r@.contains(b) {
                let i = choose|i: int| 0 <= i < r@.len() && r@[i] == b;
                assert(b == MouseButton::Left || b == MouseButton::Right || b
                    == MouseButton::Middle);
            }
            if self.buttons_down().contains(b) {
                match b {
                    MouseButton::Left => {
                        assert(r@[0] == b);
                    },
                    MouseButton::Right => {
                        assert(r@[r1.len() as int] == b);
                    },
                    MouseButton::Middle => {
                        assert(r@[r2.len() as int] == b);
                    },
                    MouseButton::Other(_) => {},
                }
            }
        }
        r
    }

    /// Whether the key with code `key` is held down.
    pub fn is_key_down(&self, key: u32) -> (r: bool)
        ensures
            r == self.keys_down().contains(key),
    {
        self.keys_down.contains(&key)
    }

    /// The last cursor position.
    pub fn mouse_position(&self) -> (r: Vec2Bits)
        ensures
            r == self.position(),
    {
        self.mouse_position
    }

    /// The last raw mouse motion.
    pub fn mouse_delta(&self) -> (r: Vec2Bits)
        ensures
            r == self.delta(),
    {
        self.mouse_delta
    }

    /// The last wheel motion.
    pub fn mouse_wheel_delta(&self) -> (r: Vec2Bits)
        ensures
            r == self.wheel_delta(),
    {
        self.mouse_wheel_delta
    }

    /// Takes one event into the state.
    pub fn update_events(&mut self, event: &PcEvent) -> (r: UpdateOutcome)
        ensures
            final(self).keys_down() == keys_after(old(self).keys_down(), *event),
            final(self).buttons_down() == buttons_after(old(self).buttons_down(), *event),
            final(self).position() == position_after(old(self).position(), *event),
            final(self).delta() == delta_after(old(self).delta(), *event),
            final(self).wheel_delta() == wheel_after(old(self).wheel_delta(), *event),
            r == match *event {
                PcEvent::MouseWheel { scroll: MouseScrollDelta::PixelDelta(_, _) } => {
                    UpdateOutcome::TouchpadUnsupported
                },
                _ => UpdateOutcome::Accepted,
            },
            forall|b: MouseButton| !(b is Other) && *event == (PcEvent::MouseInput { state: ElementState::Pressed, button: b }) ==> final(self).buttons_down().contains(b),
            forall|b: MouseButton| *event == (PcEvent::MouseInput { state: ElementState::Released, button: b }) ==> !final(self).buttons_down().contains(b),
    {
        let ghost old_buttons = self.buttons_down();
        match *event {
            PcEvent::KeyboardInput { state, virtual_keycode } => {
                match state {
                    ElementState::Pressed => {
                        if let Some(k) = virtual_keycode {
                            self.keys_down.insert(k);
                        }
                    },
                    ElementState::Released => {
                        if let Some(k) = virtual_keycode {
                            self.keys_down.remove(&k);
                        }
                    },
                }
                assert(self.buttons_down() =~= old_buttons);
                UpdateOutcome::Accepted
            },
            PcEvent::MouseInput { state, button } => {
                let code: u8 = match button {
                    MouseButton::Left => 0,
                    MouseButton::Right => 1,
                    MouseButton::Middle => 2,
                    MouseButton::Other(_) => {
                        assert(self.buttons_down() =~= old_buttons);
                        return UpdateOutcome::Accepted;
                    },
                };
                match state {
                    ElementState::Pressed => {
                        self.mouse_buttons_down.insert(code);
                    },
                    ElementState::Released => {
                        self.mouse_buttons_down.remove(&code);
                    },
                }
                assert forall|b: MouseButton|
                    #![trigger self.buttons_down().contains(b)]
                    self.buttons_down().contains(b) == buttons_after(old_buttons, *event).contains(
                        b,
                    ) by {
                    if !(b is Other) && button_code(b) == code {
                        assert(b == button);
                    }
                }
                assert(self.buttons_down() =~= buttons_after(old_buttons, *event));
                UpdateOutcome::Accepted
            },
            PcEvent::CursorMoved { position } => {
                self.mouse_position = position;
                assert(self.buttons_down() =~= old_buttons);
                UpdateOutcome::Accepted
            },
            PcEvent::MouseMotion { delta } => {
                self.mouse_delta = delta;
                assert(self.buttons_down() =~= old_buttons);
                UpdateOutcome::Accepted
            },
            PcEvent::MouseWheel { scroll } => {
                assert(self.buttons_down() =~= old_buttons);
                match scroll {
                    MouseScrollDelta::LineDelta(d) => {
                        self.mouse_wheel_delta = d;
                        UpdateOutcome::Accepted
                    },
                    MouseScrollDelta::PixelDelta(_, _) => UpdateOutcome::TouchpadUnsupported,
                }
            },
            PcEvent::Other => {
                assert(self.buttons_down() =~= old_buttons);
                UpdateOutcome::Accepted
            },
        }
    }

    /// Sets the mouse and wheel motion back to zero; what is held down and the
    /// cursor position stay.
    pub fn clear(&mut self)
        ensures
            final(self).keys_down() == old(self).keys_down(),
            final(self).buttons_down() == old(self).buttons_down(),
            final(self).position() == old(self).position(),
            final(self).delta() == Vec2Bits::zeros(),
            final(self).wheel_delta() == Vec2Bits::zeros(),
    {
        let ghost old_buttons = self.buttons_down();
        self.mouse_wheel_delta = Vec2Bits::zeros();
        self.mouse_delta = Vec2Bits::zeros();
        assert(self.buttons_down() =~= old_buttons);
    }
}

/// Releasing a key that was not held down before it was pressed leaves the
/// keys held down as they were before the press.
pub proof fn lemma_release_undoes_press(keys: Set<u32>, k: u32)
    requires
        !keys.contains(k),
    ensures
        keys_after(
            keys_after(
                keys,
                PcEvent::KeyboardInput { state: ElementState::Pressed, virtual_keycode: Some(k) },
            ),
            PcEvent::KeyboardInput { state: ElementState::Released, virtual_keycode: Some(k) },
        ) == keys,
{
    assert(keys.insert(k).remove(k) =~= keys);
}

/// The same for mouse buttons: releasing a tracked button that was up before
/// it was pressed leaves the buttons held down as they were.
pub proof fn lemma_button_release_undoes_press(buttons: Set<MouseButton>, b: MouseButton)
    requires
        !buttons.contains(b),
    ensures
        buttons_after(
            buttons_after(buttons, PcEvent::MouseInput { state: ElementState::Pressed, button: b }),
            PcEvent::MouseInput { state: ElementState::Released, button: b },
        ) == buttons,
{
    assert(buttons.insert(b).remove(b) =~= buttons);
}

/// A press of a left, right or middle button holds it down, a release lets
/// it up, and no other button changes; presses and releases of other buttons
/// change nothing.
pub proof fn lemma_mouse_button_events(buttons: Set<MouseButton>, b: MouseButton, st: ElementState)
    ensures
        ({
            let after = buttons_after(buttons, PcEvent::MouseInput { state: st, button: b });
            &&& !(b is Other) && st == ElementState::Pressed ==> after.contains(b)
            &&& !(b is Other) && st == ElementState::Released ==> !after.contains(b)
            &&& forall|c: MouseButton| c != b ==> (#[trigger] after.contains(c) <==> buttons.contains(c))
            &&& b is Other ==> after == buttons
        }),
{
}

/// A press of the key `k` holds it down and a release lets it up; no other
/// key changes, and a key event without a code changes nothing.
pub proof fn lemma_key_events(keys: Set<u32>, k: u32, st: ElementState)
    ensures
        ({
            let after = keys_after(keys, PcEvent::KeyboardInput { state: st, virtual_keycode: Some(k) });
            &&& st == ElementState::Pressed ==> after.contains(k)
            &&& st == ElementState::Released ==> !after.contains(k)
            &&& forall|c: u32| c != k ==> (#[trigger] after.contains(c) <==> keys.contains(c))
            &&& keys_after(keys, PcEvent::KeyboardInput { state: st, virtual_keycode: None }) == keys
        }),
{
}

/// The cursor position, mouse motion and wheel motion become the values the
/// event carries; scrolling by pixels leaves the wheel motion as it was.
pub proof fn lemma_mouse_readings(position: Vec2Bits, delta: Vec2Bits, wheel: Vec2Bits, p: Vec2Bits, a: u64, b: u64)
    ensures
        position_after(position, PcEvent::CursorMoved { position: p }) == p,
        delta_after(delta, PcEvent::MouseMotion { delta: p }) == p,
        wheel_after(wheel, PcEvent::MouseWheel { scroll: MouseScrollDelta::LineDelta(p) }) == p,
        wheel_after(wheel, PcEvent::MouseWheel { scroll: MouseScrollDelta::PixelDelta(a, b) }) == wheel,
        position_after(position, PcEvent::MouseMotion { delta: p }) == position,
        delta_after(delta, PcEvent::CursorMoved { position: p }) == delta,
{
}

/// Pressing a key twice holds it down as pressing it once does, and after a
/// release it is up however often it was pressed.
pub proof fn lemma_press_idempotent(keys: Set<u32>, k: u32)
    ensures
        ({
            let press = PcEvent::KeyboardInput {
                state: ElementState::Pressed,
                virtual_keycode: Some(k),
            };
            let release = PcEvent::KeyboardInput {
                state: ElementState::Released,
                virtual_keycode: Some(k),
            };
            &&& keys_after(keys_after(keys, press), press) == keys_after(keys, press)
            &&& !keys_after(keys_after(keys_after(keys, press), press), release).contains(k)
        }),
{
    assert(keys.insert(k).insert(k) =~= keys.insert(k));
}

/// Which axis of a gamepad moved.
#[derive(Clone, Copy, Debug, PartialEq, Eq, Structural)]
pub enum Axis {
    LeftStickX,
    LeftStickY,
    LeftZ,
    RightStickX,
    RightStickY,
    RightZ,
    DPadX,
    DPadY,
    Unknown,
}

/// A gamepad event, as far as the input state reads it; buttons are given
/// by their codes and values by their bit patterns.
#[derive(Clone, Copy, Debug, PartialEq, Eq, Structural)]
pub enum GamepadEvent {
    AxisChanged(Axis, u32),
    ButtonPressed(u16),
    ButtonReleased(u16),
    ButtonChanged(u16, u32),
    /// Any other event; it leaves the state as it is.
    Other,
}

/// The buttons held down after `e`.
pub open spec fn pad_keys_after(keys: Set<u16>, e: GamepadEvent) -> Set<u16> {
    match e {
        GamepadEvent::ButtonPressed(b) => keys.insert(b),
        GamepadEvent::ButtonReleased(b) => keys.remove(b),
        _ => keys,
    }
}

/// The left stick after `e`.
pub open spec fn left_axis_after(v: Vec2Bits, e: GamepadEvent) -> Vec2Bits {
    match e {
        GamepadEvent::AxisChanged(Axis::LeftStickX, x) => Vec2Bits { x, y: v.y },
        GamepadEvent::AxisChanged(Axis::LeftStickY, y) => Vec2Bits { x: v.x, y },
        _ => v,
    }
}

/// The right stick after `e`.
pub open spec fn right_axis_after(v: Vec2Bits, e: GamepadEvent) -> Vec2Bits {
    match e {
        GamepadEvent::AxisChanged(Axis::RightStickX, x) => Vec2Bits { x, y: v.y },
        GamepadEvent::AxisChanged(Axis::RightStickY, y) => Vec2Bits { x: v.x, y },
        _ => v,
    }
}

/// The left trigger value after `e`: a change of value of any button is
/// stored there.
pub open spec fn left_trigger_after(t: u32, e: GamepadEvent) -> u32 {
    match e {
        GamepadEvent::ButtonChanged(_, v) => v,
        _ => t,
    }
}

/// A stick event sets the one component it names to the event's value and
/// keeps the other component; each stick only moves on its own axes.
pub proof fn lemma_stick_events(left: Vec2Bits, right: Vec2Bits, x: u32)
    ensures
        right_axis_after(right, GamepadEvent::AxisChanged(Axis::RightStickX, x)).x == x,
        right_axis_after(right, GamepadEvent::AxisChanged(Axis::RightStickX, x)).y == right.y,
        right_axis_after(right, GamepadEvent::AxisChanged(Axis::RightStickY, x)).y == x,
        right_axis_after(right, GamepadEvent::AxisChanged(Axis::RightStickY, x)).x == right.x,
        left_axis_after(left, GamepadEvent::AxisChanged(Axis::LeftStickX, x)).x == x,
        left_axis_after(left, GamepadEvent::AxisChanged(Axis::LeftStickX, x)).y == left.y,
        left_axis_after(left, GamepadEvent::AxisChanged(Axis::LeftStickY, x)).y == x,
        left_axis_after(left, GamepadEvent::AxisChanged(Axis::LeftStickY, x)).x == left.x,
        right_axis_after(right, GamepadEvent::AxisChanged(Axis::LeftStickX, x)) == right,
        right_axis_after(right, GamepadEvent::AxisChanged(Axis::LeftStickY, x)) == right,
        left_axis_after(left, GamepadEvent::AxisChanged(Axis::RightStickX, x)) == left,
        left_axis_after(left, GamepadEvent::AxisChanged(Axis::RightStickY, x)) == left,
{
}

/// A button press holds the button down, a release lets it up, and no other
/// button changes.
pub proof fn lemma_pad_button_events(keys: Set<u16>, b: u16)
    ensures
        pad_keys_after(keys, GamepadEvent::ButtonPressed(b)).contains(b),
        !pad_keys_after(keys, GamepadEvent::ButtonReleased(b)).contains(b),
        forall|c: u16| c != b ==> (#[trigger] pad_keys_after(keys, GamepadEvent::ButtonPressed(b)).contains(c) <==> keys.contains(c)),
        forall|c: u16| c != b ==> (#[trigger] pad_keys_after(keys, GamepadEvent::ButtonReleased(b)).contains(c) <==> keys.contains(c)),
{
}

/// The buttons of one gamepad held down, and its triggers and sticks.
pub struct InputGamepad {
    keys_down: HashSet<u16>,
    left_trigger2_value: u32,
    right_trigger2_value: u32,
    left_axis_value: Vec2Bits,
    right_axis_value: Vec2Bits,
}

impl InputGamepad {
    /// The codes of the buttons held down.
    pub closed spec fn keys_down(&self) -> Set<u16> {
        self.keys_down@
    }

    /// The left trigger value.
    pub closed spec fn left_trigger(&self) -> u32 {
        self.left_trigger2_value
    }

    /// The right trigger value.
    pub closed spec fn right_trigger(&self) -> u32 {
        self.right_trigger2_value
    }

    /// The left stick.
    pub closed spec fn left_axis(&self) -> Vec2Bits {
        self.left_axis_value
    }

    /// The right stick.
    pub closed spec fn right_axis(&self) -> Vec2Bits {
        self.right_axis_value
    }

    /// Nothing held down, all values zero.
    pub fn new() -> (s: Self)
        ensures
            s.keys_down() == Set::<u16>::empty(),
            s.left_trigger() == 0,
            s.right_trigger() == 0,
            s.left_axis() == Vec2Bits::zeros(),
            s.right_axis() == Vec2Bits::zeros(),
    {
        InputGamepad {
            keys_down: HashSet::new(),
            left_trigger2_value: 0,
            right_trigger2_value: 0,
            left_axis_value: Vec2Bits::zeros(),
            right_axis_value: Vec2Bits::zeros(),
        }
    }

    /// The codes of the buttons held down.
    pub fn held_buttons(&self) -> (r: &HashSet<u16>)
        ensures
            r@ == self.keys_down(),
    {
        &self.keys_down
    }

    /// Whether the button with code `button` is held down.
    pub fn is_button_down(&self, button: u16) -> (r: bool)
        ensures
            r == self.keys_down().contains(button),
    {
        self.keys_down.contains(&button)
    }

    /// The left and right trigger values.
    pub fn trigger_values(&self) -> (r: (u32, u32))
        ensures
            r == (self.left_trigger(), self.right_trigger()),
    {
        (self.left_trigger2_value, self.right_trigger2_value)
    }

    /// The left and right sticks.
    pub fn axis_values(&self) -> (r: (Vec2Bits, Vec2Bits))
        ensures
            r == (self.left_axis(), self.right_axis()),
    {
        (self.left_axis_value, self.right_axis_value)
    }

    /// Sets triggers and sticks back to zero; the buttons held down stay.
    pub fn clear(&mut self)
        ensures
            final(self).keys_down() == old(self).keys_down(),
            final(self).left_trigger() == 0,
            final(self).right_trigger() == 0,
            final(self).left_axis() == Vec2Bits::zeros(),
            final(self).right_axis() == Vec2Bits::zeros(),
    {
        self.left_trigger2_value = 0;
        self.right_trigger2_value = 0;
        self.left_axis_value = Vec2Bits::zeros();
        self.right_axis_value = Vec2Bits::zeros();
    }

    /// Takes one event into the state.
    pub fn update_events(&mut self, event: &GamepadEvent)
        ensures
            final(self).keys_down() == pad_keys_after(old(self).keys_down(), *event),
            final(self).left_axis() == left_axis_after(old(self).left_axis(), *event),
            final(self).right_axis() == right_axis_after(old(self).right_axis(), *event),
            final(self).left_trigger() == left_trigger_after(old(self).left_trigger(), *event),
            final(self).right_trigger() == old(self).right_trigger(),
            forall|x: u32| *event == GamepadEvent::AxisChanged(Axis::RightStickX, x) ==> final(self).right_axis() == (Vec2Bits { x, y: old(self).right_axis().y }),
            forall|y: u32| *event == GamepadEvent::AxisChanged(Axis::RightStickY, y) ==> final(self).right_axis() == (Vec2Bits { x: old(self).right_axis().x, y }),
            forall|x: u32| *event == GamepadEvent::AxisChanged(Axis::LeftStickX, x) ==> final(self).left_axis() == (Vec2Bits { x, y: old(self).left_axis().y }),
            forall|y: u32| *event == GamepadEvent::AxisChanged(Axis::LeftStickY, y) ==> final(self).left_axis() == (Vec2Bits { x: old(self).left_axis().x, y }),
    {
        match *event {
            GamepadEvent::AxisChanged(Axis::LeftStickX, x) => {
                self.left_axis_value = Vec2Bits { x, y: self.left_axis_value.y };
            },
            GamepadEvent::AxisChanged(Axis::LeftStickY, y) => {
                self.left_axis_value = Vec2Bits { x: self.left_axis_value.x, y };
            },
            GamepadEvent::AxisChanged(Axis::RightStickX, x) => {
                self.right_axis_value = Vec2Bits { x, y: self.right_axis_value.y };
            },
            GamepadEvent::AxisChanged(Axis::RightStickY, y) => {
                self.right_axis_value = Vec2Bits { x: self.right_axis_value.x, y };
            },
            GamepadEvent::ButtonPressed(b) => {
                self.keys_down.insert(b);
            },
            GamepadEvent::ButtonReleased(b) => {
                self.keys_down.remove(&b);
            },
            GamepadEvent::ButtonChanged(_, v) => {
                self.left_trigger2_value = v;
            },
            _ => {},
        }
    }
}

} // verus!
