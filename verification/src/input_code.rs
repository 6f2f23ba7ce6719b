//! Canonical identities for physical inputs.
//!
//! Every physical source of input (a key, a mouse button, one signed half of
//! a mouse axis, a gamepad button, one signed half of a gamepad axis) is
//! named by one [`InputCode`].  A code carries a scope: either a specific
//! device / gamepad id, or the wildcard scope that stands for any of them.
//! Wildcard and specific forms of the same physical source are distinct
//! codes, and the engine keeps state for both.

use vstd::prelude::*;

verus! {

/// One mouse button, by position.  Ids of extra buttons are carried as the
/// platform reports them.
#[derive(Clone, Copy, PartialEq, Eq, Hash, Debug, Structural)]
pub enum MouseButton {
    Left,
    Right,
    Middle,
    Back,
    Forward,
    Other(u16),
}

/// An input on the keyboard-and-mouse side: a mouse button, a key (by its
/// platform key code number), or one nonnegative direction of mouse motion
/// or mouse scrolling.
#[derive(Clone, Copy, PartialEq, Eq, Hash, Debug, Structural)]
pub enum DeviceInput {
    Button(MouseButton),
    Key(u32),
    MouseMoveLeft,
    MouseMoveRight,
    MouseMoveUp,
    MouseMoveDown,
    MouseScrollUp,
    MouseScrollDown,
    MouseScrollLeft,
    MouseScrollRight,
}

/// Which keyboard-and-mouse device a code listens to.
#[derive(Clone, Copy, PartialEq, Eq, Hash, Debug, Structural)]
pub enum SpecifyDevice {
    /// One specific device, by the caller's numbering.
    Id(u64),
    /// Any device.
    Any,
}

impl Default for SpecifyDevice {
    /// The default scope listens to any device.
    fn default() -> (r: Self)
        ensures
            r == SpecifyDevice::Any,
    {
        SpecifyDevice::Any
    }
}

/// An input on a gamepad: a button, or one nonnegative direction of an axis.
#[derive(Clone, Copy, PartialEq, Eq, Hash, Debug, Structural)]
pub enum GamepadInput {
    LeftStickLeft,
    LeftStickRight,
    LeftStickUp,
    LeftStickDown,
    LeftStickPress,
    RightStickLeft,
    RightStickRight,
    RightStickUp,
    RightStickDown,
    RightStickPress,
    DPadLeft,
    DPadRight,
    DPadUp,
    DPadDown,
    LeftZ,
    RightZ,
    South,
    East,
    North,
    West,
    LeftBumper,
    LeftTrigger,
    RightBumper,
    RightTrigger,
    Select,
    Start,
    Mode,
    Other,
}

/// Which gamepad a code listens to.
#[derive(Clone, Copy, PartialEq, Eq, Hash, Debug, Structural)]
pub enum SpecifyGamepad {
    /// One specific gamepad, by the caller's numbering.
    Id(u64),
    /// Any gamepad.
    Any,
}

impl Default for SpecifyGamepad {
    /// The default scope listens to any gamepad.
    fn default() -> (r: Self)
        ensures
            r == SpecifyGamepad::Any,
    {
        SpecifyGamepad::Any
    }
}

/// A two-sided gamepad axis, as gamepad drivers report it.  The engine never
/// stores one: [`axis_pos`] and [`axis_neg`] split it into its two
/// nonnegative [`GamepadInput`] directions.
#[derive(Clone, Copy, PartialEq, Eq, Hash, Debug, Structural)]
pub enum GamepadAxis {
    LeftStickX,
    LeftStickY,
    RightStickX,
    RightStickY,
    LeftZ,
    RightZ,
    DPadX,
    DPadY,
    Unknown,
}

/// A gamepad button, as gamepad drivers report it.
#[derive(Clone, Copy, PartialEq, Eq, Hash, Debug, Structural)]
pub enum GamepadButton {
    South,
    East,
    North,
    West,
    C,
    Z,
    LeftTrigger,
    LeftTrigger2,
    RightTrigger,
    RightTrigger2,
    Select,
    Start,
    Mode,
    LeftThumb,
    RightThumb,
    DPadUp,
    DPadDown,
    DPadLeft,
    DPadRight,
    Unknown,
}

/// The canonical identity of one physical input, with its scope.
#[derive(Clone, Copy, PartialEq, Eq, Hash, Debug, Structural)]
pub enum InputCode {
    Device { id: SpecifyDevice, input: DeviceInput },
    Gamepad { id: SpecifyGamepad, input: GamepadInput },
}

impl InputCode {
    /// The wildcard form of this code: the same input, any scope.
    pub open spec fn spec_set_any(self) -> InputCode {
        match self {
            InputCode::Device { input, .. } => InputCode::Device {
                id: SpecifyDevice::Any,
                input,
            },
            InputCode::Gamepad { input, .. } => InputCode::Gamepad {
                id: SpecifyGamepad::Any,
                input,
            },
        }
    }

    /// Whether this code has the wildcard scope.
    pub open spec fn spec_is_any(self) -> bool {
        match self {
            InputCode::Device { id, .. } => id == SpecifyDevice::Any,
            InputCode::Gamepad { id, .. } => id == SpecifyGamepad::Any,
        }
    }

    /// Turns the scope into the wildcard, keeping the input.
    #[verifier::when_used_as_spec(spec_set_any)]
    pub fn set_any(self) -> (r: Self)
        ensures
            r == self.spec_set_any(),
    {
        match self {
            InputCode::Device { input, .. } => InputCode::Device {
                id: SpecifyDevice::Any,
                input,
            },
            InputCode::Gamepad { input, .. } => InputCode::Gamepad {
                id: SpecifyGamepad::Any,
                input,
            },
        }
    }

    /// Whether the scope is the wildcard.
    #[verifier::when_used_as_spec(spec_is_any)]
    pub fn is_any(self) -> (r: bool)
        ensures
            r == self.spec_is_any(),
    {
        match self {
            InputCode::Device { id, .. } => matches!(id, SpecifyDevice::Any),
            InputCode::Gamepad { id, .. } => matches!(id, SpecifyGamepad::Any),
        }
    }

    /// Whether this code would receive events of the keyboard-and-mouse
    /// device `id`: it is device-scoped, and names `id` or the wildcard.
    pub fn has_device_id(&self, id: u64) -> (r: bool)
        ensures
            r == match *self {
                InputCode::Device { id: SpecifyDevice::Id(cid), .. } => cid == id,
                InputCode::Device { id: SpecifyDevice::Any, .. } => true,
                InputCode::Gamepad { .. } => false,
            },
    {
        match self {
            InputCode::Device { id: SpecifyDevice::Id(cid), .. } => *cid == id,
            InputCode::Device { id: SpecifyDevice::Any, .. } => true,
            InputCode::Gamepad { .. } => false,
        }
    }

    /// Whether this code would receive events of the gamepad `id`: it is
    /// gamepad-scoped, and names `id` or the wildcard.
    pub fn has_gamepad_id(&self, id: u64) -> (r: bool)
        ensures
            r == match *self {
                InputCode::Gamepad { id: SpecifyGamepad::Id(cid), .. } => cid == id,
                InputCode::Gamepad { id: SpecifyGamepad::Any, .. } => true,
                InputCode::Device { .. } => false,
            },
    {
        match self {
            InputCode::Gamepad { id: SpecifyGamepad::Id(cid), .. } => *cid == id,
            InputCode::Gamepad { id: SpecifyGamepad::Any, .. } => true,
            InputCode::Device { .. } => false,
        }
    }

    /// Scopes a gamepad code to the gamepad `id`; a device code is returned
    /// unchanged.
    pub fn set_gamepad_id(self, id: u64) -> (r: Self)
        ensures
            r == match self {
                InputCode::Gamepad { input, .. } => InputCode::Gamepad {
                    id: SpecifyGamepad::Id(id),
                    input,
                },
                InputCode::Device { .. } => self,
            },
    {
        match self {
            InputCode::Gamepad { input, .. } => InputCode::Gamepad {
                id: SpecifyGamepad::Id(id),
                input,
            },
            InputCode::Device { .. } => self,
        }
    }

    /// Scopes a device code to the device `id`; a gamepad code is returned
    /// unchanged.
    pub fn set_device_id(self, id: u64) -> (r: Self)
        ensures
            r == match self {
                InputCode::Device { input, .. } => InputCode::Device {
                    id: SpecifyDevice::Id(id),
                    input,
                },
                InputCode::Gamepad { .. } => self,
            },
    {
        match self {
            InputCode::Device { input, .. } => InputCode::Device {
                id: SpecifyDevice::Id(id),
                input,
            },
            InputCode::Gamepad { .. } => self,
        }
    }
}

impl DeviceInput {
    /// This input, scoped to the specific device `id`.
    pub fn with_id(self, id: u64) -> (r: InputCode)
        ensures
            r == (InputCode::Device { id: SpecifyDevice::Id(id), input: self }),
    {
        InputCode::Device { id: SpecifyDevice::Id(id), input: self }
    }

    /// This input, under the given device scope.
    pub fn with_sid(self, id: SpecifyDevice) -> (r: InputCode)
        ensures
            r == (InputCode::Device { id, input: self }),
    {
        InputCode::Device { id, input: self }
    }
}

impl GamepadInput {
    /// This input, scoped to the specific gamepad `id`.
    pub fn with_id(self, id: u64) -> (r: InputCode)
        ensures
            r == (InputCode::Gamepad { id: SpecifyGamepad::Id(id), input: self }),
    {
        InputCode::Gamepad { id: SpecifyGamepad::Id(id), input: self }
    }

    /// This input, under the given gamepad scope.
    pub fn with_sid(self, id: SpecifyGamepad) -> (r: InputCode)
        ensures
            r == (InputCode::Gamepad { id, input: self }),
    {
        InputCode::Gamepad { id, input: self }
    }
}

/// The direction an axis moves towards when its reading goes negative.
pub open spec fn spec_axis_neg(axis: GamepadAxis) -> GamepadInput {
    match axis {
        GamepadAxis::LeftStickX => GamepadInput::LeftStickLeft,
        GamepadAxis::LeftStickY => GamepadInput::LeftStickDown,
        GamepadAxis::RightStickX => GamepadInput::RightStickLeft,
        GamepadAxis::RightStickY => GamepadInput::RightStickDown,
        GamepadAxis::LeftZ => GamepadInput::LeftZ,
        GamepadAxis::RightZ => GamepadInput::RightZ,
        GamepadAxis::DPadX => GamepadInput::DPadLeft,
        GamepadAxis::DPadY => GamepadInput::DPadDown,
        GamepadAxis::Unknown => GamepadInput::Other,
    }
}

/// The gamepad input fed by the negative half of `axis`.
#[verifier::when_used_as_spec(spec_axis_neg)]
pub fn axis_neg(axis: GamepadAxis) -> (r: GamepadInput)
    ensures
        r == spec_axis_neg(axis),
{
    match axis {
        GamepadAxis::LeftStickX => GamepadInput::LeftStickLeft,
        GamepadAxis::LeftStickY => GamepadInput::LeftStickDown,
        GamepadAxis::RightStickX => GamepadInput::RightStickLeft,
        GamepadAxis::RightStickY => GamepadInput::RightStickDown,
        GamepadAxis::LeftZ => GamepadInput::LeftZ,
        GamepadAxis::RightZ => GamepadInput::RightZ,
        GamepadAxis::DPadX => GamepadInput::DPadLeft,
        GamepadAxis::DPadY => GamepadInput::DPadDown,
        GamepadAxis::Unknown => GamepadInput::Other,
    }
}

/// The direction an axis moves towards when its reading goes positive.
pub open spec fn spec_axis_pos(axis: GamepadAxis) -> GamepadInput {
    match axis {
        GamepadAxis::LeftStickX => GamepadInput::LeftStickRight,
        GamepadAxis::LeftStickY => GamepadInput::LeftStickUp,
        GamepadAxis::RightStickX => GamepadInput::RightStickRight,
        GamepadAxis::RightStickY => GamepadInput::RightStickUp,
        GamepadAxis::LeftZ => GamepadInput::LeftZ,
        GamepadAxis::RightZ => GamepadInput::RightZ,
        GamepadAxis::DPadX => GamepadInput::DPadRight,
        GamepadAxis::DPadY => GamepadInput::DPadUp,
        GamepadAxis::Unknown => GamepadInput::Other,
    }
}

/// The gamepad input fed by the positive half of `axis`.
#[verifier::when_used_as_spec(spec_axis_pos)]
pub fn axis_pos(axis: GamepadAxis) -> (r: GamepadInput)
    ensures
        r == spec_axis_pos(axis),
{
    match axis {
        GamepadAxis::LeftStickX => GamepadInput::LeftStickRight,
        GamepadAxis::LeftStickY => GamepadInput::LeftStickUp,
        GamepadAxis::RightStickX => GamepadInput::RightStickRight,
        GamepadAxis::RightStickY => GamepadInput::RightStickUp,
        GamepadAxis::LeftZ => GamepadInput::LeftZ,
        GamepadAxis::RightZ => GamepadInput::RightZ,
        GamepadAxis::DPadX => GamepadInput::DPadRight,
        GamepadAxis::DPadY => GamepadInput::DPadUp,
        GamepadAxis::Unknown => GamepadInput::Other,
    }
}

/// The [`GamepadInput`] that stands for a driver-reported gamepad button.
pub open spec fn spec_gamepad_button_input(value: GamepadButton) -> GamepadInput {
    match value {
        GamepadButton::South => GamepadInput::South,
        GamepadButton::East => GamepadInput::East,
        GamepadButton::North => GamepadInput::North,
        GamepadButton::West => GamepadInput::West,
        GamepadButton::LeftTrigger => GamepadInput::LeftBumper,
        GamepadButton::LeftTrigger2 => GamepadInput::LeftTrigger,
        GamepadButton::RightTrigger2 => GamepadInput::RightTrigger,
        GamepadButton::RightTrigger => GamepadInput::RightBumper,
        GamepadButton::DPadUp => GamepadInput::DPadUp,
        GamepadButton::DPadDown => GamepadInput::DPadDown,
        GamepadButton::DPadLeft => GamepadInput::DPadLeft,
        GamepadButton::DPadRight => GamepadInput::DPadRight,
        GamepadButton::Z => GamepadInput::RightZ,
        GamepadButton::C => GamepadInput::LeftZ,
        GamepadButton::Select => GamepadInput::Select,
        GamepadButton::Start => GamepadInput::Start,
        GamepadButton::Mode => GamepadInput::Mode,
        GamepadButton::RightThumb => GamepadInput::RightStickPress,
        GamepadButton::LeftThumb => GamepadInput::LeftStickPress,
        GamepadButton::Unknown => GamepadInput::Other,
    }
}

impl From<GamepadButton> for GamepadInput {
    /// Maps a driver-reported button to its canonical input.
    fn from(value: GamepadButton) -> (r: GamepadInput) {
        match value {
            GamepadButton::South => GamepadInput::South,
            GamepadButton::East => GamepadInput::East,
            GamepadButton::North => GamepadInput::North,
            GamepadButton::West => GamepadInput::West,
            GamepadButton::LeftTrigger => GamepadInput::LeftBumper,
            GamepadButton::LeftTrigger2 => GamepadInput::LeftTrigger,
            GamepadButton::RightTrigger2 => GamepadInput::RightTrigger,
            GamepadButton::RightTrigger => GamepadInput::RightBumper,
            GamepadButton::DPadUp => GamepadInput::DPadUp,
            GamepadButton::DPadDown => GamepadInput::DPadDown,
            GamepadButton::DPadLeft => GamepadInput::DPadLeft,
            GamepadButton::DPadRight => GamepadInput::DPadRight,
            GamepadButton::Z => GamepadInput::RightZ,
            GamepadButton::C => GamepadInput::LeftZ,
            GamepadButton::Select => GamepadInput::Select,
            GamepadButton::Start => GamepadInput::Start,
            GamepadButton::Mode => GamepadInput::Mode,
            GamepadButton::RightThumb => GamepadInput::RightStickPress,
            GamepadButton::LeftThumb => GamepadInput::LeftStickPress,
            GamepadButton::Unknown => GamepadInput::Other,
        }
    }
}

impl vstd::std_specs::convert::FromSpecImpl<GamepadButton> for GamepadInput {
    open spec fn obeys_from_spec() -> bool {
        true
    }

    open spec fn from_spec(value: GamepadButton) -> GamepadInput {
        spec_gamepad_button_input(value)
    }
}

impl From<DeviceInput> for InputCode {
    /// A device input under the wildcard device scope.
    fn from(value: DeviceInput) -> (r: InputCode) {
        InputCode::Device { id: SpecifyDevice::Any, input: value }
    }
}

impl vstd::std_specs::convert::FromSpecImpl<DeviceInput> for InputCode {
    open spec fn obeys_from_spec() -> bool {
        true
    }

    open spec fn from_spec(value: DeviceInput) -> InputCode {
        InputCode::Device { id: SpecifyDevice::Any, input: value }
    }
}

impl From<GamepadInput> for InputCode {
    /// A gamepad input under the wildcard gamepad scope.
    fn from(value: GamepadInput) -> (r: InputCode) {
        InputCode::Gamepad { id: SpecifyGamepad::Any, input: value }
    }
}

impl vstd::std_specs::convert::FromSpecImpl<GamepadInput> for InputCode {
    open spec fn obeys_from_spec() -> bool {
        true
    }

    open spec fn from_spec(value: GamepadInput) -> InputCode {
        InputCode::Gamepad { id: SpecifyGamepad::Any, input: value }
    }
}

impl From<MouseButton> for DeviceInput {
    /// A mouse button as a device input.
    fn from(value: MouseButton) -> (r: DeviceInput) {
        DeviceInput::Button(value)
    }
}

impl vstd::std_specs::convert::FromSpecImpl<MouseButton> for DeviceInput {
    open spec fn obeys_from_spec() -> bool {
        true
    }

    open spec fn from_spec(value: MouseButton) -> DeviceInput {
        DeviceInput::Button(value)
    }
}

impl From<MouseButton> for InputCode {
    /// A mouse button under the wildcard device scope.
    fn from(value: MouseButton) -> (r: InputCode) {
        InputCode::Device { id: SpecifyDevice::Any, input: DeviceInput::Button(value) }
    }
}

impl vstd::std_specs::convert::FromSpecImpl<MouseButton> for InputCode {
    open spec fn obeys_from_spec() -> bool {
        true
    }

    open spec fn from_spec(value: MouseButton) -> InputCode {
        InputCode::Device { id: SpecifyDevice::Any, input: DeviceInput::Button(value) }
    }
}

/// Whether `code` names a zero-centered relative delta: one direction of
/// mouse motion or of mouse scrolling.  These accumulate within a tick and
/// are driven back to zero at the tick boundary; everything else is level
/// state and persists.
pub open spec fn spec_is_relative(code: InputCode) -> bool {
    match code {
        InputCode::Device { input, .. } => match input {
            DeviceInput::MouseMoveLeft
            | DeviceInput::MouseMoveRight
            | DeviceInput::MouseMoveUp
            | DeviceInput::MouseMoveDown
            | DeviceInput::MouseScrollUp
            | DeviceInput::MouseScrollDown
            | DeviceInput::MouseScrollLeft
            | DeviceInput::MouseScrollRight => true,
            _ => false,
        },
        InputCode::Gamepad { .. } => false,
    }
}

/// Whether `code` names a zero-centered relative delta (mouse motion or
/// scrolling), which the tick boundary resets to zero.
#[verifier::when_used_as_spec(spec_is_relative)]
pub fn is_relative(code: InputCode) -> (r: bool)
    ensures
        r == spec_is_relative(code),
{
    match code {
        InputCode::Device { input, .. } => match input {
            DeviceInput::MouseMoveLeft
            | DeviceInput::MouseMoveRight
            | DeviceInput::MouseMoveUp
            | DeviceInput::MouseMoveDown
            | DeviceInput::MouseScrollUp
            | DeviceInput::MouseScrollDown
            | DeviceInput::MouseScrollLeft
            | DeviceInput::MouseScrollRight => true,
            _ => false,
        },
        InputCode::Gamepad { .. } => false,
    }
}

} // verus!
