use vstd::prelude::*;

verus! {

/// Largest magnitude of a quantized axis.
pub const AXIS_MAX: i8 = 127;

/// Button that fires the active weapon. Buttons 0 to 3 select ability
/// slots.
pub const FIRE_BUTTON: usize = 4;

/// Snapshot of a player's input, used both as a component and as the
/// payload of a command sent to the server.
#[derive(Debug, Clone, Copy, PartialEq, Eq, Structural)]
pub struct Input {
    /// Movement along x, quantized.
    pub dx: i8,
    /// Movement along y, quantized.
    pub dy: i8,
    /// Aim along x, quantized.
    pub ax: i8,
    /// Aim along y, quantized.
    pub ay: i8,
    /// Buttons, one bit each.
    pub btn: u8,
}

/// A quantized axis read as a value in `-127..=127` (that is, in 127ths).
pub open spec fn axis_value(q: i8) -> int {
    if q < -127 {
        -127
    } else {
        q as int
    }
}

fn axis(q: i8) -> (r: i32)
    ensures
        r == axis_value(q),
{
    if q < -AXIS_MAX {
        -(AXIS_MAX as i32)
    } else {
        q as i32
    }
}

impl Input {
    /// An input with every axis centred and no button down.
    pub fn neutral() -> (r: Input)
        ensures
            r == (Input { dx: 0, dy: 0, ax: 0, ay: 0, btn: 0 }),
    {
        Input { dx: 0, dy: 0, ax: 0, ay: 0, btn: 0 }
    }

    /// Movement along x, in 127ths.
    pub fn dx(&self) -> (r: i32)
        ensures
            r == axis_value(self.dx),
            -127 <= r <= 127,
    {
        axis(self.dx)
    }

    /// Movement along y, in 127ths.
    pub fn dy(&self) -> (r: i32)
        ensures
            r == axis_value(self.dy),
            -127 <= r <= 127,
    {
        axis(self.dy)
    }

    /// Aim along x, in 127ths.
    pub fn ax(&self) -> (r: i32)
        ensures
            r == axis_value(self.ax),
            -127 <= r <= 127,
    {
        axis(self.ax)
    }

    /// Aim along y, in 127ths.
    pub fn ay(&self) -> (r: i32)
        ensures
            r == axis_value(self.ay),
            -127 <= r <= 127,
    {
        axis(self.ay)
    }

    pub open spec fn button_spec(&self, i: int) -> bool {
        (self.btn >> (i as u8)) & 1u8 == 1u8
    }

    /// Whether the `i`th button is down.
    pub fn button(&self, i: usize) -> (r: bool)
        requires
            i < 8,
        ensures
            r == self.button_spec(i as int),
    {
        (self.btn >> (i as u8)) & 1u8 == 1u8
    }

    /// Whether the fire button is down.
    pub fn fire(&self) -> (r: bool)
        ensures
            r == self.button_spec(FIRE_BUTTON as int),
    {
        self.button(FIRE_BUTTON)
    }
}

/// Keys that the client polls.
#[derive(Debug, Clone, Copy, PartialEq, Eq, Structural)]
pub enum Key {
    Up,
    Down,
    Left,
    Right,
}

impl Key {
    /// Every key, in declaration order.
    pub fn variants() -> (r: Vec<Key>)
        ensures
            r@ == seq![Key::Up, Key::Down, Key::Left, Key::Right],
    {
        let mut v: Vec<Key> = Vec::new();
        v.push(Key::Up);
        v.push(Key::Down);
        v.push(Key::Left);
        v.push(Key::Right);
        v
    }
}

} // verus!
