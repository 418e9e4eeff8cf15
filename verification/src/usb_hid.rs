//! USB keyboard and mouse on boards with a USB host driver.
//!
//! Only the Raspberry Pi 4 has one. Each function takes what the driver replied;
//! on the other board there is no driver to ask, and the reply does not matter.
use vstd::prelude::*;
use crate::board::Board;

verus! {

/// What the driver knows of the mouse.
#[derive(Clone, Copy, PartialEq, Eq, Structural, Debug)]
pub struct MouseState {
    pub buttons: u32,
    pub x: i32,
    pub y: i32,
    pub dx: i32,
    pub dy: i32,
}

impl MouseState {
    /// The state that the driver is handed to fill in.
    pub fn new() -> (s: MouseState)
        ensures
            s == (MouseState { buttons: 0, x: 0, y: 0, dx: 0, dy: 0 }),
    {
        MouseState { buttons: 0, x: 0, y: 0, dx: 0, dy: 0 }
    }
}

/// There is a USB host driver to ask.
pub open spec fn has_driver(board: Board) -> bool {
    board == Board::Rpi4
}

/// Whether a keyboard and whether a mouse were found.
pub open spec fn devices_found(board: Board, reply: i32, keyboard: i32, mouse: i32) -> (bool, bool) {
    let ready = has_driver(board) && reply == 1;
    (ready && keyboard == 1, ready && mouse == 1)
}

/// On the board without a driver nothing is ever found. On the other one a device is
/// found if the driver is ready and says so, and the one does not depend on the other.
pub proof fn lemma_devices_found(reply: i32, keyboard: i32, mouse: i32, other: i32)
    ensures
        devices_found(Board::Rpi3, reply, keyboard, mouse) == (false, false),
        devices_found(Board::Rpi4, 1, keyboard, mouse) == (keyboard == 1, mouse == 1),
        reply != 1 ==> devices_found(Board::Rpi4, reply, keyboard, mouse) == (false, false),
        devices_found(Board::Rpi4, reply, keyboard, mouse).0 == devices_found(
            Board::Rpi4,
            reply,
            keyboard,
            other,
        ).0,
        devices_found(Board::Rpi4, reply, keyboard, mouse).1 == devices_found(
            Board::Rpi4,
            reply,
            other,
            mouse,
        ).1,
{
}

/// Whether a keyboard and whether a mouse were found, given the driver's replies when
/// it was initialised and then asked for each of them. Devices may be found later: see
/// [`keyboard_ready`] and [`mouse_ready`].
pub fn usb_init(board: Board, reply: i32, keyboard: i32, mouse: i32) -> (found: (bool, bool))
    ensures
        found.0 == (has_driver(board) && reply == 1 && keyboard == 1),
        found.1 == (has_driver(board) && reply == 1 && mouse == 1),
        found == devices_found(board, reply, keyboard, mouse),
{
    match board {
        Board::Rpi4 => (reply == 1 && keyboard == 1, reply == 1 && mouse == 1),
        Board::Rpi3 => (false, false),
    }
}

/// Whether the driver's plug-and-play loop has to be driven.
pub fn usb_update(board: Board) -> (drive: bool)
    ensures
        drive == has_driver(board),
{
    match board {
        Board::Rpi4 => true,
        Board::Rpi3 => false,
    }
}

/// Whether a keyboard is connected.
pub fn keyboard_ready(board: Board, reply: i32) -> (ready: bool)
    ensures
        ready == (has_driver(board) && reply == 1),
{
    match board {
        Board::Rpi4 => reply == 1,
        Board::Rpi3 => false,
    }
}

/// The next character typed on the keyboard, or 0 if there is none.
pub fn keyboard_getc(board: Board, reply: u8) -> (c: u8)
    ensures
        c == (if has_driver(board) {
            reply
        } else {
            0
        }),
{
    match board {
        Board::Rpi4 => reply,
        Board::Rpi3 => 0,
    }
}

/// Whether a mouse is connected.
pub fn mouse_ready(board: Board, reply: i32) -> (ready: bool)
    ensures
        ready == (has_driver(board) && reply == 1),
{
    match board {
        Board::Rpi4 => reply == 1,
        Board::Rpi3 => false,
    }
}

/// The buttons and the position of the mouse.
pub fn mouse_get_state(board: Board, s: &MouseState) -> (r: (u32, i32, i32))
    ensures
        r == (if has_driver(board) {
            (s.buttons, s.x, s.y)
        } else {
            (0, 0, 0)
        }),
{
    match board {
        Board::Rpi4 => (s.buttons, s.x, s.y),
        Board::Rpi3 => (0, 0, 0),
    }
}

/// The last movement of the mouse.
pub fn mouse_get_delta(board: Board, s: &MouseState) -> (r: (i32, i32))
    ensures
        r == (if has_driver(board) {
            (s.dx, s.dy)
        } else {
            (0, 0)
        }),
{
    match board {
        Board::Rpi4 => (s.dx, s.dy),
        Board::Rpi3 => (0, 0),
    }
}

} // verus!
