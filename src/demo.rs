//! The demonstration application behind the interrupt endpoints: a mouse
//! that traces a square and a keyboard that taps a key now and then.
use vstd::prelude::*;
use crate::descriptors::KeyboardReport;

verus! {

/// Key code of the letter B.
pub const KEY_B: u8 = 0x05;

/// Movement of the mouse on poll number `tick`: one unit every fourth poll,
/// right, down, left, up in turn (as two's-complement bytes `x`, `y`).
pub open spec fn mouse_motion(tick: u32) -> (u8, u8) {
    if tick % 4 != 0 {
        (0, 0)
    } else {
        let mode = (tick / 4) % 4;
        if mode == 0 {
            (1, 0)
        } else if mode == 1 {
            (0, 1)
        } else if mode == 2 {
            (0xff, 0)
        } else {
            (0, 0xff)
        }
    }
}

/// The key pressed in the report after poll number `tick`: B once every 128
/// polls.
pub open spec fn key_after(tick: u32) -> u8 {
    if tick % 128 == 1 {
        KEY_B
    } else {
        0
    }
}

/// The reports that the demonstration sends.
pub struct DemoReports {
    mouse_ticks: u32,
    keyboard_ticks: u32,
    keyboard: KeyboardReport,
}

impl DemoReports {
    pub closed spec fn mouse_ticks(&self) -> u32 {
        self.mouse_ticks
    }

    pub closed spec fn keyboard_ticks(&self) -> u32 {
        self.keyboard_ticks
    }

    pub closed spec fn pending_key(&self) -> u8 {
        self.keyboard.keycodes[2]
    }

    pub fn new() -> (r: DemoReports)
        ensures
            r.mouse_ticks() == 0,
            r.keyboard_ticks() == 0,
            r.pending_key() == 0,
    {
        DemoReports {
            mouse_ticks: 0,
            keyboard_ticks: 0,
            keyboard: KeyboardReport { modifier: 0, reserved: 0, leds: 0, keycodes: [0; 6] },
        }
    }

    /// The next mouse report: no buttons, the motion of this poll, no wheel.
    pub fn mouse_report(&mut self) -> (r: [u8; 4])
        ensures
            final(self).mouse_ticks() == old(self).mouse_ticks().wrapping_add(1),
            final(self).keyboard_ticks() == old(self).keyboard_ticks(),
            final(self).pending_key() == old(self).pending_key(),
            r@ == seq![
                0u8,
                mouse_motion(final(self).mouse_ticks()).0,
                mouse_motion(final(self).mouse_ticks()).1,
                0u8,
            ],
    {
        self.mouse_ticks = self.mouse_ticks.wrapping_add(1);
        let t = self.mouse_ticks;
        let mut x: u8 = 0;
        let mut y: u8 = 0;
        if t % 4 == 0 {
            let mode = (t / 4) % 4;
            if mode == 0 {
                x = 1;
            } else if mode == 1 {
                y = 1;
            } else if mode == 2 {
                x = 0xff;
            } else {
                y = 0xff;
            }
        }
        let r = [0u8, x, y, 0u8];
        assert(r@ =~= seq![0u8, x, y, 0u8]);
        r
    }

    /// The next keyboard report: the one prepared at the previous poll; then
    /// the poll is counted and the next report prepared.
    pub fn keyboard_report(&mut self) -> (r: [u8; 8])
        ensures
            r@ == seq![0u8, 0u8, 0u8, 0u8, old(self).pending_key(), 0u8, 0u8, 0u8],
            final(self).keyboard_ticks() == old(self).keyboard_ticks().wrapping_add(1),
            final(self).pending_key() == key_after(final(self).keyboard_ticks()),
            final(self).mouse_ticks() == old(self).mouse_ticks(),
    {
        let r = [0u8, 0u8, 0u8, 0u8, self.keyboard.keycodes[2], 0u8, 0u8, 0u8];
        assert(r@ =~= seq![0u8, 0u8, 0u8, 0u8, old(self).pending_key(), 0u8, 0u8, 0u8]);
        self.keyboard_ticks = self.keyboard_ticks.wrapping_add(1);
        let key: u8 = if self.keyboard_ticks % 128 == 1 {
            KEY_B
        } else {
            0
        };
        self.keyboard = KeyboardReport { modifier: 0, reserved: 0, leds: 0, keycodes: [0, 0, key, 0, 0, 0] };
        r
    }
}

} // verus!
