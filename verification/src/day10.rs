//! A processor with one register, a cycle counter and a screen on which a
//! sprite three pixels wide is drawn while the beam sweeps over it.

use vstd::prelude::*;

pub mod program;

verus! {

pub const WIDTH: usize = 40;

pub const HEIGHT: usize = 6;

#[derive(Debug, Clone, Copy, PartialEq, Eq)]
pub struct CPU {
    pub x: i32,
    pub cycle: i32,
    pub signal_strength: i32,
    pub screen: [[bool; 40]; 6],
}

/// Whether the beam at the column is on the sprite whose middle is at `x`.
pub open spec fn lit(x: int, column: int) -> bool {
    -1 <= x - column <= 1
}

impl CPU {
    /// The pixel at the column and row.
    pub open spec fn pixel(&self, column: int, row: int) -> bool {
        self.screen@[row]@[column]
    }

    /// The signal strength once the cycle that is under way has ended.
    pub open spec fn next_signal(&self) -> int {
        if (self.cycle + 1) % 40 == 20 {
            self.signal_strength + self.x * (self.cycle + 1)
        } else {
            self.signal_strength as int
        }
    }

    /// The beam is on the screen and the signal strength will fit.
    pub open spec fn can_tick(&self) -> bool {
        &&& 0 <= self.cycle < 240
        &&& (self.cycle + 1) % 40 == 20 ==> i32::MIN <= self.x * (self.cycle + 1) <= i32::MAX
        &&& i32::MIN <= self.next_signal() <= i32::MAX
    }

    /// The processor is the one that `before` becomes by one cycle.
    pub open spec fn follows(&self, before: &CPU) -> bool {
        &&& self.x == before.x
        &&& self.cycle == before.cycle + 1
        &&& self.signal_strength == before.next_signal()
        &&& forall|column: int, row: int|
            0 <= column < 40 && 0 <= row < 6 ==> #[trigger] self.pixel(column, row) == if row
                == before.cycle / 40 && column == before.cycle % 40 {
                lit(before.x as int, column)
            } else {
                before.pixel(column, row)
            }
    }

    pub fn new() -> (cpu: CPU)
        ensures
            cpu.x == 1,
            cpu.cycle == 0,
            cpu.signal_strength == 0,
            forall|column: int, row: int|
                0 <= column < 40 && 0 <= row < 6 ==> !#[trigger] cpu.pixel(column, row),
    {
        CPU { x: 1, cycle: 0, signal_strength: 0, screen: [[false;40];6] }
    }

    /// Draws the pixel under the beam: lit if the sprite is there.
    pub fn draw_pixel(&mut self)
        requires
            0 <= old(self).cycle < 240,
        ensures
            final(self).x == old(self).x,
            final(self).cycle == old(self).cycle,
            final(self).signal_strength == old(self).signal_strength,
            forall|column: int, row: int|
                0 <= column < 40 && 0 <= row < 6 ==> #[trigger] final(self).pixel(column, row)
                    == if row == old(self).cycle / 40 && column == old(self).cycle % 40 {
                    lit(old(self).x as int, column)
                } else {
                    old(self).pixel(column, row)
                },
    {
        let y = (self.cycle as usize) / WIDTH;
        let x = (self.cycle as usize) % WIDTH;
        let column = x as i64;
        let middle = self.x as i64;
        let on = middle - column <= 1 && column - middle <= 1;
        let mut row = self.screen[y];
        row[x] = on;
        self.screen[y] = row;
    }

    /// One cycle: the pixel is drawn, and in the middle of every line of
    /// the screen the register times the cycle is added to the signal.
    pub fn tick(&mut self)
        requires
            old(self).can_tick(),
        ensures
            final(self).follows(old(self)),
    {
        self.draw_pixel();
        let ghost drawn = *self;
        self.cycle += 1;
        if self.cycle % 40 == 20 {
            self.signal_strength += self.x * self.cycle;
        }
        proof {
            assert(self.screen == drawn.screen);
            assert forall|column: int, row: int| 0 <= column < 40 && 0 <= row < 6 implies #[trigger]
                self.pixel(column, row) == if row == old(self).cycle / 40 && column == old(
                self,
            ).cycle % 40 {
                lit(old(self).x as int, column)
            } else {
                old(self).pixel(column, row)
            } by {
                assert(self.pixel(column, row) == drawn.pixel(column, row));
            }
        }
    }

    /// The instruction that does nothing for one cycle.
    pub fn noop(&mut self)
        requires
            old(self).can_tick(),
        ensures
            final(self).follows(old(self)),
    {
        self.tick();
    }

    /// The instruction that takes two cycles and then adds to the register.
    pub fn addx(&mut self, v: i32)
        requires
            old(self).can_tick(),
            0 <= old(self).cycle < 239,
            (old(self).cycle + 2) % 40 == 20 ==> i32::MIN <= old(self).x * (old(self).cycle + 2)
                <= i32::MAX,
            i32::MIN <= old(self).next_signal() + (if (old(self).cycle + 2) % 40 == 20 {
                old(self).x * (old(self).cycle + 2)
            } else {
                0
            }) <= i32::MAX,
            i32::MIN <= old(self).x + v <= i32::MAX,
        ensures
            exists|between: CPU|
                #[trigger] between.follows(old(self)) && final(self).cycle == between.cycle + 1
                    && final(self).signal_strength == between.next_signal() && final(self).x
                    == old(self).x + v && (CPU { x: old(self).x, ..*final(self) }).follows(&between),
    {
        self.tick();
        let ghost between = *self;
        self.tick();
        let ghost after = *self;
        self.x += v;
        proof {
            let restored = CPU { x: old(self).x, ..*self };
            assert(restored.screen == after.screen);
            assert(restored.follows(&between));
        }
    }
}

} // verus!
