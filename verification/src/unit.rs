//! A single combatant: health, the hex it stands on and the hex it walks
//! to, its progress between the two, and its fire cooldown.

use vstd::prelude::*;
use crate::structs::{Hex, Offset, UnitType};

verus! {

/// Value of the cooldown timer of a fresh unit: at least every cooldown, so
/// that a new unit may fire at once.
pub const READY: u64 = 5_000_000;

/// A unit. What is drawn of it follows from its fields: it is on the
/// way from `start_pos` to `end_pos` as far as `elapsed` is of `speed`,
/// and faces along `aim`.
#[derive(Clone, Copy, Debug, PartialEq, Eq, Structural)]
pub struct Unit {
    pub kind: UnitType,
    /// The hex the unit stands on, or leaves while it walks.
    pub start_pos: Hex,
    /// The hex the unit walks to; equal to `start_pos` while it rests.
    pub end_pos: Hex,
    pub health: i16,
    pub max_health: i16,
    /// Time walked since the unit left `start_pos`.
    pub elapsed: u64,
    /// Time the unit needs from `start_pos` to `end_pos`.
    pub speed: u32,
    /// Offset from the unit to the target it last turned to, as it was at
    /// that moment; `None` until it has turned to one.
    pub aim: Option<Offset>,
    /// Time since the last shot, no longer counted once the cooldown is over.
    pub timer: u64,
}

impl Unit {
    /// The timers are in the range the methods keep them in, and health is
    /// between zero and its ceiling, which is above zero.
    pub open spec fn wf(self) -> bool {
        &&& self.timer <= READY + u32::MAX
        &&& self.elapsed <= self.speed
        &&& 0 <= self.health <= self.max_health
        &&& 0 < self.max_health
    }

    /// A fresh unit of type `kind` that rests on `pos` and needs `speed`
    /// from hex to hex when it walks.
    pub open spec fn spec_new(kind: UnitType, pos: Hex, speed: u32) -> Unit {
        Unit {
            kind,
            start_pos: pos,
            end_pos: pos,
            health: kind.spec_max_health(),
            max_health: kind.spec_max_health(),
            elapsed: 0,
            speed,
            aim: None,
            timer: READY,
        }
    }

    /// A fresh unit of type `kind` that rests on `pos` and needs `speed`
    /// microseconds from hex to hex when it walks.
    pub fn new(kind: &UnitType, pos: Hex, speed: u32) -> (unit: Unit)
        ensures
            unit == Unit::spec_new(*kind, pos, speed),
            unit.wf(),
    {
        let health = kind.max_health();
        Unit {
            kind: *kind,
            start_pos: pos,
            end_pos: pos,
            health,
            max_health: health,
            elapsed: 0,
            speed,
            aim: None,
            timer: READY,
        }
    }

    /// Health after one round of healing: half as much again, rounded
    /// down, but no more than the ceiling. Nothing heals a unit without
    /// health.
    pub open spec fn healed(self) -> i16 {
        if self.health <= 0 {
            self.health
        } else if self.health * 3 / 2 < self.max_health {
            (self.health * 3 / 2) as i16
        } else {
            self.max_health
        }
    }

    /// One round of healing.
    pub fn heal(&mut self)
        ensures
            *final(self) == (Unit { health: old(self).healed(), ..*old(self) }),
            final(self).health <= old(self).max_health || final(self).health == old(self).health,
            old(self).health == 0 ==> final(self).health == 0,
            old(self).wf() ==> final(self).wf() && final(self).health >= old(self).health,
    {
        if self.health > 0 {
            let wide: i32 = self.health as i32;
            let grown: i32 = wide * 3 / 2;
            if grown < self.max_health as i32 {
                self.health = grown as i16;
            } else {
                self.health = self.max_health;
            }
        }
    }

    /// Offset from `from` to `to`.
    pub open spec fn offset(from: Hex, to: Hex) -> Offset {
        Offset { dx: (to.x - from.x) as i64, dy: (to.y - from.y) as i64 }
    }

    /// Whether the unit signals a shot when asked now: its cooldown is over
    /// and it is no engineer.
    pub open spec fn ready(self) -> bool {
        self.kind != UnitType::Engineer && self.timer >= self.kind.spec_cooldown()
    }

    /// The unit after it was asked to fire at `target`.
    pub open spec fn fired(self, target: Option<Hex>, delta: u32) -> Unit {
        if self.kind == UnitType::Engineer {
            self
        } else {
            Unit {
                aim: match target {
                    Some(t) => Some(Unit::offset(self.start_pos, t)),
                    None => self.aim,
                },
                timer: if self.ready() {
                    self.timer
                } else {
                    (self.timer + delta) as u64
                },
                ..self
            }
        }
    }

    /// Turns to `target`, if there is one, and lets `delta` of the cooldown
    /// pass. Returns whether the unit is ready to shoot; the timer is left
    /// running until `zero_timer` confirms the shot.
    pub fn fire(&mut self, target: Option<Hex>, delta: u32) -> (shoot: bool)
        requires
            old(self).wf(),
        ensures
            shoot == old(self).ready(),
            *final(self) == old(self).fired(target, delta),
            final(self).wf(),
    {
        if self.kind != UnitType::Engineer {
            if let Some(t) = target {
                self.aim = Some(
                    Offset {
                        dx: t.x as i64 - self.start_pos.x as i64,
                        dy: t.y as i64 - self.start_pos.y as i64,
                    },
                );
            }
            if self.timer >= self.kind.cooldown() {
                return true;
            } else {
                self.timer += delta as u64;
            }
        }
        false
    }

    /// Confirms a shot: the cooldown starts over.
    pub fn zero_timer(&mut self)
        ensures
            *final(self) == (Unit { timer: 0, ..*old(self) }),
            old(self).wf() ==> final(self).wf(),
    {
        self.timer = 0;
    }

    /// Whether `delta` more time brings the unit to the hex it walks to.
    pub open spec fn arrives(self, delta: u32) -> bool {
        self.elapsed + delta >= self.speed
    }

    /// The unit after `delta` more time of walking.
    pub open spec fn moved(self, delta: u32) -> Unit {
        if self.arrives(delta) {
            Unit { start_pos: self.end_pos, elapsed: 0, ..self }
        } else {
            Unit { elapsed: (self.elapsed + delta) as u64, ..self }
        }
    }

    /// Walks for `delta`. On arrival the unit stands on the hex it walked
    /// to, and the caller gives it the next one.
    pub fn update(&mut self, delta: u32) -> (arrived: bool)
        requires
            old(self).wf(),
        ensures
            arrived == old(self).arrives(delta),
            *final(self) == old(self).moved(delta),
            final(self).wf(),
    {
        self.elapsed += delta as u64;
        if self.elapsed >= self.speed as u64 {
            self.start_pos = self.end_pos;
            self.elapsed = 0;
            return true;
        }
        false
    }

    /// Health after a hit of `amount`, kept between zero and the ceiling.
    pub open spec fn hurt(self, amount: i16) -> i16 {
        let left: int = self.health - amount;
        if left <= 0 {
            0
        } else if left >= self.max_health {
            self.max_health
        } else {
            left as i16
        }
    }
}

} // verus!
