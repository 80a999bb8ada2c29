//! Per-player state and the deterministic rules of one simulation step.
//!
//! Positions are kept in sub-pixels (ten thousand per pixel) so that every
//! peer computes bit-identical results. The vertical velocity is kept as the
//! distance it carries a player in one tick: velocity × tick duration × the
//! physics scale factor, in sub-pixels. The screen's y axis points down, so a
//! negative velocity moves a player up and gravity adds to it.

use crate::codec::PlayerIntent;
use vstd::prelude::*;

verus! {

/// Sub-pixels in one pixel.
pub const SUBPIXELS_PER_PIXEL: i64 = 10000;

/// Width and height of the square playfield, in pixels.
pub const SCREEN_SIZE: i64 = 256;

/// Width of a player, in pixels.
pub const PLAYER_WIDTH: i64 = 30;

/// Height of a player, in pixels.
pub const PLAYER_HEIGHT: i64 = 30;

/// Horizontal distance of one move intent, in sub-pixels: a speed of 200
/// pixels per second over one tick of 1/20 s, that is 10 pixels.
pub const MOVE_STEP: i64 = 100000;

/// Largest x: the player's right edge touches the playfield's right edge.
pub const MAX_X: i64 = (SCREEN_SIZE - PLAYER_WIDTH) * SUBPIXELS_PER_PIXEL;

/// The ground: the y at which a player's bottom edge touches the playfield's.
pub const GROUND_Y: i64 = (SCREEN_SIZE - PLAYER_HEIGHT) * SUBPIXELS_PER_PIXEL;

/// Vertical velocity right after a jump, as distance per tick: a launch of
/// 50 pixels per second upwards × 1/20 s × scale factor 10, that is 25 pixels.
pub const LAUNCH_VELOCITY: i64 = -250000;

/// Change of the vertical velocity in one tick: gravity of 981 hundredths of
/// a pixel per second squared × 1/20 s × scale factor 10, kept (like the
/// velocity) as distance per tick, so × 1/20 s × 10 once more.
pub const GRAVITY_STEP: i64 = 24525;

/// Lowest y (highest point) that the state of a player may reach; far above
/// anything that jumping from the playfield can reach.
pub const MIN_Y: i64 = -1000000000000;

/// Largest downward velocity a player can have: a fall from `MIN_Y`.
pub const MAX_FALL: i64 = GROUND_Y - MIN_Y + GRAVITY_STEP;

/// Ticks of rise that bound how far up a player still moves: no upward
/// velocity lasts longer under gravity.
pub const RISE_TICKS: i64 = 11;

/// How a player is shown: the local participant, or anyone else.
#[derive(Clone, Copy, Debug, PartialEq, Eq, Structural)]
pub enum Role {
    Local,
    Enemy,
}

/// The state of one participant in the simulation.
#[derive(Clone, Copy, Debug, PartialEq, Eq, Structural)]
pub struct Player {
    pub x: i64,
    pub y: i64,
    /// `x` at the start of the current tick, for interpolated drawing.
    pub last_tick_x: i64,
    /// `y` at the start of the current tick, for interpolated drawing.
    pub last_tick_y: i64,
    /// Distance moved down in the next tick, in sub-pixels (negative: up).
    pub vertical_velocity: i64,
    pub grounded: bool,
    pub role: Role,
}

/// `x` kept on the playfield.
pub open spec fn clamp_x(x: int) -> int {
    if x < 0 {
        0
    } else if x > MAX_X {
        MAX_X as int
    } else {
        x
    }
}

/// How much higher a player with velocity `v` may still climb, as a bound.
pub open spec fn rise(v: int) -> int {
    if v < 0 {
        -v * RISE_TICKS
    } else {
        0
    }
}

/// A fresh player of the given role: at the origin, at rest, in the air.
pub open spec fn spawned(role: Role) -> Player {
    Player {
        x: 0,
        y: 0,
        last_tick_x: 0,
        last_tick_y: 0,
        vertical_velocity: 0,
        grounded: false,
        role,
    }
}

impl Player {
    /// The bounds that keep every step free of overflow: on the playfield
    /// horizontally, never below the ground, and never able to climb past
    /// `MIN_Y`, even by a jump when grounded.
    pub open spec fn wf(self) -> bool {
        &&& 0 <= self.x <= MAX_X
        &&& self.y <= GROUND_Y
        &&& LAUNCH_VELOCITY <= self.vertical_velocity <= MAX_FALL
        &&& self.y >= MIN_Y + rise(self.vertical_velocity as int) + (if self.grounded {
            rise(LAUNCH_VELOCITY as int)
        } else {
            0
        })
    }

    /// The player with its current position recorded as last tick's.
    pub open spec fn snapshotted(self) -> Player {
        Player { last_tick_x: self.x, last_tick_y: self.y, ..self }
    }

    /// The player after one intent.
    pub open spec fn moved(self, intent: PlayerIntent) -> Player {
        match intent {
            PlayerIntent::MoveLeft => Player { x: clamp_x(self.x - MOVE_STEP) as i64, ..self },
            PlayerIntent::MoveRight => Player { x: clamp_x(self.x + MOVE_STEP) as i64, ..self },
            PlayerIntent::Jump => if self.grounded {
                Player { vertical_velocity: LAUNCH_VELOCITY, grounded: false, ..self }
            } else {
                self
            },
        }
    }

    /// The player after one tick of vertical motion: it moves by its
    /// velocity, gravity adds to the velocity, and a player that reaches the
    /// ground stops on it.
    pub open spec fn integrated(self) -> Player {
        let y = self.y + self.vertical_velocity;
        if y >= GROUND_Y {
            Player { y: GROUND_Y, vertical_velocity: 0, grounded: true, ..self }
        } else {
            Player {
                y: y as i64,
                vertical_velocity: (self.vertical_velocity + GRAVITY_STEP) as i64,
                ..self
            }
        }
    }
}

/// The player after a list of intents, applied in order.
pub open spec fn after_intents(p: Player, intents: Seq<PlayerIntent>) -> Player
    decreases intents.len(),
{
    if intents.len() == 0 {
        p
    } else {
        after_intents(p, intents.drop_last()).moved(intents.last())
    }
}

impl Player {
    /// The player of the local participant.
    pub fn local() -> (r: Self)
        ensures
            r == spawned(Role::Local),
            r.wf(),
    {
        Player {
            x: 0,
            y: 0,
            last_tick_x: 0,
            last_tick_y: 0,
            vertical_velocity: 0,
            grounded: false,
            role: Role::Local,
        }
    }

    /// The player of a remote participant.
    pub fn enemy() -> (r: Self)
        ensures
            r == spawned(Role::Enemy),
            r.wf(),
    {
        Player {
            x: 0,
            y: 0,
            last_tick_x: 0,
            last_tick_y: 0,
            vertical_velocity: 0,
            grounded: false,
            role: Role::Enemy,
        }
    }

    /// Records the current position as last tick's.
    pub fn snapshot_position(&mut self)
        ensures
            *final(self) == old(self).snapshotted(),
            old(self).wf() ==> final(self).wf(),
    {
        self.last_tick_x = self.x;
        self.last_tick_y = self.y;
    }

    /// Advances vertical motion by one tick.
    pub fn update_physics(&mut self)
        requires
            old(self).wf(),
        ensures
            *final(self) == old(self).integrated(),
            final(self).wf(),
    {
        self.y = self.y + self.vertical_velocity;
        if self.y >= GROUND_Y {
            self.y = GROUND_Y;
            self.vertical_velocity = 0;
            self.grounded = true;
        } else {
            self.vertical_velocity = self.vertical_velocity + GRAVITY_STEP;
        }
    }

    /// Applies one intent: a move shifts the player by `MOVE_STEP` and keeps
    /// it on the playfield; a jump launches a grounded player and does
    /// nothing to one in the air.
    pub fn execute_intent(&mut self, intent: &PlayerIntent)
        requires
            old(self).wf(),
        ensures
            *final(self) == old(self).moved(*intent),
            final(self).wf(),
    {
        match intent {
            PlayerIntent::MoveLeft => {
                let x = self.x - MOVE_STEP;
                self.x = if x < 0 { 0 } else if x > MAX_X { MAX_X } else { x };
            },
            PlayerIntent::MoveRight => {
                let x = self.x + MOVE_STEP;
                self.x = if x < 0 { 0 } else if x > MAX_X { MAX_X } else { x };
            },
            PlayerIntent::Jump => {
                if self.grounded {
                    self.vertical_velocity = LAUNCH_VELOCITY;
                    self.grounded = false;
                }
            },
        }
    }
}

} // verus!
