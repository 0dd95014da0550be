//! Field state the simulation keeps: timed pushes on a field's outdoor
//! value, and the clock as the climate terms see it.
use vstd::prelude::*;
use crate::terms::{tdiv, fits_i64, Env};

verus! {

/// How often room-state fields update, in ticks.
pub const ROOM_INTERVAL: u64 = 60;

/// How often outdoor values are recomputed from their terms and pushes.
pub const AMBIENT_INTERVAL: u64 = 20;

/// A named contribution to a field's outdoor value. It eases from `from`
/// to `to` over `ease` ticks starting at `start`, and after `until` it
/// eases back out to zero and disappears.
#[derive(Clone, Debug, PartialEq)]
pub struct Push {
    pub key: String,
    pub from: i64,
    pub to: i64,
    pub start: u64,
    pub ease: u64,
    pub until: Option<u64>,
    /// Easing out after expiring or being cleared; removed at zero.
    pub fading: bool,
}

/// A push's value at `tick`: `to` once eased in (or with no easing), else
/// the straight line from `from`, rounded toward zero.
pub open spec fn push_value(from: int, to: int, start: int, ease: int, tick: int) -> int {
    if ease == 0 || tick >= start + ease {
        to
    } else {
        let t = if tick > start { tick - start } else { 0 };
        from + tdiv((to - from) * t, ease)
    }
}

/// Evaluating a push at `tick` stays within machine integers.
pub open spec fn push_value_ok(from: int, to: int, start: int, ease: int, tick: int) -> bool {
    ease == 0 || {
        &&& start + ease <= u64::MAX
        &&& (tick >= start + ease || {
            let t = if tick > start { tick - start } else { 0 };
            &&& ease <= i64::MAX
            &&& fits_i64(to - from)
            &&& fits_i64((to - from) * t)
            &&& fits_i64(from + tdiv((to - from) * t, ease))
        })
    }
}

impl Push {
    /// Current value in `Q` units.
    pub fn value(&self, tick: u64) -> (r: i64)
        requires
            push_value_ok(self.from as int, self.to as int, self.start as int, self.ease as int, tick as int),
        ensures
            r == push_value(self.from as int, self.to as int, self.start as int, self.ease as int, tick as int),
    {
        if self.ease == 0 || tick >= self.start + self.ease {
            return self.to;
        }
        let t = if tick > self.start { tick - self.start } else { 0 } as i64;
        self.from + (self.to - self.from) * t / self.ease as i64
    }
}

/// Outdoor-value state for one field.
#[derive(Clone, Debug)]
pub struct Atmos {
    /// Set by scripts: overrides terms and pushes (tests, tools).
    pub pin: Option<i64>,
    pub pushes: Vec<Push>,
    /// Last computed outdoor value, `Q` units.
    pub value: i64,
}

impl Default for Atmos {
    fn default() -> (r: Self)
        ensures
            r.pin is None,
            r.pushes@.len() == 0,
            r.value == 0,
    {
        Atmos { pin: None, pushes: Vec::new(), value: 0 }
    }
}

/// The clock, as terms see it.
#[derive(Clone, Copy, Debug)]
pub struct Clock {
    pub tick: u64,
    /// Fraction of the year, 0..Q.
    pub year: i64,
    /// Hour of day, 0..24·Q.
    pub hour: i64,
    pub seed: u64,
}

/// What terms see when outdoor values are computed: the clock, and every
/// field's outdoor value so far, by field.
pub struct AmbEnv<'a> {
    pub year: i64,
    pub hour: i64,
    pub tick: u64,
    pub seed: u64,
    pub vals: &'a [i64],
}

impl<'a> AmbEnv<'a> {
    /// The environment of the clock `c` and outdoor values `vals`.
    pub fn new(c: Clock, vals: &'a [i64]) -> (r: Self)
        ensures
            r.year == c.year,
            r.hour == c.hour,
            r.tick == c.tick,
            r.seed == c.seed,
            r.vals@ == vals@,
    {
        AmbEnv { year: c.year, hour: c.hour, tick: c.tick, seed: c.seed, vals }
    }
}

impl<'a> Env for AmbEnv<'a> {
    open spec fn year_spec(&self) -> i64 {
        self.year
    }

    open spec fn hour_spec(&self) -> i64 {
        self.hour
    }

    open spec fn has_field(&self, field: int) -> bool {
        0 <= field < self.vals@.len()
    }

    open spec fn ambient_spec(&self, field: int) -> i64 {
        self.vals@[field]
    }

    open spec fn tick_spec(&self) -> u64 {
        self.tick
    }

    open spec fn seed_spec(&self) -> u64 {
        self.seed
    }

    fn year(&self) -> (r: i64) {
        self.year
    }

    fn hour(&self) -> (r: i64) {
        self.hour
    }

    fn ambient(&self, field: usize) -> (r: i64) {
        self.vals[field]
    }

    fn tick(&self) -> (r: u64) {
        self.tick
    }

    fn seed(&self) -> (r: u64) {
        self.seed
    }
}

} // verus!
