//! The world's time as the calendar counts it: days, years, seasons, and
//! the clock terms read. Tick 0 is 06:00 on the calendar's start day.
use vstd::prelude::*;
use crate::defs::CalendarDef;
use crate::field::Clock;
use crate::terms::Q;
use crate::TICKS_PER_DAY;

verus! {

/// What the calendar arithmetic reads of the world: its tick, the seed
/// terms mix in, and the calendar the mods set.
pub struct Time<'a> {
    pub tick: u64,
    pub seed: u64,
    pub calendar: &'a CalendarDef,
}

/// A calendar as loading leaves it: at least a day long, at least one
/// season (and no more than a season index counts), and a start day
/// within the year.
pub open spec fn calendar_ok(c: CalendarDef) -> bool {
    c.year_days >= 1 && 1 <= c.seasons@.len() <= u32::MAX && c.start_day < c.year_days
}

/// Ticks since the start of the year the game began in.
pub open spec fn year_ticks_spec(c: CalendarDef, tick: int) -> int {
    c.start_day * TICKS_PER_DAY + tick
}

/// Ticks in a year.
pub open spec fn year_len_spec(c: CalendarDef) -> int {
    c.year_days * TICKS_PER_DAY
}

/// Day of the year, 0-based.
pub open spec fn day_of_year_spec(c: CalendarDef, tick: int) -> int {
    (year_ticks_spec(c, tick) % year_len_spec(c)) / TICKS_PER_DAY as int
}

/// Years since the game began, 0-based.
pub open spec fn year_spec(c: CalendarDef, tick: int) -> int {
    year_ticks_spec(c, tick) / year_len_spec(c)
}

/// The season at a tick: the year in equal parts, one per season.
pub open spec fn season_at_spec(c: CalendarDef, tick: int) -> int {
    day_of_year_spec(c, tick) * c.seasons@.len() / c.year_days as int
}

/// The day of the year a season starts on: the first day at or past its
/// share of the year.
pub open spec fn season_start_spec(c: CalendarDef, s: int) -> int {
    let n = c.seasons@.len() as int;
    (s * c.year_days + n - 1) / n
}

/// Day within the season, 1-based.
pub open spec fn day_of_season_spec(c: CalendarDef, tick: int) -> int {
    day_of_year_spec(c, tick) - season_start_spec(c, season_at_spec(c, tick)) + 1
}

/// Hour of the day in fixed point, 0 to 24·Q; tick 0 is 06:00.
pub open spec fn hour_q_spec(tick: int) -> int {
    ((tick + TICKS_PER_DAY / 4) % TICKS_PER_DAY as int) * 24 * Q / TICKS_PER_DAY as int
}

/// Fraction of the year in fixed point, 0 to Q.
pub open spec fn year_q_spec(c: CalendarDef, tick: int) -> int {
    (year_ticks_spec(c, tick) % year_len_spec(c)) * Q / year_len_spec(c)
}

/// The tick, counted from the calendar's start, fits a `u64`.
pub open spec fn time_ok(c: CalendarDef, tick: int) -> bool {
    calendar_ok(c) && year_ticks_spec(c, tick) <= u64::MAX
}

impl<'a> Time<'a> {
    pub fn day(&self) -> (r: u64)
        ensures
            r == self.tick / TICKS_PER_DAY,
    {
        self.tick / TICKS_PER_DAY
    }

    fn year_ticks(&self) -> (r: u64)
        requires
            time_ok(*self.calendar, self.tick as int),
        ensures
            r == year_ticks_spec(*self.calendar, self.tick as int),
    {
        self.calendar.start_day as u64 * TICKS_PER_DAY + self.tick
    }

    fn year_len(&self) -> (r: u64)
        requires
            calendar_ok(*self.calendar),
        ensures
            r == year_len_spec(*self.calendar),
            r > 0,
    {
        self.calendar.year_days as u64 * TICKS_PER_DAY
    }

    /// Day of the year, 0-based.
    pub fn day_of_year(&self) -> (r: u32)
        requires
            time_ok(*self.calendar, self.tick as int),
        ensures
            r == day_of_year_spec(*self.calendar, self.tick as int),
            r < self.calendar.year_days,
    {
        let yl = self.year_len();
        let yt = self.year_ticks();
        let d = (yt % yl) / TICKS_PER_DAY;
        proof {
            let yd = self.calendar.year_days as int;
            assert(d < yd) by (nonlinear_arith)
                requires
                    d == (yt % yl) / 20000,
                    yl == yd * 20000,
                    yd >= 1,
                    yt % yl < yl,
            ;
        }
        d as u32
    }

    /// Years since the game began, 0-based.
    pub fn year(&self) -> (r: u64)
        requires
            time_ok(*self.calendar, self.tick as int),
        ensures
            r == year_spec(*self.calendar, self.tick as int),
    {
        self.year_ticks() / self.year_len()
    }

    /// The season at another tick (for noticing that one began).
    pub fn season_index_at(&self, tick: u64) -> (r: u32)
        requires
            time_ok(*self.calendar, tick as int),
            day_of_year_spec(*self.calendar, tick as int) * self.calendar.seasons@.len() <= u64::MAX,
        ensures
            r == season_at_spec(*self.calendar, tick as int),
            r < self.calendar.seasons@.len(),
    {
        let c = self.calendar;
        let later = Time { tick, seed: self.seed, calendar: c };
        let doy = later.day_of_year() as u64;
        let n = c.seasons.len() as u64;
        let yd = c.year_days as u64;
        let s = doy * n / yd;
        proof {
            assert(s < n) by (nonlinear_arith)
                requires
                    s == (doy * n) / (yd as int),
                    doy < yd,
                    n >= 1,
                    yd >= 1,
            ;
        }
        s as u32
    }

    /// Index of the current season in the calendar.
    pub fn season_index(&self) -> (r: u32)
        requires
            time_ok(*self.calendar, self.tick as int),
            day_of_year_spec(*self.calendar, self.tick as int) * self.calendar.seasons@.len() <= u64::MAX,
        ensures
            r == season_at_spec(*self.calendar, self.tick as int),
            r < self.calendar.seasons@.len(),
    {
        self.season_index_at(self.tick)
    }

    /// The current season's name.
    pub fn season(&self) -> (r: &str)
        requires
            time_ok(*self.calendar, self.tick as int),
            day_of_year_spec(*self.calendar, self.tick as int) * self.calendar.seasons@.len() <= u64::MAX,
        ensures
            r@ == self.calendar.seasons@[season_at_spec(*self.calendar, self.tick as int)]@,
    {
        let i = self.season_index();
        self.calendar.seasons[i as usize].as_str()
    }

    /// Day within the current season, 1-based.
    pub fn day_of_season(&self) -> (r: u32)
        requires
            time_ok(*self.calendar, self.tick as int),
            day_of_year_spec(*self.calendar, self.tick as int) * self.calendar.seasons@.len() <= u64::MAX,
            season_at_spec(*self.calendar, self.tick as int) * self.calendar.year_days <= u32::MAX,
        ensures
            r == day_of_season_spec(*self.calendar, self.tick as int),
    {
        let c = self.calendar;
        let n = c.seasons.len() as u32;
        let si = self.season_index();
        let doy = self.day_of_year();
        let prod = si * c.year_days;
        // Rounded up, as `u32::div_ceil` does.
        let q = prod / n;
        let rem = prod % n;
        proof {
            assert(q + 1 <= u32::MAX || rem == 0) by (nonlinear_arith)
                requires
                    q == prod / n,
                    rem == prod % n,
                    n >= 1,
                    prod <= u32::MAX,
            ;
        }
        let start = q + if rem != 0 { 1 } else { 0 };
        proof {
            let nn = c.seasons@.len() as int;
            let yd = c.year_days as int;
            assert(si * yd <= doy * nn) by (nonlinear_arith)
                requires
                    si == (doy * nn) / yd,
                    yd >= 1,
            ;
            assert((si * yd + nn - 1) / nn <= doy) by (nonlinear_arith)
                requires
                    si * yd <= doy * nn,
                    nn >= 1,
            ;
            assert(start == (prod + nn - 1) / nn) by (nonlinear_arith)
                requires
                    start == (prod as int) / nn + if (prod as int) % nn != 0 { 1int } else { 0int },
                    nn >= 1,
                    prod >= 0,
            ;
        }
        doy - start + 1
    }

    /// The clock as terms see it: fraction of the year and hour of day in
    /// fixed point.
    pub fn clock(&self) -> (r: Clock)
        requires
            time_ok(*self.calendar, self.tick as int),
        ensures
            r.tick == self.tick,
            r.seed == self.seed,
            r.year == year_q_spec(*self.calendar, self.tick as int),
            r.hour == hour_q_spec(self.tick as int),
    {
        let yl = self.year_len();
        let yt = self.year_ticks();
        let part: u64 = yt % yl;
        let year: i128 = part as i128 * (Q as i128) / yl as i128;
        let within: u64 = (self.tick % TICKS_PER_DAY + TICKS_PER_DAY / 4) % TICKS_PER_DAY;
        let hour: i128 = within as i128 * 24 * (Q as i128) / TICKS_PER_DAY as i128;
        proof {
            assert(year < 10000) by (nonlinear_arith)
                requires
                    year == (part * 10000) / (yl as int),
                    part < yl,
                    yl >= 1,
            ;
            assert(year >= 0) by (nonlinear_arith)
                requires
                    year == (part * 10000) / (yl as int),
                    part >= 0,
                    yl >= 1,
            ;
            vstd::arithmetic::div_mod::lemma_add_mod_noop(self.tick as int, 5000, 20000);
            assert(5000int % 20000 == 5000);
            assert((self.tick % 20000) % 20000 == self.tick % 20000) by {
                vstd::arithmetic::div_mod::lemma_mod_twice(self.tick as int, 20000);
            }
        }
        Clock { tick: self.tick, year: year as i64, hour: hour as i64, seed: self.seed }
    }
}

} // verus!
