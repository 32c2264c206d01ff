//! The simulation clock: it starts paused at tick zero, runs forward only while
//! resumed, and can always be stepped by hand.
use vstd::prelude::*;

verus! {

pub open spec fn sat_add_ticks(tick: u64, ticks: u64) -> u64 {
    if tick + ticks > u64::MAX { u64::MAX } else { (tick + ticks) as u64 }
}

#[derive(Clone, Debug)]
pub struct SimulationClock {
    tick: u64,
    paused: bool,
}

impl SimulationClock {
    pub closed spec fn spec_tick(&self) -> u64 {
        self.tick
    }

    pub closed spec fn spec_paused(&self) -> bool {
        self.paused
    }

    /// Paused at tick zero.
    pub fn new() -> (r: Self)
        ensures
            r.spec_tick() == 0,
            r.spec_paused(),
    {
        SimulationClock { tick: 0, paused: true }
    }

    pub fn tick(&self) -> (r: u64)
        ensures
            r == self.spec_tick(),
    {
        self.tick
    }

    pub fn is_paused(&self) -> (r: bool)
        ensures
            r == self.spec_paused(),
    {
        self.paused
    }

    /// Moves a running clock forward by `ticks` (stopping at the largest tick) and
    /// leaves a paused one alone; returns the tick.
    pub fn advance(&mut self, ticks: u32) -> (r: u64)
        ensures
            final(self).spec_paused() == old(self).spec_paused(),
            final(self).spec_tick() == if old(self).spec_paused() {
                old(self).spec_tick()
            } else {
                sat_add_ticks(old(self).spec_tick(), ticks as u64)
            },
            r == final(self).spec_tick(),
    {
        if !self.paused {
            self.tick = self.tick.saturating_add(ticks as u64);
        }
        self.tick
    }

    /// Moves the clock one tick forward, paused or not; returns the tick.
    pub fn step(&mut self) -> (r: u64)
        ensures
            final(self).spec_paused() == old(self).spec_paused(),
            final(self).spec_tick() == sat_add_ticks(old(self).spec_tick(), 1),
            r == final(self).spec_tick(),
    {
        self.tick = self.tick.saturating_add(1);
        self.tick
    }

    pub fn pause(&mut self)
        ensures
            final(self).spec_paused(),
            final(self).spec_tick() == old(self).spec_tick(),
    {
        self.paused = true;
    }

    pub fn resume(&mut self)
        ensures
            !final(self).spec_paused(),
            final(self).spec_tick() == old(self).spec_tick(),
    {
        self.paused = false;
    }
}

impl Default for SimulationClock {
    fn default() -> (r: Self)
        ensures
            r.spec_tick() == 0,
            r.spec_paused(),
    {
        SimulationClock::new()
    }
}

} // verus!
