//! Cycle cadence for schedule holders, and the parameter-binding verdict
//! the executor acts on.

use vstd::prelude::*;
use crate::resource::ResourceFetchResult;

verus! {

/// How often a registered holder's schedules are due.
#[derive(Clone, Copy, PartialEq, Eq, Structural, Debug)]
pub enum ScheduleHolderFrequency {
    /// Runs on the first cycle only.
    Once,
    /// Runs every cycle.
    Always,
    /// Runs every second cycle.
    Alternate,
}

/// The cadence gate in front of a group of schedules: decides, per cycle,
/// whether the group's units run at all.
pub struct ScheduleHolder {
    ticks: u32,
    frequency: ScheduleHolderFrequency,
}

impl ScheduleHolder {
    pub closed spec fn ticks_spec(self) -> u32 {
        self.ticks
    }

    pub closed spec fn frequency_spec(self) -> ScheduleHolderFrequency {
        self.frequency
    }

    pub open spec fn inv(self) -> bool {
        self.ticks_spec() <= 1
    }

    pub fn new(frequency: ScheduleHolderFrequency) -> (r: ScheduleHolder)
        ensures
            r.inv(),
            r.ticks_spec() == 0,
            r.frequency_spec() == frequency,
    {
        ScheduleHolder { ticks: 0, frequency }
    }

    /// Whether this cycle's units should execute, advancing the cadence:
    /// `Once` is due only while it has never fired, `Always` every cycle,
    /// `Alternate` every second cycle.
    pub fn run_if_due(&mut self) -> (r: bool)
        requires
            old(self).inv(),
        ensures
            final(self).inv(),
            r == (old(self).ticks_spec() == 0),
            final(self).frequency_spec() == old(self).frequency_spec(),
            final(self).ticks_spec() == (match old(self).frequency_spec() {
                ScheduleHolderFrequency::Once => 1u32,
                ScheduleHolderFrequency::Always => 0u32,
                ScheduleHolderFrequency::Alternate => ((old(self).ticks_spec() + 1) % 2) as u32,
            }),
    {
        let due = self.ticks == 0;
        self.ticks = match self.frequency {
            ScheduleHolderFrequency::Once => 1,
            ScheduleHolderFrequency::Always => 0,
            ScheduleHolderFrequency::Alternate => (self.ticks + 1) % 2,
        };
        due
    }
}

/// Reported when a declared parameter cannot be initialised this cycle; the
/// affected unit is skipped, not retried within the cycle.
#[derive(Clone, Copy, PartialEq, Eq, Structural, Debug)]
pub struct InitError {}

/// The executor's verdict after a unit tried to bind its parameters.
#[derive(Clone, Copy, PartialEq, Eq, Structural, Debug)]
pub enum BindOutcome {
    /// Every guard was acquired; run the unit.
    Proceed,
    /// A declared store was never registered; skip the unit this cycle.
    Skip,
    /// A guard was held despite the graph's conflict-freedom guarantee: a
    /// broken internal invariant, to be treated as fatal.
    Fatal,
}

/// Classifies a unit's guard-acquisition results: any `Occupied` is fatal,
/// otherwise any `DoesNotExist` skips the unit, otherwise it runs.
pub fn classify_bind(results: &Vec<ResourceFetchResult>) -> (r: BindOutcome)
    ensures
        (r == BindOutcome::Fatal) == (exists|i: int|
            0 <= i < results@.len() && results@[i] == ResourceFetchResult::Occupied),
        (r == BindOutcome::Skip) == ((exists|i: int|
            0 <= i < results@.len() && results@[i] == ResourceFetchResult::DoesNotExist) && !(
        exists|i: int| 0 <= i < results@.len() && results@[i] == ResourceFetchResult::Occupied)),
        (r == BindOutcome::Proceed) == (forall|i: int|
            0 <= i < results@.len() ==> results@[i] == ResourceFetchResult::Success),
{
    let mut any_occupied = false;
    let mut any_missing = false;
    let mut i: usize = 0;
    while i < results.len()
        invariant
            0 <= i <= results@.len(),
            any_occupied == (exists|k: int|
                0 <= k < i && results@[k] == ResourceFetchResult::Occupied),
            any_missing == (exists|k: int|
                0 <= k < i && results@[k] == ResourceFetchResult::DoesNotExist),
        decreases results@.len() - i,
    {
        match results[i] {
            ResourceFetchResult::Occupied => {
                any_occupied = true;
            },
            ResourceFetchResult::DoesNotExist => {
                any_missing = true;
            },
            ResourceFetchResult::Success => {},
        }
        i += 1;
    }
    if any_occupied {
        BindOutcome::Fatal
    } else if any_missing {
        BindOutcome::Skip
    } else {
        proof {
            assert forall|k: int|
                0 <= k < results@.len() implies results@[k] == ResourceFetchResult::Success by {
                let v = results@[k];
                assert(v != ResourceFetchResult::Occupied && v != ResourceFetchResult::DoesNotExist);
            }
        }
        BindOutcome::Proceed
    }
}

/// The structural world edits that are queued during a pass and drained,
/// one at a time, strictly between scheduling passes.
#[derive(Clone, Copy, PartialEq, Eq, Structural, Debug)]
pub enum CommandType {
    AddEntityWithComponents,
    AddEntity,
    RemoveEntity,
    RemoveComponentFromEntity,
    AddResource,
    RemoveResource,
}

} // verus!
