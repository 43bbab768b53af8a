//! The integer part of a patient's record between doctor visits: how many
//! visits there were, and the blood pressure measured at the last one.

use vstd::prelude::*;

verus! {

/// A blood pressure reading converted to `i32` as the change computation does
/// it (a reading above `i32::MAX` wraps around).
pub open spec fn reading_as_i32(x: u32) -> int {
    (x as i32) as int
}

/// The change from `before` to `now` of one blood pressure figure.
pub open spec fn figure_change(before: u32, now: u32) -> int {
    reading_as_i32(now) - reading_as_i32(before)
}

/// Both figures of the change from `before` to `now` fit in `i32`.
pub open spec fn change_fits(before: (u32, u32), now: (u32, u32)) -> bool {
    &&& i32::MIN <= figure_change(before.0, now.0) <= i32::MAX
    &&& i32::MIN <= figure_change(before.1, now.1) <= i32::MAX
}

/// The visit count and the last blood pressure reading of a patient.
pub struct VisitHistory {
    pub visit_count: usize,
    pub last_blood_pressure: Option<(u32, u32)>,
}

impl VisitHistory {
    /// A history with no visits.
    pub fn new() -> (h: Self)
        ensures
            h.visit_count == 0,
            h.last_blood_pressure is None,
    {
        VisitHistory { visit_count: 0, last_blood_pressure: None }
    }

    /// Whether a visit with this reading can be recorded: the count can grow
    /// and the change since the last reading fits in `i32`.
    pub open spec fn can_record(&self, blood_pressure: (u32, u32)) -> bool {
        &&& self.visit_count < usize::MAX
        &&& match self.last_blood_pressure {
            Some(before) => change_fits(before, blood_pressure),
            None => true,
        }
    }

    /// Records a visit at which `blood_pressure` was measured. Returns the new
    /// visit count, as `u32`, and the change in each figure since the last
    /// reading, if there was one.
    pub fn record_visit(&mut self, blood_pressure: (u32, u32)) -> (r: (u32, Option<(i32, i32)>))
        requires
            old(self).can_record(blood_pressure),
        ensures
            final(self).visit_count == old(self).visit_count + 1,
            final(self).last_blood_pressure == Some(blood_pressure),
            r.0 == final(self).visit_count as u32,
            match old(self).last_blood_pressure {
                None => r.1 is None,
                Some(before) => r.1 matches Some((d0, d1)) && d0 == figure_change(before.0, blood_pressure.0)
                    && d1 == figure_change(before.1, blood_pressure.1),
            },
    {
        self.visit_count = self.visit_count + 1;
        let mut blood_pressure_change: Option<(i32, i32)> = None;
        if let Some(before) = &self.last_blood_pressure {
            blood_pressure_change = Some(
                (
                    blood_pressure.0 as i32 - before.0 as i32,
                    blood_pressure.1 as i32 - before.1 as i32,
                ),
            );
        }
        self.last_blood_pressure = Some(blood_pressure);
        (self.visit_count as u32, blood_pressure_change)
    }
}

} // verus!
