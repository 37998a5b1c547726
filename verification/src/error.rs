//! Why a candidate semester or schedule was turned down.

use vstd::prelude::*;
use vstd::string::StringExecFns;

verus! {

/// The reasons for which the search drops a candidate.
#[derive(Debug, PartialEq, Eq, Hash)]
pub enum ScheduleError {
    /// The semester holds fewer credits than the configured minimum.
    TooFewCredits,
    /// The semester holds more credits than the configured maximum.
    TooManyCredits,
    /// A course of the semester is not offered in its term; holds the term's
    /// label.
    NotAvailable(String),
    /// A committed course's requirement does not hold.
    RequisitesUnmet,
    /// A required course is still unscheduled.
    RequirementsUnmet,
    /// An elective group has fewer credits than its configured minimum.
    GroupsUnmet,
}

/// The mathematical form of a [`ScheduleError`]: the same reasons, with the
/// term's label as a sequence of characters.
pub enum Rejection {
    TooFewCredits,
    TooManyCredits,
    NotAvailable(Seq<char>),
    RequisitesUnmet,
    RequirementsUnmet,
    GroupsUnmet,
}

impl View for ScheduleError {
    type V = Rejection;

    open spec fn view(&self) -> Rejection {
        match self {
            ScheduleError::TooFewCredits => Rejection::TooFewCredits,
            ScheduleError::TooManyCredits => Rejection::TooManyCredits,
            ScheduleError::NotAvailable(term) => Rejection::NotAvailable(term@),
            ScheduleError::RequisitesUnmet => Rejection::RequisitesUnmet,
            ScheduleError::RequirementsUnmet => Rejection::RequirementsUnmet,
            ScheduleError::GroupsUnmet => Rejection::GroupsUnmet,
        }
    }
}

impl Rejection {
    /// The reason in words.
    pub open spec fn message(self) -> Seq<char> {
        match self {
            Rejection::TooFewCredits => "Too few credits"@,
            Rejection::TooManyCredits => "Too many credits"@,
            Rejection::NotAvailable(term) => "Not available in term "@ + term,
            Rejection::RequisitesUnmet => "Requisites for class un-met"@,
            Rejection::RequirementsUnmet => "Doesn't fulfill required courses"@,
            Rejection::GroupsUnmet => "Did not meet credit requirement for group"@,
        }
    }
}

impl ScheduleError {
    /// The reason in words.
    pub fn message(&self) -> (r: String)
        ensures
            r@ == self@.message(),
    {
        match self {
            ScheduleError::TooFewCredits => String::from_str("Too few credits"),
            ScheduleError::TooManyCredits => String::from_str("Too many credits"),
            ScheduleError::NotAvailable(term) => {
                let mut r = String::from_str("Not available in term ");
                r.append(term.as_str());
                r
            },
            ScheduleError::RequisitesUnmet => String::from_str("Requisites for class un-met"),
            ScheduleError::RequirementsUnmet => String::from_str(
                "Doesn't fulfill required courses",
            ),
            ScheduleError::GroupsUnmet => String::from_str(
                "Did not meet credit requirement for group",
            ),
        }
    }
}

} // verus!
