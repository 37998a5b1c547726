//! A semester: the courses chosen for one term.
//!
//! Building a semester and validating it are separate steps, so that a
//! candidate that is turned down can be reported with its reason.

use crate::class::{Class, ClassIdx, ClassList};
use crate::config::Config;
use crate::error::{Rejection, ScheduleError};
use crate::term::Term;
use vstd::prelude::*;

verus! {

/// The courses assigned to one term.
#[derive(Debug, Clone, PartialEq, Eq)]
pub struct Semester(pub Vec<ClassIdx>, pub Term);

/// The mathematical form of a [`Semester`].
pub struct Enrollment {
    pub courses: Seq<ClassIdx>,
    pub term: Term,
}

impl View for Semester {
    type V = Enrollment;

    open spec fn view(&self) -> Enrollment {
        Enrollment { courses: self.0@, term: self.1 }
    }
}

/// What a course counts: all its credits, or, toward an elective group, its
/// credits where it is tagged with the group and nothing where it is not.
pub open spec fn counted(course: Class, group: Option<Seq<char>>) -> int {
    match group {
        Some(g) if !course.spec_in_group(g) => 0,
        _ => course.spec_credits() as int,
    }
}

impl From<(Vec<ClassIdx>, Term)> for Semester {
    /// The semester of the given courses in the given term.
    fn from(value: (Vec<ClassIdx>, Term)) -> (r: Self) {
        Semester::new(value.0, value.1)
    }
}

impl vstd::std_specs::convert::FromSpecImpl<(Vec<ClassIdx>, Term)> for Semester {
    open spec fn obeys_from_spec() -> bool {
        true
    }

    open spec fn from_spec(value: (Vec<ClassIdx>, Term)) -> Semester {
        Semester(value.0, value.1)
    }
}

/// The sum of what the courses that `handles` refer to count. A course
/// counts once for each time it is listed.
pub open spec fn credit_sum_toward(
    handles: Seq<ClassIdx>,
    classes: Seq<Class>,
    group: Option<Seq<char>>,
) -> int
    decreases handles.len(),
{
    if handles.len() == 0 {
        0
    } else {
        credit_sum_toward(handles.drop_last(), classes, group) + counted(
            classes[handles.last().0 as int],
            group,
        )
    }
}

/// The sum of the credits of the courses that `handles` refer to.
pub open spec fn credit_sum(handles: Seq<ClassIdx>, classes: Seq<Class>) -> int {
    credit_sum_toward(handles, classes, None)
}

/// The sum of the credits of those courses among `handles` that count toward
/// the elective group `group`. A course counts with all its credits toward
/// each group it is tagged with.
pub open spec fn group_credit_sum(
    handles: Seq<ClassIdx>,
    classes: Seq<Class>,
    group: Seq<char>,
) -> int {
    credit_sum_toward(handles, classes, Some(group))
}

/// Every handle of `handles` refers to a course of `classes`.
pub open spec fn all_held(handles: Seq<ClassIdx>, classes: &ClassList) -> bool {
    forall|i: int| 0 <= i < handles.len() ==> classes.holds(#[trigger] handles[i])
}

/// Every course that `handles` refer to is offered in `term`.
pub open spec fn all_offered(handles: Seq<ClassIdx>, classes: &ClassList, term: Term) -> bool {
    forall|i: int|
        0 <= i < handles.len() ==> classes.course(#[trigger] handles[i]).spec_offered(term)
}

/// What a list of courses counts grows with the list, by at most 255 a
/// course.
pub proof fn lemma_credit_sum_toward_grows(
    handles: Seq<ClassIdx>,
    classes: Seq<Class>,
    group: Option<Seq<char>>,
    n: int,
)
    requires
        0 <= n <= handles.len(),
    ensures
        0 <= credit_sum_toward(handles.take(n), classes, group) <= credit_sum_toward(
            handles,
            classes,
            group,
        ),
        credit_sum_toward(handles, classes, group) <= 255 * handles.len(),
    decreases handles.len(),
{
    if handles.len() == 0 {
        assert(handles.take(n) =~= handles);
    } else if n == handles.len() {
        assert(handles.take(n) =~= handles);
        lemma_credit_sum_toward_grows(handles.drop_last(), classes, group, n - 1);
    } else {
        assert(handles.drop_last().take(n) =~= handles.take(n));
        lemma_credit_sum_toward_grows(handles.drop_last(), classes, group, n);
    }
}

/// The credits of a list of courses grow with the list, by at most 255 a
/// course.
pub proof fn lemma_credit_sum_grows(handles: Seq<ClassIdx>, classes: Seq<Class>, n: int)
    requires
        0 <= n <= handles.len(),
    ensures
        0 <= credit_sum(handles.take(n), classes) <= credit_sum(handles, classes),
        credit_sum(handles, classes) <= 255 * handles.len(),
{
    lemma_credit_sum_toward_grows(handles, classes, None, n);
}

/// What two lists of courses count together is the sum of what each counts.
pub proof fn lemma_credit_sum_toward_append(
    front: Seq<ClassIdx>,
    back: Seq<ClassIdx>,
    classes: Seq<Class>,
    group: Option<Seq<char>>,
)
    ensures
        credit_sum_toward(front + back, classes, group) == credit_sum_toward(front, classes, group)
            + credit_sum_toward(back, classes, group),
    decreases back.len(),
{
    if back.len() == 0 {
        assert(front + back =~= front);
    } else {
        assert((front + back).drop_last() =~= front + back.drop_last());
        lemma_credit_sum_toward_append(front, back.drop_last(), classes, group);
    }
}

/// What validating a semester gives: too few credits, too many credits, a
/// course that is not offered in the term, in this order of precedence; else
/// the semester is accepted.
pub open spec fn verdict(
    handles: Seq<ClassIdx>,
    term: Term,
    classes: &ClassList,
    config: &Config,
) -> Result<(), Rejection> {
    let credits = credit_sum(handles, classes@);
    if credits < config.min_credits {
        Err(Rejection::TooFewCredits)
    } else if credits > config.max_credits {
        Err(Rejection::TooManyCredits)
    } else if !all_offered(handles, classes, term) {
        Err(Rejection::NotAvailable(term.spec_label()))
    } else {
        Ok(())
    }
}

/// An accepted semester has its credits within the configured bounds and
/// only courses that are offered in its term. A semester is turned down for
/// too few credits exactly if it has less than the minimum, and for too many
/// exactly if it has the minimum and more than the maximum.
pub proof fn lemma_verdict_bounds(
    handles: Seq<ClassIdx>,
    term: Term,
    classes: &ClassList,
    config: &Config,
)
    ensures
        verdict(handles, term, classes, config) is Ok ==> config.min_credits <= credit_sum(
            handles,
            classes@,
        ) <= config.max_credits && all_offered(handles, classes, term),
        verdict(handles, term, classes, config) == Err::<(), Rejection>(Rejection::TooFewCredits)
            <==> credit_sum(handles, classes@) < config.min_credits,
        verdict(handles, term, classes, config) == Err::<(), Rejection>(Rejection::TooManyCredits)
            <==> config.min_credits <= credit_sum(handles, classes@) && credit_sum(
            handles,
            classes@,
        ) > config.max_credits,
        verdict(handles, term, classes, config) == Err::<(), Rejection>(
            Rejection::NotAvailable(term.spec_label()),
        ) ==> !all_offered(handles, classes, term),
{
}

impl Semester {
    /// The semester of the given courses in the given term, not yet
    /// validated.
    pub fn new(classes: Vec<ClassIdx>, term: Term) -> (r: Self)
        ensures
            r.0 == classes,
            r.1 == term,
    {
        Semester(classes, term)
    }

    /// Every course of the semester is a course of `classlist`.
    pub open spec fn fits(&self, classlist: &ClassList) -> bool {
        all_held(self.0@, classlist)
    }

    /// The semester's total credits.
    pub open spec fn spec_credits(&self, classlist: &ClassList) -> int {
        credit_sum(self.0@, classlist@)
    }

    /// Tells whether every course of the semester is a course of
    /// `classlist`.
    pub fn is_within(&self, classlist: &ClassList) -> (b: bool)
        ensures
            b == self.fits(classlist),
    {
        let mut i: usize = 0;
        while i < self.0.len()
            invariant
                i <= self.0@.len(),
                forall|k: int| 0 <= k < i ==> classlist.holds(#[trigger] self.0@[k]),
            decreases self.0@.len() - i,
        {
            if !classlist.has(self.0[i]) {
                return false;
            }
            i += 1;
        }
        true
    }

    /// The semester's total credits.
    pub fn credits(&self, classlist: &ClassList) -> (r: u16)
        requires
            self.fits(classlist),
            self.spec_credits(classlist) <= u16::MAX,
        ensures
            r == self.spec_credits(classlist),
    {
        let mut total: u16 = 0;
        let mut i: usize = 0;
        while i < self.0.len()
            invariant
                i <= self.0@.len(),
                self.fits(classlist),
                self.spec_credits(classlist) <= u16::MAX,
                total == credit_sum(self.0@.take(i as int), classlist@),
            decreases self.0@.len() - i,
        {
            proof {
                assert(self.0@.take(i + 1).drop_last() =~= self.0@.take(i as int));
                lemma_credit_sum_grows(self.0@, classlist@, i + 1);
            }
            total = total + classlist.get(self.0[i]).credits() as u16;
            i += 1;
        }
        assert(self.0@.take(i as int) =~= self.0@);
        total
    }

    /// The semester's total credits where they are below 256, else some
    /// number from 256 on: enough to compare them with any credit bound.
    fn capped_credits(&self, classlist: &ClassList) -> (r: u16)
        requires
            self.fits(classlist),
        ensures
            r <= 255 ==> r == self.spec_credits(classlist),
            r > 255 ==> self.spec_credits(classlist) > 255,
    {
        let mut total: u16 = 0;
        let mut i: usize = 0;
        while i < self.0.len() && total <= 255
            invariant
                i <= self.0@.len(),
                self.fits(classlist),
                total <= 510,
                total == credit_sum(self.0@.take(i as int), classlist@),
            decreases self.0@.len() - i,
        {
            proof {
                assert(self.0@.take(i + 1).drop_last() =~= self.0@.take(i as int));
            }
            total = total + classlist.get(self.0[i]).credits() as u16;
            i += 1;
        }
        proof {
            lemma_credit_sum_grows(self.0@, classlist@, i as int);
            if i == self.0@.len() {
                assert(self.0@.take(i as int) =~= self.0@);
            }
        }
        total
    }

    /// Tells whether every course of the semester is offered in its term.
    fn available(&self, classlist: &ClassList) -> (b: bool)
        requires
            self.fits(classlist),
        ensures
            b == all_offered(self.0@, classlist, self.1),
    {
        let mut i: usize = 0;
        while i < self.0.len()
            invariant
                i <= self.0@.len(),
                self.fits(classlist),
                forall|k: int|
                    0 <= k < i ==> classlist.course(#[trigger] self.0@[k]).spec_offered(self.1),
            decreases self.0@.len() - i,
        {
            if !classlist.get(self.0[i]).offered(&self.1) {
                return false;
            }
            i += 1;
        }
        true
    }

    /// What validating this semester against `config` gives.
    pub open spec fn spec_verify(&self, classlist: &ClassList, config: &Config) -> Result<
        (),
        Rejection,
    > {
        verdict(self.0@, self.1, classlist, config)
    }

    /// Validates the semester: its credits lie within the configured bounds
    /// and each of its courses is offered in its term. Hands the semester
    /// back where it is valid, and the reason where it is not.
    pub fn verify(self, classlist: &ClassList, config: &Config) -> (r: Result<
        Semester,
        ScheduleError,
    >)
        requires
            self.fits(classlist),
        ensures
            match r {
                Ok(s) => s == self && self.spec_verify(classlist, config) is Ok,
                Err(e) => self.spec_verify(classlist, config) == Err::<(), Rejection>(e@),
            },
    {
        let credits = self.capped_credits(classlist);
        if credits < config.min_credits as u16 {
            return Err(ScheduleError::TooFewCredits);
        }
        if credits > config.max_credits as u16 {
            return Err(ScheduleError::TooManyCredits);
        }
        if !self.available(classlist) {
            return Err(ScheduleError::NotAvailable(self.1.label()));
        }
        Ok(self)
    }
}

} // verus!
