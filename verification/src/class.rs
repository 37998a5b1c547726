//! Courses and the catalog that owns them.
//!
//! The catalog is an arena: it owns every [`Class`], and schedules and
//! semesters refer to a course by a [`ClassIdx`], a small copyable handle.

use crate::requirements::parser::{spec_parse, ParseError};
use crate::requirements::{all_satisfied, parse, Expression, Formula, TestRequisite};
use crate::term::Term;
use crate::text::{labelled, labelled_text, split, split_text, texts, to_chars};
use vstd::prelude::*;
use vstd::string::StringExecFns;

verus! {

/// One course of the catalog.
#[derive(Debug, PartialEq, Eq)]
pub struct Class {
    subject: String,
    number: u16,
    credits: u8,
    required: bool,
    groups: Vec<String>,
    semesters: Vec<Vec<char>>,
    requisites: Expression,
    name: String,
}

/// The group tags that a catalog cell lists: none for an empty cell, else
/// the pieces between its `|`.
pub open spec fn group_tags(cell: Seq<char>) -> Seq<Seq<char>> {
    if cell.len() == 0 {
        Seq::empty()
    } else {
        split(cell, '|')
    }
}

impl Class {
    /// The name by which requisites refer to the course: the subject, a
    /// space and the number.
    pub closed spec fn spec_name(&self) -> Seq<char> {
        self.name@
    }

    /// The department code, such as `CSE`.
    pub closed spec fn spec_subject(&self) -> Seq<char> {
        self.subject@
    }

    /// The course number within the department.
    pub closed spec fn spec_number(&self) -> u16 {
        self.number
    }

    /// The course's credit weight.
    pub closed spec fn spec_credits(&self) -> u8 {
        self.credits
    }

    /// The course must be in every complete schedule.
    pub closed spec fn spec_required(&self) -> bool {
        self.required
    }

    /// The elective groups that the course counts toward.
    pub closed spec fn spec_groups(&self) -> Seq<Seq<char>> {
        texts(self.groups@)
    }

    /// The term patterns under which the course is offered.
    pub closed spec fn spec_semesters(&self) -> Seq<Seq<char>> {
        Seq::new(self.semesters@.len(), |i: int| self.semesters@[i]@)
    }

    /// What the course requires.
    pub closed spec fn requirement(&self) -> Seq<Seq<Formula>> {
        self.requisites@
    }

    /// The course counts toward the elective group `group`.
    pub open spec fn spec_in_group(&self, group: Seq<char>) -> bool {
        self.spec_groups().contains(group)
    }

    /// The course is offered in `term`: one of its patterns admits the term.
    pub open spec fn spec_offered(&self, term: Term) -> bool {
        exists|i: int|
            0 <= i < self.spec_semesters().len() && term.spec_matches(
                #[trigger] self.spec_semesters()[i],
            )
    }

    /// Builds a course from the cells of a catalog row. `groups` and
    /// `semesters` list their entries with `|` between them; `requisites` is
    /// a requirement text, and the course is refused where it does not parse.
    pub fn new(
        subject: &str,
        number: u16,
        credits: u8,
        required: bool,
        groups: &str,
        semesters: &str,
        requisites: &str,
    ) -> (r: Result<Class, ParseError>)
        ensures
            match r {
                Ok(c) => {
                    &&& spec_parse(requisites@) == Ok::<Seq<Seq<Formula>>, ParseError>(
                        c.requirement(),
                    )
                    &&& c.spec_subject() == subject@
                    &&& c.spec_number() == number
                    &&& c.spec_name() == labelled(subject@, number as nat)
                    &&& c.spec_credits() == credits
                    &&& c.spec_required() == required
                    &&& c.spec_groups() == group_tags(groups@)
                    &&& c.spec_semesters() == split(semesters@, '|')
                },
                Err(e) => spec_parse(requisites@) == Err::<Seq<Seq<Formula>>, ParseError>(e),
            },
    {
        let requisites = match parse(requisites) {
            Ok(expression) => expression,
            Err(e) => {
                return Err(e);
            },
        };
        let groups = if groups.is_empty() {
            Vec::new()
        } else {
            split_text(groups, '|')
        };
        let patterns = split_text(semesters, '|');
        let mut semesters: Vec<Vec<char>> = Vec::new();
        let mut i: usize = 0;
        while i < patterns.len()
            invariant
                i <= patterns@.len(),
                semesters@.len() == i,
                forall|k: int| 0 <= k < i ==> (#[trigger] semesters@[k])@ == patterns@[k]@,
            decreases patterns@.len() - i,
        {
            semesters.push(to_chars(patterns[i].as_str()));
            i += 1;
        }
        Ok(
            Class {
                subject: String::from_str(subject),
                number,
                credits,
                required,
                groups,
                semesters,
                requisites,
                name: labelled_text(subject, number),
            },
        )
    }

    /// The name by which requisites refer to the course, such as `CSE 231`.
    pub fn name(&self) -> (r: String)
        ensures
            r@ == self.spec_name(),
    {
        self.name.clone()
    }

    /// The department code, such as `CSE`.
    pub fn subject(&self) -> (r: &str)
        ensures
            r@ == self.spec_subject(),
    {
        self.subject.as_str()
    }

    /// The course number within the department.
    pub fn number(&self) -> (r: u16)
        ensures
            r == self.spec_number(),
    {
        self.number
    }

    /// Tells whether requisites refer to the course by `name`.
    pub fn is_named(&self, name: &String) -> (b: bool)
        ensures
            b == (self.spec_name() == name@),
    {
        self.name == *name
    }

    /// The course's credit weight.
    pub fn credits(&self) -> (r: u8)
        ensures
            r == self.spec_credits(),
    {
        self.credits
    }

    /// Tells whether the course must be in every complete schedule.
    pub fn required(&self) -> (r: bool)
        ensures
            r == self.spec_required(),
    {
        self.required
    }

    /// Tells whether the course's requirement holds against `history`.
    pub fn requisites_met<T: TestRequisite>(&self, history: &T) -> (b: bool)
        ensures
            b == all_satisfied(self.requirement(), history.prerequisites(), history.corequisites()),
    {
        self.requisites.eval(history)
    }

    /// Tells whether the course is offered in `term`.
    pub fn offered(&self, term: &Term) -> (b: bool)
        ensures
            b == self.spec_offered(*term),
    {
        let mut i: usize = 0;
        while i < self.semesters.len()
            invariant
                i <= self.semesters@.len(),
                forall|k: int|
                    0 <= k < i ==> !term.spec_matches(#[trigger] self.spec_semesters()[k]),
            decreases self.semesters@.len() - i,
        {
            if term.matches_chars(&self.semesters[i]) {
                assert(term.spec_matches(self.spec_semesters()[i as int]));
                return true;
            }
            i += 1;
        }
        false
    }

    /// The elective groups that the course counts toward.
    pub fn groups(&self) -> (r: Vec<&str>)
        ensures
            r@.len() == self.spec_groups().len(),
            forall|i: int| 0 <= i < r@.len() ==> (#[trigger] r@[i])@ == self.spec_groups()[i],
    {
        let mut r: Vec<&str> = Vec::new();
        let mut i: usize = 0;
        while i < self.groups.len()
            invariant
                i <= self.groups@.len(),
                r@.len() == i,
                forall|k: int| 0 <= k < i ==> (#[trigger] r@[k])@ == self.spec_groups()[k],
            decreases self.groups@.len() - i,
        {
            r.push(self.groups[i].as_str());
            i += 1;
        }
        r
    }

    /// Tells whether the course counts toward the elective group `group`.
    pub fn in_group(&self, group: &str) -> (b: bool)
        ensures
            b == self.spec_in_group(group@),
    {
        self.counts_toward(&String::from_str(group))
    }

    /// Tells whether the course counts toward the elective group `group`.
    pub fn counts_toward(&self, group: &String) -> (b: bool)
        ensures
            b == self.spec_in_group(group@),
    {
        let mut i: usize = 0;
        while i < self.groups.len()
            invariant
                i <= self.groups@.len(),
                forall|k: int| 0 <= k < i ==> #[trigger] self.spec_groups()[k] != group@,
            decreases self.groups@.len() - i,
        {
            if self.groups[i] == *group {
                assert(self.spec_groups()[i as int] == group@);
                return true;
            }
            i += 1;
        }
        false
    }
}

/// A handle to a course of a catalog: its position there.
#[derive(Clone, Copy, PartialEq, Eq, Debug, Hash, Structural)]
pub struct ClassIdx(pub usize);

/// The catalog: the courses in the order in which they were given.
#[derive(Debug)]
pub struct ClassList {
    classes: Vec<Class>,
}

impl View for ClassList {
    type V = Seq<Class>;

    closed spec fn view(&self) -> Seq<Class> {
        self.classes@
    }
}

impl ClassList {
    /// The catalog of the given courses.
    pub fn new(classes: Vec<Class>) -> (r: Self)
        ensures
            r@ == classes@,
    {
        ClassList { classes }
    }

    /// The handle refers to a course of this catalog.
    pub open spec fn holds(&self, idx: ClassIdx) -> bool {
        idx.0 < self@.len()
    }

    /// The course that a handle refers to.
    pub open spec fn course(&self, idx: ClassIdx) -> Class {
        self@[idx.0 as int]
    }

    /// The number of courses.
    pub fn len(&self) -> (n: usize)
        ensures
            n == self@.len(),
    {
        self.classes.len()
    }

    /// The handle of the course at `position`, if there is one.
    pub fn handle(&self, position: usize) -> (r: Option<ClassIdx>)
        ensures
            r == if position < self@.len() {
                Some(ClassIdx(position))
            } else {
                None
            },
    {
        if position < self.classes.len() {
            Some(ClassIdx(position))
        } else {
            None
        }
    }

    /// Tells whether the handle refers to a course of this catalog.
    pub fn has(&self, idx: ClassIdx) -> (b: bool)
        ensures
            b == self.holds(idx),
    {
        idx.0 < self.classes.len()
    }

    /// The course that a handle refers to.
    pub fn get(&self, idx: ClassIdx) -> (c: &Class)
        requires
            self.holds(idx),
        ensures
            *c == self.course(idx),
    {
        &self.classes[idx.0]
    }

    /// The handles of all courses, in catalog order.
    pub fn all(&self) -> (r: Vec<ClassIdx>)
        ensures
            r@ == Seq::new(self@.len(), |i: int| ClassIdx(i as usize)),
    {
        let mut r: Vec<ClassIdx> = Vec::new();
        let mut i: usize = 0;
        while i < self.classes.len()
            invariant
                i <= self@.len(),
                self@.len() == self.classes@.len(),
                r@ == Seq::new(i as nat, |k: int| ClassIdx(k as usize)),
            decreases self@.len() - i,
        {
            r.push(ClassIdx(i));
            i += 1;
        }
        r
    }
}

} // verus!
