//! Schedules: the nodes of the search tree.
//!
//! A schedule holds the courses that are still to be placed, the semesters
//! committed so far, and what was completed before the plan begins. Children
//! are made by [`Schedule::child`] only, which attaches one semester and
//! checks the requisites of every committed course.

use crate::candidates::{
    all_drawn,
    candidates,
    credits_of,
    drawn,
    lemma_drawn_held,
    list_candidates,
    max_count,
    min_count,
    offers_each,
    selections,
};
use crate::class::{ClassIdx, ClassList};
use crate::config::Config;
use crate::error::{Rejection, ScheduleError};
use crate::requirements::{
    all_satisfied,
    any_satisfied,
    holds_name,
    name_set,
    satisfied,
    Formula,
    RequisiteType,
    TestRequisite,
};
use crate::semester::{
    all_held,
    credit_sum,
    credit_sum_toward,
    group_credit_sum,
    lemma_credit_sum_toward_append,
    lemma_credit_sum_toward_grows,
    verdict,
    Enrollment,
    Semester,
};
use crate::term::Term;
use vstd::prelude::*;
use vstd::string::StringExecFns;

verus! {

/// The mathematical form of a [`Schedule`].
pub struct Plan {
    /// The catalog that the handles refer to.
    pub catalog: ClassList,
    /// The courses not yet scheduled.
    pub remaining: Seq<ClassIdx>,
    /// The committed semesters, first term first.
    pub semesters: Seq<Enrollment>,
    /// The names of the courses completed before the plan begins.
    pub taken: Set<Seq<char>>,
    /// The term of the first semester.
    pub first_term: Term,
}

impl Plan {
    /// The handles refer to courses of the catalog, no course remains twice,
    /// and no course is both remaining and committed.
    pub open spec fn wf(self) -> bool {
        &&& all_held(self.remaining, &self.catalog)
        &&& self.remaining.no_duplicates()
        &&& forall|j: int|
            0 <= j < self.semesters.len() ==> all_held(
                (#[trigger] self.semesters[j]).courses,
                &self.catalog,
            )
        &&& forall|i: int, j: int, k: int|
            0 <= i < self.remaining.len() && 0 <= j < self.semesters.len() && 0 <= k
                < self.semesters[j].courses.len() ==> #[trigger] self.remaining[i]
                != #[trigger] self.semesters[j].courses[k]
    }

    /// The course at place `k` of the committed semester `j`.
    pub open spec fn committed(self, j: int, k: int) -> ClassIdx {
        self.semesters[j].courses[k]
    }

    /// `name` is the name of a course committed in one of the first `upto`
    /// semesters.
    pub open spec fn committed_before(self, name: Seq<char>, upto: int) -> bool {
        exists|j: int, k: int|
            0 <= j < upto && j < self.semesters.len() && 0 <= k < self.semesters[j].courses.len()
                && self.catalog.course(#[trigger] self.committed(j, k)).spec_name() == name
    }

    /// The names that count as completed when the first `upto` semesters are
    /// over: those taken before the plan, and those of the courses committed
    /// in these semesters.
    pub open spec fn names_known(self, upto: int) -> Set<Seq<char>> {
        Set::new(|name: Seq<char>| self.taken.contains(name) || self.committed_before(name, upto))
    }

    /// The requirement of the course at place `k` of semester `j` holds:
    /// its prerequisites are looked up in what was taken and in the earlier
    /// semesters, its corequisites in what was taken and in every committed
    /// semester, its own included.
    pub open spec fn requisites_met_at(self, j: int, k: int) -> bool {
        all_satisfied(
            self.catalog.course(self.committed(j, k)).requirement(),
            self.names_known(j),
            self.names_known(self.semesters.len() as int),
        )
    }

    /// The requirement of every committed course holds.
    pub open spec fn requisites_hold(self) -> bool {
        forall|j: int, k: int|
            0 <= j < self.semesters.len() && 0 <= k < self.semesters[j].courses.len()
                ==> #[trigger] self.requisites_met_at(j, k)
    }

    /// The committed courses, semester after semester.
    pub open spec fn all_committed(self) -> Seq<ClassIdx> {
        courses_of(self.semesters)
    }

    /// The credits of all committed courses.
    pub open spec fn committed_credits(self) -> int {
        credit_sum(self.all_committed(), self.catalog@)
    }

    /// The credits of the committed courses that count toward `group`.
    pub open spec fn group_credits(self, group: Seq<char>) -> int {
        group_credit_sum(self.all_committed(), self.catalog@, group)
    }

    /// Every elective group that `config` names has its minimum of credits
    /// among the committed courses.
    pub open spec fn meets_group_credits(self, config: &Config) -> bool {
        forall|g: int|
            0 <= g < config.groups@.len() ==> self.group_credits(#[trigger] config.group_name(g))
                >= config.group_minimum(g)
    }

    /// A required course is still among the remaining ones.
    pub open spec fn misses_required(self) -> bool {
        exists|i: int|
            0 <= i < self.remaining.len() && self.catalog.course(
                #[trigger] self.remaining[i],
            ).spec_required()
    }

    /// Whether the plan is complete: no required course remains, and every
    /// elective group has its credits. A remaining required course is
    /// reported before a group that falls short.
    pub open spec fn completeness(self, config: &Config) -> Result<(), Rejection> {
        if self.misses_required() {
            Err(Rejection::RequirementsUnmet)
        } else if !self.meets_group_credits(config) {
            Err(Rejection::GroupsUnmet)
        } else {
            Ok(())
        }
    }

    /// The term of the next semester can be told: no semester is committed,
    /// or the term of the last one has a successor.
    pub open spec fn can_advance(self) -> bool {
        self.semesters.len() > 0 ==> self.semesters.last().term.has_next()
    }

    /// The term of the next semester: the first term where no semester is
    /// committed, else the term after the last committed one.
    pub open spec fn next_term(self) -> Term {
        if self.semesters.len() == 0 {
            self.first_term
        } else {
            self.semesters.last().term.spec_next()
        }
    }

    /// The generator passes over no selection of a size that the credit
    /// bounds leave: every selection of different remaining courses, of a
    /// size from the smallest to the largest that is tried, is among the
    /// candidates.
    pub open spec fn offers_each_selection(self, config: &Config) -> bool {
        offers_each(
            candidates(self.remaining, self.catalog@, config),
            self.remaining,
            min_count(credits_of(self.remaining, self.catalog@), config.min_credits),
            max_count(credits_of(self.remaining, self.catalog@), config.max_credits),
        )
    }

    /// What the generator gives: each candidate for the next semester with
    /// the verdict on it, in the order of the candidates.
    pub open spec fn possible(self, config: &Config) -> Seq<Result<Enrollment, Rejection>> {
        let listed = candidates(self.remaining, self.catalog@, config);
        Seq::new(
            listed.len(),
            |i: int| judged(listed[i], self.next_term(), &self.catalog, config),
        )
    }

    /// The courses that the plan holds, remaining or committed.
    pub open spec fn courses(self) -> Set<ClassIdx> {
        self.remaining.to_set().union(self.all_committed().to_set())
    }

    /// The plan with `semester` attached: its courses leave `remaining`, and
    /// it becomes the last committed semester.
    pub open spec fn child(self, semester: Enrollment) -> Plan {
        Plan {
            remaining: self.remaining.filter(|c: ClassIdx| !semester.courses.contains(c)),
            semesters: self.semesters.push(semester),
            ..self
        }
    }
}

/// The courses of a list of semesters, semester after semester.
pub open spec fn courses_of(semesters: Seq<Enrollment>) -> Seq<ClassIdx>
    decreases semesters.len(),
{
    if semesters.len() == 0 {
        Seq::empty()
    } else {
        courses_of(semesters.drop_last()) + semesters.last().courses
    }
}

/// A candidate with the verdict on it: the semester where it is valid, the
/// reason where it is not.
pub open spec fn judged(
    courses: Seq<ClassIdx>,
    term: Term,
    classes: &ClassList,
    config: &Config,
) -> Result<Enrollment, Rejection> {
    match verdict(courses, term, classes, config) {
        Ok(()) => Ok(Enrollment { courses, term }),
        Err(e) => Err(e),
    }
}

/// The form of one result of the generator.
pub open spec fn outcome(result: Result<Semester, ScheduleError>) -> Result<Enrollment, Rejection> {
    match result {
        Ok(s) => Ok(s@),
        Err(e) => Err(e@),
    }
}

/// The forms of the results of the generator.
pub open spec fn outcomes(results: Seq<Result<Semester, ScheduleError>>) -> Seq<
    Result<Enrollment, Rejection>,
> {
    Seq::new(results.len(), |i: int| outcome(results[i]))
}

/// The form of an optional group name.
pub open spec fn group_form(group: Option<&String>) -> Option<Seq<char>> {
    match group {
        Some(g) => Some(g@),
        None => None,
    }
}

/// Whether a schedule is complete, in words.
pub open spec fn completeness_words(verdict: Result<(), Rejection>) -> Seq<char> {
    match verdict {
        Ok(_) => "Yes"@,
        Err(Rejection::RequirementsUnmet) => "No, requirements unmet"@,
        Err(_) => "No, group credit requirement unmet"@,
    }
}

/// The forms of a list of semesters.
pub open spec fn enrollments(semesters: Seq<Semester>) -> Seq<Enrollment> {
    Seq::new(semesters.len(), |j: int| semesters[j]@)
}

/// What filtering keeps was there before and passes the filter.
pub proof fn lemma_filter_keeps<A>(s: Seq<A>, pred: spec_fn(A) -> bool)
    ensures
        forall|i: int|
            0 <= i < s.filter(pred).len() ==> s.contains(#[trigger] s.filter(pred)[i]) && pred(
                s.filter(pred)[i],
            ),
    decreases s.len(),
{
    reveal(Seq::filter);
    if s.len() > 0 {
        let front = s.drop_last();
        lemma_filter_keeps(front, pred);
        assert forall|i: int| 0 <= i < s.filter(pred).len() implies s.contains(
            #[trigger] s.filter(pred)[i],
        ) && pred(s.filter(pred)[i]) by {
            if i < front.filter(pred).len() {
                let x = front.filter(pred)[i];
                assert(front.contains(x));
                let w = choose|w: int| 0 <= w < front.len() && front[w] == x;
                assert(s[w] == x);
            } else {
                assert(s[s.len() - 1] == s.last());
            }
        }
    }
}

/// Every semester that the generator accepts has its credits within the
/// configured bounds, and every candidate that it turns down for its credits
/// has them outside: below the minimum for too few, above the maximum for too
/// many.
pub proof fn lemma_generated_within_bounds(plan: Plan, config: &Config, i: int)
    requires
        0 <= i < plan.possible(config).len(),
    ensures
        plan.possible(config)[i] matches Ok(semester) ==> config.min_credits <= credit_sum(
            semester.courses,
            plan.catalog@,
        ) <= config.max_credits,
        plan.possible(config)[i] == Err::<Enrollment, Rejection>(Rejection::TooFewCredits)
            ==> credit_sum(candidates(plan.remaining, plan.catalog@, config)[i], plan.catalog@)
            < config.min_credits,
        plan.possible(config)[i] == Err::<Enrollment, Rejection>(Rejection::TooManyCredits)
            ==> credit_sum(candidates(plan.remaining, plan.catalog@, config)[i], plan.catalog@)
            > config.max_credits,
{
}

/// A course is among the courses of a list of semesters exactly if it is in
/// one of the semesters.
pub proof fn lemma_courses_of_contains(semesters: Seq<Enrollment>, course: ClassIdx)
    ensures
        courses_of(semesters).contains(course) <==> exists|j: int, k: int|
            0 <= j < semesters.len() && 0 <= k < semesters[j].courses.len()
                && #[trigger] semesters[j].courses[k] == course,
    decreases semesters.len(),
{
    if semesters.len() > 0 {
        let front = semesters.drop_last();
        let last = semesters.last();
        lemma_courses_of_contains(front, course);
        if courses_of(semesters).contains(course) {
            let w = choose|w: int|
                0 <= w < courses_of(semesters).len() && courses_of(semesters)[w] == course;
            if w < courses_of(front).len() {
                assert(courses_of(front)[w] == course);
                assert(courses_of(front).contains(course));
                let (j, k) = choose|j: int, k: int|
                    0 <= j < front.len() && 0 <= k < front[j].courses.len()
                        && #[trigger] front[j].courses[k] == course;
                assert(semesters[j].courses[k] == course);
            } else {
                let k = w - courses_of(front).len();
                assert(semesters[semesters.len() - 1].courses[k] == course);
            }
        }
        if exists|j: int, k: int|
            0 <= j < semesters.len() && 0 <= k < semesters[j].courses.len()
                && #[trigger] semesters[j].courses[k] == course {
            let (j, k) = choose|j: int, k: int|
                0 <= j < semesters.len() && 0 <= k < semesters[j].courses.len()
                    && #[trigger] semesters[j].courses[k] == course;
            if j < front.len() {
                assert(front[j].courses[k] == course);
                assert(courses_of(front).contains(course));
                let w = choose|w: int|
                    0 <= w < courses_of(front).len() && courses_of(front)[w] == course;
                assert(courses_of(semesters)[w] == course);
            } else {
                assert(courses_of(semesters)[courses_of(front).len() + k] == course);
            }
        }
    }
}

/// In a well-formed plan no course is both remaining and committed. Every
/// schedule is well formed: the initial one, and each child of a schedule.
pub proof fn lemma_remaining_apart_from_committed(plan: Plan)
    requires
        plan.wf(),
    ensures
        plan.remaining.to_set().disjoint(plan.all_committed().to_set()),
{
    assert forall|course: ClassIdx|
        !(plan.remaining.to_set().contains(course) && plan.all_committed().to_set().contains(
            course,
        )) by {
        if plan.remaining.contains(course) && plan.all_committed().contains(course) {
            lemma_courses_of_contains(plan.semesters, course);
            let i = choose|i: int| 0 <= i < plan.remaining.len() && plan.remaining[i] == course;
            let (j, k) = choose|j: int, k: int|
                0 <= j < plan.semesters.len() && 0 <= k < plan.semesters[j].courses.len()
                    && #[trigger] plan.semesters[j].courses[k] == course;
            assert(plan.remaining[i] != plan.semesters[j].courses[k]);
        }
    }
}

/// Attaching a semester of remaining courses moves courses from remaining to
/// committed and neither adds nor loses one: a plan that held the whole
/// catalog still holds it.
pub proof fn lemma_child_conserves_courses(plan: Plan, semester: Enrollment)
    requires
        drawn(semester.courses, plan.remaining),
    ensures
        plan.child(semester).courses() == plan.courses(),
{
    let next = plan.child(semester);
    let pred = |c: ClassIdx| !semester.courses.contains(c);
    lemma_filter_keeps(plan.remaining, pred);
    assert(next.semesters.drop_last() =~= plan.semesters);
    assert(next.all_committed() == plan.all_committed() + semester.courses);
    assert forall|c: ClassIdx| next.courses().contains(c) == plan.courses().contains(c) by {
        if next.remaining.contains(c) {
            let i = choose|i: int| 0 <= i < next.remaining.len() && next.remaining[i] == c;
            assert(plan.remaining.contains(next.remaining[i]));
        }
        if next.all_committed().contains(c) {
            let w = choose|w: int|
                0 <= w < next.all_committed().len() && next.all_committed()[w] == c;
            if w < plan.all_committed().len() {
                assert(plan.all_committed()[w] == c);
            } else {
                assert(semester.courses[w - plan.all_committed().len()] == c);
                assert(plan.remaining.contains(c));
            }
        }
        if plan.remaining.contains(c) {
            if semester.courses.contains(c) {
                let k = choose|k: int| 0 <= k < semester.courses.len() && semester.courses[k] == c;
                assert(next.all_committed()[plan.all_committed().len() + k] == c);
            } else {
                let i = choose|i: int| 0 <= i < plan.remaining.len() && plan.remaining[i] == c;
                assert(pred(plan.remaining[i]));
                plan.remaining.lemma_filter_contains(pred, i);
            }
        }
        if plan.all_committed().contains(c) {
            let w = choose|w: int|
                0 <= w < plan.all_committed().len() && plan.all_committed()[w] == c;
            assert(next.all_committed()[w] == c);
        }
    }
    assert(next.courses() =~= plan.courses());
}

/// `name` is the name of one of `courses`.
pub open spec fn named_among(name: Seq<char>, courses: Seq<ClassIdx>, classes: &ClassList) -> bool {
    exists|m: int|
        0 <= m < courses.len() && classes.course(#[trigger] courses[m]).spec_name() == name
}

/// What is known when a semester is attached: before it, what the plan knew
/// of all its semesters; with it, also the names of its own courses.
pub proof fn lemma_known_when_attached(plan: Plan, semester: Enrollment, name: Seq<char>)
    ensures
        plan.child(semester).names_known(plan.semesters.len() as int).contains(name)
            <==> plan.names_known(plan.semesters.len() as int).contains(name),
        plan.child(semester).names_known(plan.semesters.len() as int + 1).contains(name) <==> (
        plan.names_known(plan.semesters.len() as int).contains(name) || named_among(
            name,
            semester.courses,
            &plan.catalog,
        )),
{
    let next = plan.child(semester);
    let n = plan.semesters.len() as int;
    if plan.committed_before(name, n) {
        let (j, k) = choose|j: int, k: int|
            0 <= j < n && j < plan.semesters.len() && 0 <= k < plan.semesters[j].courses.len()
                && plan.catalog.course(#[trigger] plan.committed(j, k)).spec_name() == name;
        assert(next.committed(j, k) == plan.committed(j, k));
    }
    if next.committed_before(name, n) {
        let (j, k) = choose|j: int, k: int|
            0 <= j < n && j < next.semesters.len() && 0 <= k < next.semesters[j].courses.len()
                && next.catalog.course(#[trigger] next.committed(j, k)).spec_name() == name;
        assert(next.committed(j, k) == plan.committed(j, k));
    }
    if next.committed_before(name, n + 1) {
        let (j, k) = choose|j: int, k: int|
            0 <= j < n + 1 && j < next.semesters.len() && 0 <= k < next.semesters[j].courses.len()
                && next.catalog.course(#[trigger] next.committed(j, k)).spec_name() == name;
        if j < n {
            assert(next.committed(j, k) == plan.committed(j, k));
        } else {
            assert(next.committed(j, k) == semester.courses[k]);
        }
    }
    if named_among(name, semester.courses, &plan.catalog) {
        let m = choose|m: int|
            0 <= m < semester.courses.len() && plan.catalog.course(
                #[trigger] semester.courses[m],
            ).spec_name() == name;
        assert(next.committed(n, m) == semester.courses[m]);
    }
}

/// A course that wants one other course can be attached exactly if, for a
/// prerequisite, the other course was taken before the plan or is committed
/// in an earlier semester; for a corequisite, also if it is in the semester
/// that is attached. A semester that comes later cannot help, since none is
/// there when the course is attached.
pub proof fn lemma_requisite_when_attached(
    plan: Plan,
    semester: Enrollment,
    k: int,
    typ: RequisiteType,
    name: Seq<char>,
)
    requires
        0 <= k < semester.courses.len(),
        plan.catalog.course(semester.courses[k]).requirement() == seq![
            seq![Formula::Requisite { typ, name }],
        ],
    ensures
        plan.child(semester).requisites_met_at(plan.semesters.len() as int, k) <==> (
        plan.names_known(plan.semesters.len() as int).contains(name) || (typ == RequisiteType::Co
            && named_among(name, semester.courses, &plan.catalog))),
{
    let next = plan.child(semester);
    let n = plan.semesters.len() as int;
    let wanted = Formula::Requisite { typ, name };
    let requirement = seq![seq![wanted]];
    let pre = next.names_known(n);
    let co = next.names_known(n + 1);
    lemma_known_when_attached(plan, semester, name);
    assert(next.committed(n, k) == semester.courses[k]);
    assert(requirement[0] == seq![wanted]);
    assert(requirement[0][0] == wanted);
    assert(any_satisfied(requirement[0], pre, co) == satisfied(wanted, pre, co)) by {
        if any_satisfied(requirement[0], pre, co) {
            let j = choose|j: int| 0 <= j < requirement[0].len() && satisfied(
                #[trigger] requirement[0][j],
                pre,
                co,
            );
            assert(j == 0);
        }
    }
    assert(all_satisfied(requirement, pre, co) == any_satisfied(requirement[0], pre, co));
}

/// Filtering a list without duplicates leaves none.
pub proof fn lemma_filter_no_duplicates<A>(s: Seq<A>, pred: spec_fn(A) -> bool)
    requires
        s.no_duplicates(),
    ensures
        s.filter(pred).no_duplicates(),
    decreases s.len(),
{
    reveal(Seq::filter);
    if s.len() > 0 {
        let front = s.drop_last();
        lemma_filter_no_duplicates(front, pred);
        lemma_filter_keeps(front, pred);
        let kept = front.filter(pred);
        if pred(s.last()) {
            assert forall|i: int, j: int|
                0 <= i < kept.len() + 1 && 0 <= j < kept.len() + 1 && i != j implies kept.push(
                s.last(),
            )[i] != kept.push(s.last())[j] by {
                if i == kept.len() || j == kept.len() {
                    // one of the two is the last of `s`, the other stood
                    // before it
                    let inner = if i < kept.len() {
                        i
                    } else {
                        j
                    };
                    assert(front.contains(kept[inner]));
                    let w = choose|w: int| 0 <= w < front.len() && front[w] == kept[inner];
                    assert(s[w] != s[s.len() - 1]);
                }
            }
        }
    }
}

/// Attaching a semester keeps a plan well formed: the handles stay within
/// the catalog, no course remains twice, and what remains is apart from what
/// is committed.
pub proof fn lemma_child_wf(plan: Plan, semester: Enrollment)
    requires
        plan.wf(),
        all_held(semester.courses, &plan.catalog),
    ensures
        plan.child(semester).wf(),
{
    let next = plan.child(semester);
    let pred = |c: ClassIdx| !semester.courses.contains(c);
    lemma_filter_keeps(plan.remaining, pred);
    lemma_filter_no_duplicates(plan.remaining, pred);
    assert forall|i: int| 0 <= i < next.remaining.len() implies plan.catalog.holds(
        #[trigger] next.remaining[i],
    ) by {
        let c = next.remaining[i];
        assert(plan.remaining.contains(c));
    }
    assert forall|i: int, j: int, k: int|
        0 <= i < next.remaining.len() && 0 <= j < next.semesters.len() && 0 <= k
            < next.semesters[j].courses.len() implies #[trigger] next.remaining[i]
        != #[trigger] next.semesters[j].courses[k] by {
        let c = next.remaining[i];
        assert(plan.remaining.contains(c));
        assert(pred(c));
        if j < plan.semesters.len() {
            let w = choose|w: int| 0 <= w < plan.remaining.len() && plan.remaining[w] == c;
            assert(plan.remaining[w] != plan.semesters[j].courses[k]);
        } else {
            assert(semester.courses.contains(semester.courses[k]));
        }
    }
}

/// What the courses of the first `j` semesters count, and of semester `j`
/// with them, is no more than what the courses of all semesters count.
pub proof fn lemma_committed_grows(
    semesters: Seq<Enrollment>,
    classes: Seq<crate::class::Class>,
    group: Option<Seq<char>>,
    j: int,
)
    requires
        0 <= j <= semesters.len(),
    ensures
        0 <= credit_sum_toward(courses_of(semesters.take(j)), classes, group) <= credit_sum_toward(
            courses_of(semesters),
            classes,
            group,
        ),
        j < semesters.len() ==> credit_sum_toward(courses_of(semesters.take(j + 1)), classes, group)
            == credit_sum_toward(courses_of(semesters.take(j)), classes, group) + credit_sum_toward(
            semesters[j].courses,
            classes,
            group,
        ),
    decreases semesters.len(),
{
    if j == semesters.len() {
        assert(semesters.take(j) =~= semesters);
        lemma_credit_sum_toward_grows(courses_of(semesters), classes, group, 0);
    } else {
        let front = semesters.drop_last();
        assert(front.take(j) =~= semesters.take(j));
        lemma_committed_grows(front, classes, group, j);
        lemma_credit_sum_toward_append(courses_of(front), semesters.last().courses, classes, group);
        lemma_credit_sum_toward_grows(semesters.last().courses, classes, group, 0);
        assert(semesters.take(j + 1).drop_last() =~= semesters.take(j));
        lemma_credit_sum_toward_append(
            courses_of(semesters.take(j)),
            semesters[j].courses,
            classes,
            group,
        );
    }
}

/// Tells whether `handles` holds `wanted`.
pub fn holds_handle(handles: &Vec<ClassIdx>, wanted: ClassIdx) -> (b: bool)
    ensures
        b == handles@.contains(wanted),
{
    let mut i: usize = 0;
    while i < handles.len()
        invariant
            i <= handles@.len(),
            forall|k: int| 0 <= k < i ==> handles@[k] != wanted,
        decreases handles@.len() - i,
    {
        if handles[i] == wanted {
            return true;
        }
        i += 1;
    }
    false
}

/// A copy of a list of semesters.
fn copy_semesters(semesters: &Vec<Semester>) -> (r: Vec<Semester>)
    ensures
        enrollments(r@) == enrollments(semesters@),
{
    let mut r: Vec<Semester> = Vec::new();
    let mut j: usize = 0;
    while j < semesters.len()
        invariant
            j <= semesters@.len(),
            r@.len() == j,
            forall|i: int| 0 <= i < j ==> (#[trigger] r@[i])@ == semesters@[i]@,
        decreases semesters@.len() - j,
    {
        let courses = semesters[j].0.clone();
        r.push(Semester(courses, semesters[j].1));
        j += 1;
    }
    r
}

/// A node of the search tree.
pub struct Schedule<'a> {
    classes: &'a ClassList,
    remaining: Vec<ClassIdx>,
    semesters: Vec<Semester>,
    taken: &'a Vec<String>,
    first_term: Term,
}

impl<'a> View for Schedule<'a> {
    type V = Plan;

    closed spec fn view(&self) -> Plan {
        Plan {
            catalog: *self.classes,
            remaining: self.remaining@,
            semesters: enrollments(self.semesters@),
            taken: name_set(self.taken@),
            first_term: self.first_term,
        }
    }
}

/// What a schedule knows when its first `completed` semesters are over: the
/// view from which the requisites of a course of the next semester are
/// judged.
pub struct History<'a> {
    schedule: &'a Schedule<'a>,
    completed: usize,
}

impl<'a> History<'a> {
    /// The plan of the schedule that is looked at.
    pub closed spec fn plan(&self) -> Plan {
        self.schedule@
    }

    /// The number of semesters that count as completed.
    pub closed spec fn spec_completed(&self) -> int {
        self.completed as int
    }
}

impl<'a> TestRequisite for History<'a> {
    open spec fn prerequisites(&self) -> Set<Seq<char>> {
        self.plan().names_known(self.spec_completed())
    }

    open spec fn corequisites(&self) -> Set<Seq<char>> {
        self.plan().names_known(self.plan().semesters.len() as int)
    }

    fn has_prerequisite(&self, requisite: &str) -> (b: bool) {
        self.schedule.knows(requisite, self.completed)
    }

    fn has_corequisite(&self, requisite: &str) -> (b: bool) {
        self.schedule.knows(requisite, self.schedule.semesters.len())
    }
}

/// A schedule answers for a course of its last committed semester: the
/// semesters before the last count as completed, all of them as concurrent.
impl<'a> TestRequisite for Schedule<'a> {
    open spec fn prerequisites(&self) -> Set<Seq<char>> {
        self@.names_known(self@.semesters.len() - 1)
    }

    open spec fn corequisites(&self) -> Set<Seq<char>> {
        self@.names_known(self@.semesters.len() as int)
    }

    fn has_prerequisite(&self, requisite: &str) -> (b: bool) {
        if self.semesters.len() == 0 {
            self.knows(requisite, 0)
        } else {
            self.knows(requisite, self.semesters.len() - 1)
        }
    }

    fn has_corequisite(&self, requisite: &str) -> (b: bool) {
        self.knows(requisite, self.semesters.len())
    }
}

impl<'a> Schedule<'a> {
    /// Holds of every schedule: its plan is well formed.
    #[verifier::type_invariant]
    pub open spec fn inv(&self) -> bool {
        self@.wf()
    }

    /// The schedule that a plan starts from: every course of the catalog
    /// remains, and no semester is committed.
    pub fn new(classes: &'a ClassList, taken: &'a Vec<String>, term: Term) -> (r: Self)
        ensures
            r@.wf(),
            r@.catalog == *classes,
            r@.remaining == Seq::new(classes@.len(), |i: int| ClassIdx(i as usize)),
            r@.semesters == Seq::<Enrollment>::empty(),
            r@.taken == name_set(taken@),
            r@.first_term == term,
            r@.courses() == Set::new(|c: ClassIdx| classes.holds(c)),
    {
        let count = classes.len();
        proof {
            let all = Seq::new(classes@.len(), |i: int| ClassIdx(i as usize));
            assert forall|i: int, j: int|
                0 <= i < all.len() && 0 <= j < all.len() && i != j implies all[i] != all[j] by {
                assert(i < count && j < count);
            }
            assert forall|c: ClassIdx| all.to_set().contains(c) == classes.holds(c) by {
                if classes.holds(c) {
                    assert(all[c.0 as int] == c);
                }
            }
        }
        Schedule {
            classes,
            remaining: classes.all(),
            semesters: Vec::new(),
            taken,
            first_term: term,
        }
    }

    /// The catalog that the schedule plans over.
    pub fn classes(&self) -> (r: &'a ClassList)
        ensures
            *r == self@.catalog,
    {
        self.classes
    }

    /// The courses not yet scheduled.
    pub fn remaining(&self) -> (r: &Vec<ClassIdx>)
        ensures
            r@ == self@.remaining,
    {
        &self.remaining
    }

    /// The committed semesters, first term first.
    pub fn semesters(&self) -> (r: &Vec<Semester>)
        ensures
            enrollments(r@) == self@.semesters,
    {
        &self.semesters
    }

    /// The term of the first semester.
    pub fn first_term(&self) -> (r: Term)
        ensures
            r == self@.first_term,
    {
        self.first_term
    }

    /// Tells whether the term of the next semester can be computed, that is
    /// whether `generate_possible` may be called.
    pub fn can_advance(&self) -> (b: bool)
        ensures
            b == self@.can_advance(),
    {
        if self.semesters.len() == 0 {
            true
        } else {
            self.semesters[self.semesters.len() - 1].1.can_advance()
        }
    }

    /// The term of the next semester.
    pub fn next_term(&self) -> (r: Term)
        requires
            self@.can_advance(),
        ensures
            r == self@.next_term(),
    {
        if self.semesters.len() == 0 {
            self.first_term
        } else {
            self.semesters[self.semesters.len() - 1].1.next()
        }
    }

    /// Tells whether `name` was taken before the plan or is the name of a
    /// course committed in one of the first `upto` semesters.
    fn knows(&self, name: &str, upto: usize) -> (b: bool)
        ensures
            b == self@.names_known(upto as int).contains(name@),
    {
        proof {
            use_type_invariant(self);
        }
        if holds_name(self.taken, name) {
            return true;
        }
        let wanted = String::from_str(name);
        let mut j: usize = 0;
        while j < self.semesters.len() && j < upto
            invariant
                self@.wf(),
                wanted@ == name@,
                j <= self.semesters@.len(),
                j <= upto,
                !self@.committed_before(name@, j as int),
            decreases self.semesters@.len() - j,
        {
            let semester = &self.semesters[j];
            let mut k: usize = 0;
            while k < semester.0.len()
                invariant
                    self@.wf(),
                    wanted@ == name@,
                    j < self.semesters@.len(),
                    j < upto,
                    semester@ == self@.semesters[j as int],
                    k <= semester.0@.len(),
                    !self@.committed_before(name@, j as int),
                    forall|i: int|
                        0 <= i < k ==> self@.catalog.course(
                            #[trigger] self@.committed(j as int, i),
                        ).spec_name() != name@,
                decreases semester.0@.len() - k,
            {
                if self.classes.get(semester.0[k]).is_named(&wanted) {
                    assert(self@.catalog.course(self@.committed(j as int, k as int)).spec_name()
                        == name@);
                    return true;
                }
                k += 1;
            }
            j += 1;
        }
        false
    }

    /// Attaches `semester`: its courses leave the remaining ones and it
    /// becomes the last committed semester. The child is given only where
    /// the requirement of every committed course then holds.
    pub fn child(&self, semester: Semester) -> (r: Result<Schedule<'a>, ScheduleError>)
        requires
            semester.fits(&self@.catalog),
        ensures
            match r {
                Ok(s) => s@ == self@.child(semester@) && s@.requisites_hold() && s@.wf(),
                Err(e) => e@ == Rejection::RequisitesUnmet && !self@.child(
                    semester@,
                ).requisites_hold(),
            },
    {
        proof {
            use_type_invariant(self);
        }
        let ghost pred = |c: ClassIdx| !semester@.courses.contains(c);
        let mut remaining: Vec<ClassIdx> = Vec::new();
        let mut i: usize = 0;
        while i < self.remaining.len()
            invariant
                i <= self.remaining@.len(),
                pred == (|c: ClassIdx| !semester@.courses.contains(c)),
                remaining@ == self.remaining@.take(i as int).filter(pred),
            decreases self.remaining@.len() - i,
        {
            let class = self.remaining[i];
            proof {
                assert(self.remaining@.take(i + 1) =~= self.remaining@.take(i as int).push(class));
                self.remaining@.take(i as int).lemma_filter_push(class, pred);
            }
            if !holds_handle(&semester.0, class) {
                remaining.push(class);
            }
            i += 1;
        }
        assert(self.remaining@.take(i as int) =~= self.remaining@);
        let mut semesters = copy_semesters(&self.semesters);
        let ghost attached = semester@;
        semesters.push(semester);
        proof {
            assert(enrollments(semesters@) =~= self@.semesters.push(attached));
            lemma_child_wf(self@, attached);
        }
        let new = Schedule {
            classes: self.classes,
            remaining,
            semesters,
            taken: self.taken,
            first_term: self.first_term,
        };
        match new.is_valid() {
            Ok(_) => Ok(new),
            Err(err) => Err(err),
        }
    }

    /// What the committed courses count, in all or toward a group, where it
    /// is at most `limit`; else some number above `limit`.
    fn tally(&self, group: Option<&String>, limit: u32) -> (r: u32)
        requires
            limit <= 0xffff,
        ensures
            r <= limit ==> r == credit_sum_toward(
                self@.all_committed(),
                self@.catalog@,
                group_form(group),
            ),
            r > limit ==> credit_sum_toward(
                self@.all_committed(),
                self@.catalog@,
                group_form(group),
            ) > limit,
    {
        proof {
            use_type_invariant(self);
        }
        let ghost toward = group_form(group);
        let ghost classes = self@.catalog@;
        let ghost committed = self@.semesters;
        let mut total: u32 = 0;
        let mut j: usize = 0;
        while j < self.semesters.len() && total <= limit
            invariant
                self@.wf(),
                toward == group_form(group),
                classes == self@.catalog@,
                committed == self@.semesters,
                limit <= 0xffff,
                j <= self.semesters@.len(),
                total <= limit + 255,
                total <= limit ==> total == credit_sum_toward(
                    courses_of(committed.take(j as int)),
                    classes,
                    toward,
                ),
                total > limit ==> credit_sum_toward(courses_of(committed), classes, toward) > limit,
            decreases self.semesters@.len() - j,
        {
            let semester = &self.semesters[j];
            let ghost before = total;
            let mut k: usize = 0;
            while k < semester.0.len() && total <= limit
                invariant
                    self@.wf(),
                    toward == group_form(group),
                    classes == self@.catalog@,
                    committed == self@.semesters,
                    limit <= 0xffff,
                    j < self.semesters@.len(),
                    semester@ == committed[j as int],
                    k <= semester.0@.len(),
                    total <= limit + 255,
                    before <= limit,
                    total == before + credit_sum_toward(
                        semester.0@.take(k as int),
                        classes,
                        toward,
                    ),
                decreases semester.0@.len() - k,
            {
                let class = self.classes.get(semester.0[k]);
                let counts = match group {
                    Some(g) => class.counts_toward(g),
                    None => true,
                };
                proof {
                    assert(semester.0@.take(k + 1).drop_last() =~= semester.0@.take(k as int));
                }
                if counts {
                    total = total + class.credits() as u32;
                }
                k += 1;
            }
            proof {
                lemma_committed_grows(committed, classes, toward, j as int);
                lemma_credit_sum_toward_grows(semester.0@, classes, toward, k as int);
                if k == semester.0@.len() {
                    assert(semester.0@.take(k as int) =~= semester.0@);
                }
                lemma_committed_grows(committed, classes, toward, j + 1);
            }
            j += 1;
        }
        proof {
            lemma_committed_grows(committed, classes, toward, j as int);
            if j == self.semesters@.len() {
                assert(committed.take(j as int) =~= committed);
            }
        }
        total
    }

    /// The credits of all committed courses.
    pub fn total_credits(&self) -> (r: u16)
        requires
            self@.committed_credits() <= u16::MAX,
        ensures
            r == self@.committed_credits(),
    {
        self.tally(None, 0xffff) as u16
    }

    /// Tells whether every elective group that `config` names has its
    /// minimum of credits among the committed courses.
    pub fn meets_group_credits(&self, config: &Config) -> (b: bool)
        ensures
            b == self@.meets_group_credits(config),
    {
        let mut g: usize = 0;
        while g < config.groups.len()
            invariant
                g <= config.groups@.len(),
                forall|i: int|
                    0 <= i < g ==> self@.group_credits(#[trigger] config.group_name(i))
                        >= config.group_minimum(i),
            decreases config.groups@.len() - g,
        {
            let credits = self.tally(Some(&config.groups[g].0), 255);
            if credits < config.groups[g].1 as u32 {
                assert(self@.group_credits(config.group_name(g as int)) < config.group_minimum(
                    g as int,
                ));
                return false;
            }
            g += 1;
        }
        true
    }

    /// Tells whether a required course is still among the remaining ones.
    fn misses_required(&self) -> (b: bool)
        ensures
            b == self@.misses_required(),
    {
        proof {
            use_type_invariant(self);
        }
        let mut i: usize = 0;
        while i < self.remaining.len()
            invariant
                self@.wf(),
                i <= self.remaining@.len(),
                forall|k: int|
                    0 <= k < i ==> !self@.catalog.course(
                        #[trigger] self@.remaining[k],
                    ).spec_required(),
            decreases self.remaining@.len() - i,
        {
            if self.classes.get(self.remaining[i]).required() {
                return true;
            }
            i += 1;
        }
        false
    }

    /// Tells whether the schedule is complete, and why where it is not.
    pub fn is_complete(&self, config: &Config) -> (r: Result<(), ScheduleError>)
        ensures
            match r {
                Ok(_) => self@.completeness(config) is Ok,
                Err(e) => self@.completeness(config) == Err::<(), Rejection>(e@),
            },
    {
        if self.misses_required() {
            return Err(ScheduleError::RequirementsUnmet);
        }
        if !self.meets_group_credits(config) {
            return Err(ScheduleError::GroupsUnmet);
        }
        Ok(())
    }

    /// Says in words whether the schedule is complete.
    pub fn completeness_display(&self, config: &Config) -> (r: &'static str)
        ensures
            r@ == completeness_words(self@.completeness(config)),
    {
        match self.is_complete(config) {
            Ok(_) => "Yes",
            Err(ScheduleError::RequirementsUnmet) => "No, requirements unmet",
            Err(_) => "No, group credit requirement unmet",
        }
    }

    /// Generates the candidates for the next semester, each with the verdict
    /// on it: the semester where the candidate is valid, and the reason where
    /// it is not. Nothing is filtered out, so that a caller can count the
    /// reasons.
    pub fn generate_possible(&self, config: &Config) -> (r: Vec<Result<Semester, ScheduleError>>)
        requires
            self@.can_advance(),
        ensures
            outcomes(r@) == self@.possible(config),
            self@.offers_each_selection(config),
            forall|i: int|
                0 <= i < r@.len() ==> (#[trigger] r@[i] matches Ok(s) ==> s.fits(&self@.catalog)
                    && drawn(s.0@, self@.remaining)),
    {
        proof {
            use_type_invariant(self);
        }
        let term = self.next_term();
        let listed = list_candidates(&self.remaining, self.classes, config);
        let ghost wanted = self@.possible(config);
        let mut results: Vec<Result<Semester, ScheduleError>> = Vec::new();
        let mut i: usize = 0;
        while i < listed.len()
            invariant
                i <= listed@.len(),
                selections(listed@) == candidates(self@.remaining, self@.catalog@, config),
                all_drawn(selections(listed@), self@.remaining),
                self@.wf(),
                term == self@.next_term(),
                wanted == self@.possible(config),
                *self.classes == self@.catalog,
                results@.len() == i,
                forall|k: int| 0 <= k < i ==> outcome(#[trigger] results@[k]) == wanted[k],
                forall|k: int|
                    0 <= k < i ==> (#[trigger] results@[k] matches Ok(s) ==> s.fits(&self@.catalog)
                        && drawn(s.0@, self@.remaining)),
            decreases listed@.len() - i,
        {
            let courses = listed[i].clone();
            assert(selections(listed@)[i as int] == courses@);
            proof {
                lemma_drawn_held(courses@, self@.remaining, &self@.catalog);
            }
            let candidate = Semester::new(courses, term);
            results.push(candidate.verify(self.classes, config));
            i += 1;
        }
        results
    }

    /// The view from which the courses of semester `completed` are judged.
    pub fn history(&'a self, completed: usize) -> (h: History<'a>)
        ensures
            h.plan() == self@,
            h.spec_completed() == completed,
    {
        History { schedule: self, completed }
    }

    /// Tells whether the requirement of every committed course holds.
    pub fn is_valid(&self) -> (r: Result<(), ScheduleError>)
        ensures
            r is Ok <==> self@.requisites_hold(),
            r matches Err(e) ==> e@ == Rejection::RequisitesUnmet,
    {
        proof {
            use_type_invariant(self);
        }
        let mut j: usize = 0;
        while j < self.semesters.len()
            invariant
                self@.wf(),
                j <= self.semesters@.len(),
                forall|a: int, b: int|
                    0 <= a < j && 0 <= b < self@.semesters[a].courses.len()
                        ==> #[trigger] self@.requisites_met_at(a, b),
            decreases self.semesters@.len() - j,
        {
            let semester = &self.semesters[j];
            let history = History { schedule: self, completed: j };
            let mut k: usize = 0;
            while k < semester.0.len()
                invariant
                    self@.wf(),
                    j < self.semesters@.len(),
                    semester@ == self@.semesters[j as int],
                    history.plan() == self@,
                    history.spec_completed() == j,
                    k <= semester.0@.len(),
                    forall|a: int, b: int|
                        0 <= a < j && 0 <= b < self@.semesters[a].courses.len()
                            ==> #[trigger] self@.requisites_met_at(a, b),
                    forall|b: int| 0 <= b < k ==> #[trigger] self@.requisites_met_at(j as int, b),
                decreases semester.0@.len() - k,
            {
                if !self.classes.get(semester.0[k]).requisites_met(&history) {
                    assert(!self@.requisites_met_at(j as int, k as int));
                    return Err(ScheduleError::RequisitesUnmet);
                }
                k += 1;
            }
            j += 1;
        }
        Ok(())
    }
}

} // verus!
