//! One generation of the search: every schedule of the frontier is expanded
//! by every candidate semester.
//!
//! Nothing is dropped in silence: a candidate that is turned down stays in
//! the result with its reason, so that the reasons can be counted.

use crate::config::Config;
use crate::error::{Rejection, ScheduleError};
use crate::candidates::drawn;
use crate::class::ClassIdx;
use crate::schedule::{lemma_child_conserves_courses, outcomes, Plan, Schedule};
use crate::semester::Enrollment;
use crate::term::{lemma_terms_follow_fewer, nth_term, terms_follow};
use vstd::prelude::*;

verus! {

/// What attaching the outcome of one candidate to `plan` gives: the child
/// where the candidate is valid and the requisites of the child hold, else
/// the reason.
pub open spec fn attach(plan: Plan, candidate: Result<Enrollment, Rejection>) -> Result<
    Plan,
    Rejection,
> {
    match candidate {
        Ok(semester) => if plan.child(semester).requisites_hold() {
            Ok(plan.child(semester))
        } else {
            Err(Rejection::RequisitesUnmet)
        },
        Err(reason) => Err(reason),
    }
}

/// The expansion of one plan: each candidate for its next semester, attached.
pub open spec fn expansion(plan: Plan, config: &Config) -> Seq<Result<Plan, Rejection>> {
    let possible = plan.possible(config);
    Seq::new(possible.len(), |i: int| attach(plan, possible[i]))
}

/// The expansions of a list of plans, one after the other.
pub open spec fn successors(plans: Seq<Plan>, config: &Config) -> Seq<Result<Plan, Rejection>>
    decreases plans.len(),
{
    if plans.len() == 0 {
        Seq::empty()
    } else {
        successors(plans.drop_last(), config) + expansion(plans.last(), config)
    }
}

/// The forms of a list of schedules.
pub open spec fn plans(schedules: Seq<Schedule>) -> Seq<Plan> {
    Seq::new(schedules.len(), |i: int| schedules[i]@)
}

/// The form of one result of a step.
pub open spec fn step(result: Result<Schedule, ScheduleError>) -> Result<Plan, Rejection> {
    match result {
        Ok(s) => Ok(s@),
        Err(e) => Err(e@),
    }
}

/// The forms of the results of a step.
pub open spec fn steps(results: Seq<Result<Schedule, ScheduleError>>) -> Seq<
    Result<Plan, Rejection>,
> {
    Seq::new(results.len(), |i: int| step(results[i]))
}

/// Expands every schedule of `input` by every candidate for its next
/// semester. The result lists, schedule after schedule and candidate after
/// candidate, the child or the reason for which there is none.
pub fn step_schedules<'a>(input: Vec<Schedule<'a>>, config: &Config) -> (r: Vec<
    Result<Schedule<'a>, ScheduleError>,
>)
    requires
        forall|i: int| 0 <= i < input@.len() ==> (#[trigger] input@[i])@.can_advance(),
    ensures
        steps(r@) == successors(plans(input@), config),
        forall|k: int|
            0 <= k < r@.len() ==> (#[trigger] r@[k] matches Ok(child) ==> exists|j: int|
                0 <= j < input@.len() && child@.courses() == (#[trigger] input@[j])@.courses()),
{
    let mut results: Vec<Result<Schedule<'a>, ScheduleError>> = Vec::new();
    let ghost frontier = plans(input@);
    let mut i: usize = 0;
    while i < input.len()
        invariant
            i <= input@.len(),
            frontier == plans(input@),
            forall|k: int| 0 <= k < input@.len() ==> (#[trigger] input@[k])@.can_advance(),
            steps(results@) == successors(frontier.take(i as int), config),
            forall|k: int|
                0 <= k < results@.len() ==> (#[trigger] results@[k] matches Ok(child) ==> exists|
                    j: int,
                |
                    0 <= j < input@.len() && child@.courses() == (#[trigger] input@[j])@.courses()),
        decreases input@.len() - i,
    {
        let sched = &input[i];
        let possible = sched.generate_possible(config);
        let ghost parent = sched@;
        let ghost wanted = expansion(parent, config);
        let ghost before = steps(results@);
        let ghost offered = possible@;
        for sem_result in it: possible.into_iter()
            invariant
                it.seq() == offered,
                parent == sched@,
                outcomes(offered) == parent.possible(config),
                forall|k: int|
                    0 <= k < offered.len() ==> (#[trigger] offered[k] matches Ok(s) ==> s.fits(
                        &parent.catalog,
                    ) && drawn(s.0@, parent.remaining)),
                wanted == expansion(parent, config),
                steps(results@) == before + wanted.take(it.index() as int),
                i < input@.len(),
                sched == input@[i as int],
                forall|k: int|
                    0 <= k < results@.len() ==> (#[trigger] results@[k] matches Ok(child)
                        ==> exists|j: int|
                        0 <= j < input@.len() && child@.courses() == (
                        #[trigger] input@[j])@.courses()),
        {
            let ghost at = it.index() as int;
            let ghost listed = steps(results@);
            let attached = match sem_result {
                Ok(sem) => {
                    proof {
                        lemma_child_conserves_courses(parent, sem@);
                    }
                    sched.child(sem)
                },
                Err(err) => Err(err),
            };
            results.push(attached);
            assert(steps(results@) =~= listed.push(wanted[at]));
        }
        assert(frontier.take(i + 1).drop_last() =~= frontier.take(i as int));
        i += 1;
    }
    assert(frontier.take(i as int) =~= frontier);
    results
}

/// The values of the results that succeeded, in order.
pub open spec fn successes<T, E>(results: Seq<Result<T, E>>) -> Seq<T>
    decreases results.len(),
{
    if results.len() == 0 {
        Seq::empty()
    } else {
        match results.last() {
            Ok(value) => successes(results.drop_last()).push(value),
            Err(_) => successes(results.drop_last()),
        }
    }
}

/// The errors of the results that failed, in order.
pub open spec fn failures<T, E>(results: Seq<Result<T, E>>) -> Seq<E>
    decreases results.len(),
{
    if results.len() == 0 {
        Seq::empty()
    } else {
        match results.last() {
            Ok(_) => failures(results.drop_last()),
            Err(error) => failures(results.drop_last()).push(error),
        }
    }
}

/// Parts the results into the values of those that succeeded and the errors
/// of those that failed, each in the order of the results.
pub fn split_result_vec<T, E>(results: Vec<Result<T, E>>) -> (r: (Vec<T>, Vec<E>))
    ensures
        r.0@ == successes(results@),
        r.1@ == failures(results@),
{
    let mut values: Vec<T> = Vec::new();
    let mut errors: Vec<E> = Vec::new();
    let ghost all = results@;
    for result in it: results.into_iter()
        invariant
            it.seq() == all,
            values@ == successes(all.take(it.index() as int)),
            errors@ == failures(all.take(it.index() as int)),
    {
        assert(all.take(it.index() + 1).drop_last() =~= all.take(it.index() as int));
        match result {
            Ok(value) => values.push(value),
            Err(error) => errors.push(error),
        }
    }
    assert(all.take(all.len() as int) =~= all);
    (values, errors)
}

/// The frontier after `n` steps from `start`: the children of the children,
/// `n` times, in the order in which the steps list them.
pub open spec fn generation(start: Plan, config: &Config, n: nat) -> Seq<Plan>
    decreases n,
{
    if n == 0 {
        seq![start]
    } else {
        successes(successors(generation(start, config, (n - 1) as nat), config))
    }
}

/// The reasons for which candidates were turned down in the first `n` steps
/// from `start`, in the order of the steps.
pub open spec fn rejections(start: Plan, config: &Config, n: nat) -> Seq<Rejection>
    decreases n,
{
    if n == 0 {
        Seq::empty()
    } else {
        rejections(start, config, (n - 1) as nat) + failures(
            successors(generation(start, config, (n - 1) as nat), config),
        )
    }
}

/// The forms of a list of reasons.
pub open spec fn reasons(errors: Seq<ScheduleError>) -> Seq<Rejection> {
    Seq::new(errors.len(), |i: int| errors[i]@)
}

/// Each success among `results` is the value of one of them.
pub proof fn lemma_successes_from<T, E>(results: Seq<Result<T, E>>, i: int)
    requires
        0 <= i < successes(results).len(),
    ensures
        exists|k: int| 0 <= k < results.len() && #[trigger] results[k] == Ok::<T, E>(
            successes(results)[i],
        ),
    decreases results.len(),
{
    let front = results.drop_last();
    if i < successes(front).len() {
        lemma_successes_from(front, i);
        let k = choose|k: int| 0 <= k < front.len() && #[trigger] front[k] == Ok::<T, E>(
            successes(front)[i],
        );
        assert(results[k] == front[k]);
    } else {
        assert(results[results.len() - 1] == results.last());
    }
}

/// Each plan among the successors of `plans` is the child of one of them by a
/// semester in the term that follows its last.
pub proof fn lemma_successors_from(plans: Seq<Plan>, config: &Config, k: int)
    requires
        0 <= k < successors(plans, config).len(),
    ensures
        successors(plans, config)[k] matches Ok(child) ==> exists|j: int, courses: Seq<ClassIdx>|
            0 <= j < plans.len() && child == #[trigger] plans[j].child(
                Enrollment { courses, term: plans[j].next_term() },
            ),
    decreases plans.len(),
{
    let front = plans.drop_last();
    let last = plans.last();
    if k < successors(front, config).len() {
        lemma_successors_from(front, config, k);
        match successors(plans, config)[k] {
            Ok(child) => {
                let (j, courses) = choose|j: int, courses: Seq<ClassIdx>|
                    0 <= j < front.len() && child == #[trigger] front[j].child(
                        Enrollment { courses, term: front[j].next_term() },
                    );
                assert(child == plans[j].child(Enrollment { courses, term: plans[j].next_term() }));
            },
            Err(_) => {},
        }
    } else {
        let c = k - successors(front, config).len();
        match successors(plans, config)[k] {
            Ok(child) => {
                let j = plans.len() - 1;
                let semester = last.possible(config)[c]->Ok_0;
                assert(child == plans[j].child(
                    Enrollment { courses: semester.courses, term: plans[j].next_term() },
                ));
            },
            Err(_) => {},
        }
    }
}

/// After `n` steps from `start`, every plan of the frontier has `n`
/// semesters more than `start`. Its next semester is in the term `n` terms
/// after that of the next semester of `start`, and its last semester, where
/// a step was made, in the term before.
pub proof fn lemma_generation_shape(start: Plan, config: &Config, n: nat, i: int)
    requires
        0 <= i < generation(start, config, n).len(),
    ensures
        generation(start, config, n)[i].semesters.len() == start.semesters.len() + n,
        generation(start, config, n)[i].first_term == start.first_term,
        generation(start, config, n)[i].next_term() == nth_term(start.next_term(), n),
        n > 0 ==> generation(start, config, n)[i].semesters.last().term == nth_term(
            start.next_term(),
            (n - 1) as nat,
        ),
    decreases n,
{
    if n > 0 {
        let before = generation(start, config, (n - 1) as nat);
        let results = successors(before, config);
        lemma_successes_from(results, i);
        let k = choose|k: int| 0 <= k < results.len() && #[trigger] results[k] == Ok::<
            Plan,
            Rejection,
        >(successes(results)[i]);
        lemma_successors_from(before, config, k);
        let child = successes(results)[i];
        let (j, courses) = choose|j: int, courses: Seq<ClassIdx>|
            0 <= j < before.len() && child == #[trigger] before[j].child(
                Enrollment { courses, term: before[j].next_term() },
            );
        lemma_generation_shape(start, config, (n - 1) as nat, j);
    }
}

/// Runs the search from `start` for as many terms as `config` asks for: each
/// step expands the whole frontier, its children are the next frontier, and
/// the reasons for which candidates were turned down are collected. Gives
/// the last frontier and all the reasons.
///
/// The calendar must reach as far as the search goes; `has_successors`
/// tells whether it does.
pub fn search<'a>(start: Schedule<'a>, config: &Config) -> (r: (
    Vec<Schedule<'a>>,
    Vec<ScheduleError>,
))
    requires
        config.semesters > 0 ==> start@.can_advance() && terms_follow(
            start@.next_term(),
            (config.semesters - 1) as nat,
        ),
    ensures
        plans(r.0@) == generation(start@, config, config.semesters as nat),
        reasons(r.1@) == rejections(start@, config, config.semesters as nat),
        forall|i: int| 0 <= i < r.0@.len() ==> (#[trigger] r.0@[i])@.courses() == start@.courses(),
{
    let ghost origin = start@;
    let mut scheds: Vec<Schedule<'a>> = Vec::new();
    scheds.push(start);
    let mut errors: Vec<ScheduleError> = Vec::new();
    let mut n: u8 = 0;
    while n < config.semesters
        invariant
            n <= config.semesters,
            config.semesters > 0 ==> origin.can_advance() && terms_follow(
                origin.next_term(),
                (config.semesters - 1) as nat,
            ),
            plans(scheds@) == generation(origin, config, n as nat),
            reasons(errors@) == rejections(origin, config, n as nat),
            forall|i: int|
                0 <= i < scheds@.len() ==> (#[trigger] scheds@[i])@.courses() == origin.courses(),
        decreases config.semesters - n,
    {
        proof {
            assert forall|i: int| 0 <= i < scheds@.len() implies (
            #[trigger] scheds@[i])@.can_advance() by {
                lemma_generation_shape(origin, config, n as nat, i);
                if n > 0 {
                    lemma_terms_follow_fewer(
                        origin.next_term(),
                        (config.semesters - 1) as nat,
                        (n - 1) as nat,
                    );
                }
            }
        }
        let results = step_schedules(scheds, config);
        let ghost stepped_from = results@;
        let (next, failed) = split_result_vec(results);
        proof {
            lemma_split_forms(stepped_from);
            assert forall|i: int| 0 <= i < next@.len() implies (#[trigger] next@[i])@.courses()
                == origin.courses() by {
                lemma_successes_from(stepped_from, i);
            }
        }
        let mut failed = failed;
        errors.append(&mut failed);
        scheds = next;
        n += 1;
    }
    (scheds, errors)
}

/// Parting results and taking forms can be done in either order.
pub proof fn lemma_split_forms(results: Seq<Result<Schedule, ScheduleError>>)
    ensures
        plans(successes(results)) == successes(steps(results)),
        reasons(failures(results)) == failures(steps(results)),
    decreases results.len(),
{
    if results.len() == 0 {
        assert(plans(successes(results)) =~= successes(steps(results)));
        assert(reasons(failures(results)) =~= failures(steps(results)));
    } else {
        let front = results.drop_last();
        lemma_split_forms(front);
        assert(steps(results).drop_last() =~= steps(front));
        assert(steps(results).last() == step(results.last()));
        match results.last() {
            Ok(s) => {
                assert(plans(successes(results)) =~= plans(successes(front)).push(s@));
                assert(reasons(failures(results)) =~= reasons(failures(front)));
            },
            Err(e) => {
                assert(plans(successes(results)) =~= plans(successes(front)));
                assert(reasons(failures(results)) =~= reasons(failures(front)).push(e@));
            },
        }
    }
}

} // verus!
