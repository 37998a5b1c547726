use course_scheduler::class::{Class, ClassIdx, ClassList};
use course_scheduler::config::Config;
use course_scheduler::error::ScheduleError;
use course_scheduler::requirements::TestRequisite;
use course_scheduler::schedule::Schedule;
use course_scheduler::search::{search, split_result_vec, step_schedules};
use course_scheduler::semester::Semester;
use course_scheduler::term::{has_successors, Term, TermSeason};

const FALL_2023: Term = Term {
    season: TermSeason::Fall,
    year: 2023,
};

const SPRING_2024: Term = Term {
    season: TermSeason::Spring,
    year: 2024,
};

fn config(min_credits: u8, max_credits: u8, groups: &[(&str, u8)]) -> Config {
    Config {
        min_credits,
        max_credits,
        semesters: 2,
        starting_term: FALL_2023,
        groups: groups.iter().map(|(g, c)| (g.to_string(), *c)).collect(),
        show_incomplete: true,
    }
}

fn handles(positions: &[usize]) -> Vec<ClassIdx> {
    positions.iter().map(|&i| ClassIdx(i)).collect()
}

fn semester(positions: &[usize], term: Term) -> Semester {
    Semester::new(handles(positions), term)
}

/// MTH 132, MTH 133 (requires MTH 132) and CSE 231, four credits each.
fn calculus() -> ClassList {
    ClassList::new(vec![
        Class::new("MTH", 132, 4, true, "Math", "Fall|Spring", "").unwrap(),
        Class::new("MTH", 133, 4, true, "Math", "Fall|Spring", "MTH 132").unwrap(),
        Class::new("CSE", 231, 4, false, "", "Fall|Spring", "").unwrap(),
    ])
}

#[test]
fn a_new_schedule_holds_every_course() {
    let list = calculus();
    let taken = vec![];
    let sched = Schedule::new(&list, &taken, FALL_2023);
    assert_eq!(sched.remaining(), &handles(&[0, 1, 2]));
    assert!(sched.semesters().is_empty());
    assert_eq!(sched.first_term(), FALL_2023);
    assert_eq!(sched.classes().len(), 3);
    assert_eq!(sched.is_valid(), Ok(()));
    assert!(sched.can_advance());
    assert_eq!(sched.next_term(), FALL_2023);
}

#[test]
fn first_generation_of_the_calculus_plan() {
    let list = calculus();
    let taken = vec![];
    let config = config(8, 16, &[]);
    let sched = Schedule::new(&list, &taken, config.starting_term);

    // every pair, then all three; each within the credit bounds
    let possible = sched.generate_possible(&config);
    assert_eq!(
        possible,
        vec![
            Ok(semester(&[0, 1], FALL_2023)),
            Ok(semester(&[0, 2], FALL_2023)),
            Ok(semester(&[1, 2], FALL_2023)),
            Ok(semester(&[0, 1, 2], FALL_2023)),
        ]
    );

    // MTH 133 cannot be taken before MTH 132 is completed
    let mut children = vec![];
    let mut errors = vec![];
    for candidate in possible {
        match sched.child(candidate.unwrap()) {
            Ok(child) => children.push(child),
            Err(e) => errors.push(e),
        }
    }
    assert_eq!(children.len(), 1);
    assert_eq!(children[0].semesters(), &vec![semester(&[0, 2], FALL_2023)]);
    assert_eq!(children[0].remaining(), &handles(&[1]));
    assert_eq!(
        errors,
        vec![
            ScheduleError::RequisitesUnmet,
            ScheduleError::RequisitesUnmet,
            ScheduleError::RequisitesUnmet
        ]
    );
}

#[test]
fn second_generation_of_the_calculus_plan() {
    let list = calculus();
    let taken = vec![];
    let config = config(8, 16, &[]);
    let first = Schedule::new(&list, &taken, config.starting_term)
        .child(semester(&[0, 2], FALL_2023))
        .unwrap();
    assert_eq!(first.next_term(), SPRING_2024);

    // MTH 132 is committed in an earlier semester now: MTH 133 may follow
    let second = first.child(semester(&[1], SPRING_2024)).unwrap();
    assert_eq!(
        second.semesters(),
        &vec![semester(&[0, 2], FALL_2023), semester(&[1], SPRING_2024)]
    );
    assert!(second.remaining().is_empty());
    assert_eq!(second.is_valid(), Ok(()));

    // the generator offers it for spring, with too few credits for the bounds
    assert_eq!(
        first.generate_possible(&config),
        vec![Err(ScheduleError::TooFewCredits)]
    );
    // and accepts it once the minimum allows four credits
    let relaxed = self::config(4, 16, &[]);
    assert_eq!(
        first.generate_possible(&relaxed),
        vec![Ok(semester(&[1], SPRING_2024))]
    );
}

#[test]
fn stepping_a_frontier() {
    let list = calculus();
    let taken = vec![];
    let config = config(8, 16, &[]);
    let start = Schedule::new(&list, &taken, config.starting_term);
    let results = step_schedules(vec![start], &config);
    assert_eq!(results.len(), 4);
    let (schedules, errors) = split_result_vec(results);
    assert_eq!(schedules.len(), 1);
    assert_eq!(schedules[0].semesters(), &vec![semester(&[0, 2], FALL_2023)]);
    assert_eq!(errors.len(), 3);
    assert!(errors.iter().all(|e| *e == ScheduleError::RequisitesUnmet));

    let results = step_schedules(schedules, &config);
    let (schedules, errors) = split_result_vec(results);
    assert!(schedules.is_empty());
    assert_eq!(errors, vec![ScheduleError::TooFewCredits]);

    assert!(step_schedules(vec![], &config).is_empty());
}

#[test]
fn stepping_keeps_the_order_of_the_frontier() {
    let list = calculus();
    let taken = vec!["MTH 132".to_string()];
    let config = config(4, 4, &[]);
    let start = Schedule::new(&list, &taken, config.starting_term);
    let (first, errors) = split_result_vec(step_schedules(vec![start], &config));
    // single courses only: all three pass, since MTH 132 counts as taken
    assert!(errors.is_empty());
    assert_eq!(first.len(), 3);
    assert_eq!(first[0].semesters(), &vec![semester(&[0], FALL_2023)]);
    assert_eq!(first[1].semesters(), &vec![semester(&[1], FALL_2023)]);
    assert_eq!(first[2].semesters(), &vec![semester(&[2], FALL_2023)]);
    let (second, errors) = split_result_vec(step_schedules(first, &config));
    assert!(errors.is_empty());
    let committed: Vec<Vec<Vec<ClassIdx>>> = second
        .iter()
        .map(|s| s.semesters().iter().map(|sem| sem.0.clone()).collect())
        .collect();
    assert_eq!(
        committed,
        vec![
            vec![handles(&[0]), handles(&[1])],
            vec![handles(&[0]), handles(&[2])],
            vec![handles(&[1]), handles(&[0])],
            vec![handles(&[1]), handles(&[2])],
            vec![handles(&[2]), handles(&[0])],
            vec![handles(&[2]), handles(&[1])],
        ]
    );
    assert!(second.iter().all(|s| s.semesters()[1].1 == SPRING_2024));
}

#[test]
fn splitting_results() {
    let results: Vec<Result<u8, &str>> = vec![Ok(1), Err("a"), Ok(2), Err("b"), Err("c")];
    assert_eq!(split_result_vec(results), (vec![1, 2], vec!["a", "b", "c"]));
    let none: Vec<Result<u8, &str>> = vec![];
    assert_eq!(split_result_vec(none), (vec![], vec![]));
}

fn sized(credits: &[u8]) -> ClassList {
    ClassList::new(
        credits
            .iter()
            .enumerate()
            .map(|(i, &c)| Class::new("CSE", i as u16, c, false, "", "Fall", "").unwrap())
            .collect(),
    )
}

#[test]
fn candidate_sizes_follow_the_credit_bounds() {
    // credits 3, 4, 4, 5 with bounds 7 to 9: two largest reach the minimum,
    // three smallest reach the maximum
    let list = sized(&[3, 4, 4, 5]);
    let taken = vec![];
    let config = config(7, 9, &[]);
    let sched = Schedule::new(&list, &taken, FALL_2023);
    assert_eq!(
        sched.generate_possible(&config),
        vec![
            Ok(semester(&[0, 1], FALL_2023)),
            Ok(semester(&[0, 2], FALL_2023)),
            Ok(semester(&[0, 3], FALL_2023)),
            Ok(semester(&[1, 2], FALL_2023)),
            Ok(semester(&[1, 3], FALL_2023)),
            Ok(semester(&[2, 3], FALL_2023)),
            Err(ScheduleError::TooManyCredits),
            Err(ScheduleError::TooManyCredits),
            Err(ScheduleError::TooManyCredits),
            Err(ScheduleError::TooManyCredits),
        ]
    );
}

#[test]
fn the_sizes_only_prune() {
    // credits 1, 1, 10 with bounds 10 to 10: the largest alone reaches the
    // minimum, so size 1 is tried, and two of its three selections fall short
    let list = sized(&[1, 1, 10]);
    let taken = vec![];
    let config = config(10, 10, &[]);
    let sched = Schedule::new(&list, &taken, FALL_2023);
    assert_eq!(
        sched.generate_possible(&config),
        vec![
            Err(ScheduleError::TooFewCredits),
            Err(ScheduleError::TooFewCredits),
            Ok(semester(&[2], FALL_2023)),
            Err(ScheduleError::TooFewCredits),
            Err(ScheduleError::TooManyCredits),
            Err(ScheduleError::TooManyCredits),
        ]
    );
}

#[test]
fn all_remaining_courses_are_one_more_candidate() {
    let list = sized(&[4, 4]);
    let taken = vec![];
    let sched = Schedule::new(&list, &taken, FALL_2023);
    // sizes 1 to 1, then both courses
    assert_eq!(
        sched.generate_possible(&config(4, 8, &[])),
        vec![
            Ok(semester(&[0], FALL_2023)),
            Ok(semester(&[1], FALL_2023)),
            Ok(semester(&[0, 1], FALL_2023)),
        ]
    );
    // both courses exceed the maximum: not a candidate
    assert_eq!(
        sched.generate_possible(&config(4, 7, &[])),
        vec![Ok(semester(&[0], FALL_2023)), Ok(semester(&[1], FALL_2023))]
    );
}

#[test]
fn one_remaining_course() {
    let list = sized(&[4]);
    let taken = vec![];
    let sched = Schedule::new(&list, &taken, FALL_2023);
    assert_eq!(
        sched.generate_possible(&config(1, 8, &[])),
        vec![Ok(semester(&[0], FALL_2023))]
    );
    assert_eq!(
        sched.generate_possible(&config(5, 8, &[])),
        vec![Err(ScheduleError::TooFewCredits)]
    );
    assert!(sched.generate_possible(&config(1, 3, &[])).is_empty());
}

#[test]
fn nothing_remaining() {
    let list = sized(&[]);
    let taken = vec![];
    let sched = Schedule::new(&list, &taken, FALL_2023);
    assert_eq!(
        sched.generate_possible(&config(1, 8, &[])),
        vec![Err(ScheduleError::TooFewCredits)]
    );
    assert_eq!(
        sched.generate_possible(&config(0, 8, &[])),
        vec![Ok(semester(&[], FALL_2023))]
    );
}

#[test]
fn candidates_are_judged_for_the_next_term() {
    let list = ClassList::new(vec![
        Class::new("CSE", 1, 4, false, "", "Fall", "").unwrap(),
        Class::new("CSE", 2, 4, false, "", "Spring", "").unwrap(),
    ]);
    let taken = vec![];
    let config = config(4, 4, &[]);
    let sched = Schedule::new(&list, &taken, FALL_2023);
    assert_eq!(
        sched.generate_possible(&config),
        vec![
            Ok(semester(&[0], FALL_2023)),
            Err(ScheduleError::NotAvailable("Fall 2023".to_string())),
        ]
    );
    let next = sched.child(semester(&[0], FALL_2023)).unwrap();
    assert_eq!(
        next.generate_possible(&config),
        vec![Ok(semester(&[1], SPRING_2024))]
    );
    let wrong = sched.child(semester(&[1], FALL_2023)).unwrap();
    assert_eq!(
        wrong.generate_possible(&config),
        vec![Err(ScheduleError::NotAvailable("Spring 2024".to_string()))]
    );
}

#[test]
fn large_credits_do_not_overflow() {
    let list = sized(&[255, 255, 255]);
    let taken = vec![];
    let sched = Schedule::new(&list, &taken, FALL_2023);
    assert_eq!(
        sched.generate_possible(&config(255, 255, &[])),
        vec![
            Ok(semester(&[0], FALL_2023)),
            Ok(semester(&[1], FALL_2023)),
            Ok(semester(&[2], FALL_2023)),
        ]
    );
    let all = sched.child(semester(&[0, 1, 2], FALL_2023)).unwrap();
    assert_eq!(all.total_credits(), 765);
}

/// CSE 220, and CSE 300 which wants CSE 220 before or in the same term.
fn with_corequisite() -> ClassList {
    ClassList::new(vec![
        Class::new("CSE", 220, 3, false, "", "Fall|Spring", "").unwrap(),
        Class::new("CSE", 300, 3, false, "", "Fall|Spring", "CSE 220 or concurrently").unwrap(),
    ])
}

#[test]
fn corequisite_in_the_same_semester() {
    let list = with_corequisite();
    let taken = vec![];
    let sched = Schedule::new(&list, &taken, FALL_2023);
    assert!(sched.child(semester(&[0, 1], FALL_2023)).is_ok());
    assert!(sched.child(semester(&[1, 0], FALL_2023)).is_ok());
}

#[test]
fn corequisite_taken_before_the_plan() {
    let list = with_corequisite();
    let taken = vec!["CSE 220".to_string()];
    let sched = Schedule::new(&list, &taken, FALL_2023);
    assert!(sched.child(semester(&[1], FALL_2023)).is_ok());
}

#[test]
fn corequisite_in_an_earlier_semester() {
    let list = with_corequisite();
    let taken = vec![];
    let sched = Schedule::new(&list, &taken, FALL_2023);
    let first = sched.child(semester(&[0], FALL_2023)).unwrap();
    assert!(first.child(semester(&[1], SPRING_2024)).is_ok());
}

#[test]
fn corequisite_only_in_a_later_semester() {
    let list = with_corequisite();
    let taken = vec![];
    let sched = Schedule::new(&list, &taken, FALL_2023);
    // CSE 220 would only follow: the requiring course cannot be attached
    assert_eq!(
        sched.child(semester(&[1], FALL_2023)).err(),
        Some(ScheduleError::RequisitesUnmet)
    );
    // a taken course under another name does not help
    let taken = vec!["CSE220".to_string()];
    let sched = Schedule::new(&list, &taken, FALL_2023);
    assert_eq!(
        sched.child(semester(&[1], FALL_2023)).err(),
        Some(ScheduleError::RequisitesUnmet)
    );
}

#[test]
fn prerequisite_in_the_same_semester_does_not_count() {
    let list = calculus();
    let taken = vec![];
    let sched = Schedule::new(&list, &taken, FALL_2023);
    assert_eq!(
        sched.child(semester(&[0, 1], FALL_2023)).err(),
        Some(ScheduleError::RequisitesUnmet)
    );
    let taken = vec!["MTH 132".to_string()];
    let sched = Schedule::new(&list, &taken, FALL_2023);
    assert!(sched.child(semester(&[1], FALL_2023)).is_ok());
}

#[test]
fn what_a_schedule_knows() {
    let list = with_corequisite();
    let taken = vec!["MTH 132".to_string()];
    let sched = Schedule::new(&list, &taken, FALL_2023);
    assert!(sched.has_prerequisite("MTH 132"));
    assert!(sched.has_corequisite("MTH 132"));
    assert!(!sched.has_prerequisite("CSE 220"));
    assert!(!sched.has_corequisite("CSE 220"));

    let one = sched.child(semester(&[0], FALL_2023)).unwrap();
    // the last semester is concurrent, not completed
    assert!(!one.has_prerequisite("CSE 220"));
    assert!(one.has_corequisite("CSE 220"));
    assert!(one.has_prerequisite("MTH 132"));

    let two = one.child(semester(&[1], SPRING_2024)).unwrap();
    assert!(two.has_prerequisite("CSE 220"));
    assert!(!two.has_prerequisite("CSE 300"));
    assert!(two.has_corequisite("CSE 300"));
    assert!(!two.has_corequisite("CSE 301"));

    // the view from each semester
    assert!(!two.history(0).has_prerequisite("CSE 220"));
    assert!(two.history(1).has_prerequisite("CSE 220"));
    assert!(!two.history(1).has_prerequisite("CSE 300"));
    assert!(two.history(2).has_prerequisite("CSE 300"));
    assert!(two.history(0).has_corequisite("CSE 300"));
    assert!(two.history(0).has_prerequisite("MTH 132"));
}

#[test]
fn attached_courses_leave_the_remaining_ones() {
    let list = calculus();
    let taken = vec![];
    let sched = Schedule::new(&list, &taken, FALL_2023);
    let child = sched.child(semester(&[2], FALL_2023)).unwrap();
    assert_eq!(child.remaining(), &handles(&[0, 1]));
    // the parent is untouched
    assert_eq!(sched.remaining(), &handles(&[0, 1, 2]));
    assert!(sched.semesters().is_empty());
    let grandchild = child.child(semester(&[0], SPRING_2024)).unwrap();
    assert_eq!(grandchild.remaining(), &handles(&[1]));
    for schedule in [&sched, &child, &grandchild] {
        for semester in schedule.semesters() {
            for course in &semester.0 {
                assert!(!schedule.remaining().contains(course));
            }
        }
    }
    // attaching a course that does not remain changes nothing else
    let again = grandchild.child(semester(&[0], FALL_2023)).unwrap();
    assert_eq!(again.remaining(), &handles(&[1]));
    assert_eq!(again.semesters().len(), 3);
}

#[test]
fn credits_of_the_committed_courses() {
    let list = calculus();
    let taken = vec![];
    let sched = Schedule::new(&list, &taken, FALL_2023);
    assert_eq!(sched.total_credits(), 0);
    let one = sched.child(semester(&[0, 2], FALL_2023)).unwrap();
    assert_eq!(one.total_credits(), 8);
    let two = one.child(semester(&[1], SPRING_2024)).unwrap();
    assert_eq!(two.total_credits(), 12);
}

#[test]
fn four_math_credits_do_not_meet_eight() {
    let list = calculus();
    let taken = vec!["MTH 132".to_string()];
    let config = config(4, 16, &[("Math", 8)]);
    let sched = Schedule::new(&list, &taken, FALL_2023);
    // the required courses are committed one after the other
    let one = sched.child(semester(&[0], FALL_2023)).unwrap();
    assert!(!one.meets_group_credits(&config));
    assert_eq!(one.is_complete(&config), Err(ScheduleError::RequirementsUnmet));
    // with no course required, the group is what falls short
    let electives = ClassList::new(vec![
        Class::new("MTH", 132, 4, false, "Math", "Fall|Spring", "").unwrap(),
        Class::new("MTH", 133, 4, false, "Math", "Fall|Spring", "").unwrap(),
        Class::new("CSE", 231, 4, false, "", "Fall|Spring", "").unwrap(),
    ]);
    let none = vec![];
    let sched = Schedule::new(&electives, &none, FALL_2023);
    let four = sched.child(semester(&[0, 2], FALL_2023)).unwrap();
    assert_eq!(four.is_complete(&config), Err(ScheduleError::GroupsUnmet));
    assert_eq!(
        four.completeness_display(&config),
        "No, group credit requirement unmet"
    );
    let eight = four.child(semester(&[1], SPRING_2024)).unwrap();
    assert!(eight.meets_group_credits(&config));
    assert_eq!(eight.is_complete(&config), Ok(()));
    assert_eq!(eight.completeness_display(&config), "Yes");
}

#[test]
fn required_courses_are_reported_first() {
    let list = calculus();
    let taken = vec![];
    let config = config(4, 16, &[("Math", 8)]);
    let sched = Schedule::new(&list, &taken, FALL_2023);
    assert_eq!(sched.is_complete(&config), Err(ScheduleError::RequirementsUnmet));
    assert_eq!(sched.completeness_display(&config), "No, requirements unmet");
    let all = sched
        .child(semester(&[0, 2], FALL_2023))
        .unwrap()
        .child(semester(&[1], SPRING_2024))
        .unwrap();
    assert_eq!(all.is_complete(&config), Ok(()));
    // CSE 231 is not required: it may remain
    let math = sched
        .child(semester(&[0], FALL_2023))
        .unwrap()
        .child(semester(&[1], SPRING_2024))
        .unwrap();
    assert_eq!(math.remaining(), &handles(&[2]));
    assert_eq!(math.is_complete(&config), Ok(()));
}

#[test]
fn a_course_counts_toward_each_of_its_groups() {
    let list = ClassList::new(vec![
        Class::new("MTH", 1, 4, false, "Math|Science", "Fall", "").unwrap(),
        Class::new("PHY", 2, 3, false, "Science", "Fall", "").unwrap(),
        Class::new("ART", 3, 200, false, "Arts", "Fall", "").unwrap(),
        Class::new("ART", 4, 200, false, "Arts", "Fall", "").unwrap(),
    ]);
    let taken = vec![];
    let sched = Schedule::new(&list, &taken, FALL_2023)
        .child(semester(&[0, 1, 2, 3], FALL_2023))
        .unwrap();
    assert!(sched.meets_group_credits(&config(0, 0, &[])));
    assert!(sched.meets_group_credits(&config(0, 0, &[("Math", 4), ("Science", 7)])));
    assert!(!sched.meets_group_credits(&config(0, 0, &[("Math", 5), ("Science", 7)])));
    assert!(!sched.meets_group_credits(&config(0, 0, &[("Math", 4), ("Science", 8)])));
    assert!(sched.meets_group_credits(&config(0, 0, &[("Arts", 255)])));
    assert!(sched.meets_group_credits(&config(0, 0, &[("History", 0)])));
    assert!(!sched.meets_group_credits(&config(0, 0, &[("History", 1)])));
}

#[test]
fn searching_for_two_terms() {
    let list = calculus();
    let taken = vec![];
    let mut config = config(4, 8, &[]);
    config.semesters = 2;
    let start = Schedule::new(&list, &taken, FALL_2023);
    let (found, errors) = search(start, &config);
    let committed: Vec<Vec<Vec<ClassIdx>>> = found
        .iter()
        .map(|s| s.semesters().iter().map(|sem| sem.0.clone()).collect())
        .collect();
    // first term: MTH 132, CSE 231, or both; MTH 133 has to wait
    assert_eq!(
        committed,
        vec![
            vec![handles(&[0]), handles(&[1])],
            vec![handles(&[0]), handles(&[2])],
            vec![handles(&[0]), handles(&[1, 2])],
            vec![handles(&[2]), handles(&[0])],
            vec![handles(&[0, 2]), handles(&[1])],
        ]
    );
    assert!(found.iter().all(|s| s.semesters()[0].1 == FALL_2023));
    assert!(found.iter().all(|s| s.semesters()[1].1 == SPRING_2024));
    assert_eq!(
        errors,
        vec![
            // first term: MTH 133 alone, with MTH 132, with CSE 231; all three
            // courses together exceed the maximum and are not tried
            ScheduleError::RequisitesUnmet,
            ScheduleError::RequisitesUnmet,
            ScheduleError::RequisitesUnmet,
            // after CSE 231: MTH 133 alone, MTH 132 with MTH 133
            ScheduleError::RequisitesUnmet,
            ScheduleError::RequisitesUnmet,
        ]
    );
}

#[test]
fn searching_for_no_term() {
    let list = calculus();
    let taken = vec![];
    let mut config = config(4, 8, &[]);
    config.semesters = 0;
    let start = Schedule::new(&list, &taken, FALL_2023);
    let (found, errors) = search(start, &config);
    assert_eq!(found.len(), 1);
    assert!(found[0].semesters().is_empty());
    assert!(errors.is_empty());
}

#[test]
fn how_far_the_calendar_reaches() {
    assert!(has_successors(FALL_2023, 0));
    assert!(has_successors(FALL_2023, 255));
    assert!(has_successors(Term::new(TermSeason::Summer, 2023), 0));
    assert!(!has_successors(Term::new(TermSeason::Summer, 2023), 1));
    let late = Term::new(TermSeason::Spring, u16::MAX);
    assert!(has_successors(late, 1));
    assert!(!has_successors(late, 2));
    assert!(has_successors(Term::new(TermSeason::Fall, u16::MAX - 1), 2));
    assert!(!has_successors(Term::new(TermSeason::Fall, u16::MAX - 1), 3));
}

/// The selections of `size` of the numbers below `count`, smallest first.
fn subsets(count: usize, size: usize) -> Vec<Vec<usize>> {
    fn extend(from: usize, count: usize, size: usize, so_far: &mut Vec<usize>, out: &mut Vec<Vec<usize>>) {
        if so_far.len() == size {
            out.push(so_far.clone());
            return;
        }
        for next in from..count {
            so_far.push(next);
            extend(next + 1, count, size, so_far, out);
            so_far.pop();
        }
    }
    let mut out = vec![];
    extend(0, count, size, &mut vec![], &mut out);
    out
}

#[test]
fn every_selection_of_a_size_is_offered() {
    for count in 2..=7usize {
        let list = sized(&vec![1; count]);
        let taken = vec![];
        let sched = Schedule::new(&list, &taken, FALL_2023);
        for size in 1..count {
            // with one credit a course, exactly `size` courses meet the bounds
            let config = config(size as u8, size as u8, &[]);
            let expected: Vec<Result<Semester, ScheduleError>> = subsets(count, size)
                .iter()
                .map(|positions| Ok(semester(positions, FALL_2023)))
                .collect();
            assert_eq!(sched.generate_possible(&config), expected);
        }
    }
}

#[test]
fn selections_are_made_of_what_remains() {
    let list = ClassList::new(
        (0..4)
            .map(|i| Class::new("CSE", i, 1, false, "", "Fall|Spring", "").unwrap())
            .collect(),
    );
    let taken = vec![];
    let sched = Schedule::new(&list, &taken, FALL_2023)
        .child(semester(&[2], FALL_2023))
        .unwrap();
    assert_eq!(sched.remaining(), &handles(&[0, 1, 3]));
    assert_eq!(
        sched.generate_possible(&config(2, 2, &[])),
        vec![
            Ok(semester(&[0, 1], SPRING_2024)),
            Ok(semester(&[0, 3], SPRING_2024)),
            Ok(semester(&[1, 3], SPRING_2024)),
        ]
    );
}
