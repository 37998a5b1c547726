use course_scheduler::class::{Class, ClassIdx, ClassList};
use course_scheduler::requirements::parser::Production;
use course_scheduler::requirements::RequesiteRegistry;
use course_scheduler::term::{Term, TermSeason};

fn course(subject: &str, number: u16, credits: u8, groups: &str, semesters: &str, requisites: &str) -> Class {
    Class::new(subject, number, credits, false, groups, semesters, requisites).unwrap()
}

#[test]
fn name_is_subject_and_number() {
    assert_eq!(course("CSE", 231, 4, "", "Fall", "").name(), "CSE 231");
    assert_eq!(course("LB", 7, 1, "", "Fall", "").name(), "LB 7");
    assert_eq!(course("MTH", 0, 1, "", "Fall", "").name(), "MTH 0");
}

#[test]
fn credits_and_required_are_kept() {
    let c = Class::new("CSE", 231, 4, true, "", "Fall", "").unwrap();
    assert_eq!(c.credits(), 4);
    assert!(c.required());
    let d = Class::new("CSE", 232, 255, false, "", "Fall", "").unwrap();
    assert_eq!(d.credits(), 255);
    assert!(!d.required());
}

#[test]
fn a_course_with_bad_requisites_is_refused() {
    let e = Class::new("CSE", 232, 4, true, "", "Fall", "(CSE 231").unwrap_err();
    assert_eq!(e.production, Production::Parenthesis);
    assert_eq!(e.position, 8);
    let e = Class::new("CSE", 232, 4, true, "", "Fall", "cse 231").unwrap_err();
    assert_eq!(e.production, Production::Primary);
}

#[test]
fn groups_are_split_at_bars() {
    assert_eq!(course("CSE", 231, 4, "", "Fall", "").groups(), Vec::<&str>::new());
    assert_eq!(course("CSE", 231, 4, "Math", "Fall", "").groups(), vec!["Math"]);
    assert_eq!(
        course("CSE", 231, 4, "Math|Science", "Fall", "").groups(),
        vec!["Math", "Science"]
    );
    let c = course("CSE", 231, 4, "Math|Science", "Fall", "");
    assert!(c.in_group("Math"));
    assert!(c.in_group("Science"));
    assert!(!c.in_group("Mat"));
    assert!(!c.in_group(""));
    assert!(!course("CSE", 231, 4, "", "Fall", "").in_group(""));
}

#[test]
fn offered_where_a_pattern_matches() {
    let fall23 = Term::new(TermSeason::Fall, 2023);
    let spring24 = Term::new(TermSeason::Spring, 2024);
    let both = course("CSE", 231, 4, "", "Fall|Spring", "");
    assert!(both.offered(&fall23));
    assert!(both.offered(&spring24));
    let fall_only = course("CSE", 231, 4, "", "Fall", "");
    assert!(fall_only.offered(&fall23));
    assert!(!fall_only.offered(&spring24));
    let odd_falls = course("CSE", 231, 4, "", "FallOdd|SpringEven", "");
    assert!(odd_falls.offered(&fall23));
    assert!(odd_falls.offered(&spring24));
    assert!(!odd_falls.offered(&Term::new(TermSeason::Fall, 2024)));
    // an empty pattern cell means that the course is never offered
    let never = course("CSE", 231, 4, "", "", "");
    assert!(!never.offered(&fall23));
    assert!(!never.offered(&spring24));
}

#[test]
fn requisites_are_judged_against_a_registry() {
    let c = course("MTH", 133, 4, "", "Fall", "MTH 132");
    let nothing = RequesiteRegistry::default();
    assert!(!c.requisites_met(&nothing));
    let done = RequesiteRegistry::new(vec!["MTH 132".to_string()], vec![]);
    assert!(c.requisites_met(&done));
    let concurrent = RequesiteRegistry::new(vec![], vec!["MTH 132".to_string()]);
    assert!(!c.requisites_met(&concurrent));
    let free = course("MTH", 132, 4, "", "Fall", "");
    assert!(free.requisites_met(&nothing));
}

#[test]
fn catalog_hands_out_handles() {
    let list = ClassList::new(vec![
        course("MTH", 132, 4, "", "Fall", ""),
        course("MTH", 133, 4, "", "Fall", "MTH 132"),
    ]);
    assert_eq!(list.len(), 2);
    assert_eq!(list.all(), vec![ClassIdx(0), ClassIdx(1)]);
    assert_eq!(list.handle(0), Some(ClassIdx(0)));
    assert_eq!(list.handle(1), Some(ClassIdx(1)));
    assert_eq!(list.handle(2), None);
    assert!(list.has(ClassIdx(1)));
    assert!(!list.has(ClassIdx(2)));
    assert_eq!(list.get(ClassIdx(1)).name(), "MTH 133");
    assert_eq!(list.get(ClassIdx(0)).name(), "MTH 132");
    let empty = ClassList::new(vec![]);
    assert_eq!(empty.len(), 0);
    assert_eq!(empty.all(), Vec::<ClassIdx>::new());
    assert_eq!(empty.handle(0), None);
}

#[test]
fn subject_number_and_name() {
    let c = course("CSE", 231, 4, "Math", "Fall", "");
    assert_eq!(c.subject(), "CSE");
    assert_eq!(c.number(), 231);
    assert!(c.is_named(&"CSE 231".to_string()));
    assert!(!c.is_named(&"CSE231".to_string()));
    assert!(!c.is_named(&"CSE 23".to_string()));
    assert!(c.counts_toward(&"Math".to_string()));
    assert!(!c.counts_toward(&"Science".to_string()));
}
