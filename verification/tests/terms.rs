use course_scheduler::term::{Term, TermSeason};

#[test]
fn terms_alternate_between_fall_and_spring() {
    let start = Term::new(TermSeason::Fall, 2023);
    let first = start.next();
    assert_eq!(first, Term::new(TermSeason::Spring, 2024));
    let second = first.next();
    assert_eq!(second, Term::new(TermSeason::Fall, 2024));
    let third = second.next();
    assert_eq!(third, Term::new(TermSeason::Spring, 2025));
    assert_eq!(third.next(), Term::new(TermSeason::Fall, 2025));
}

#[test]
fn new_sets_both_fields() {
    let term = Term::new(TermSeason::Summer, 1999);
    assert_eq!(term.season, TermSeason::Summer);
    assert_eq!(term.year, 1999);
}

#[test]
fn two_terms_make_a_year() {
    let spring = Term::new(TermSeason::Spring, 2030);
    assert_eq!(spring.next().next(), Term::new(TermSeason::Spring, 2031));
    let fall = Term::new(TermSeason::Fall, 0);
    assert_eq!(fall.next().next(), Term::new(TermSeason::Fall, 1));
}

#[test]
fn which_terms_have_a_successor() {
    assert!(Term::new(TermSeason::Spring, 2023).can_advance());
    assert!(Term::new(TermSeason::Spring, u16::MAX).can_advance());
    assert!(Term::new(TermSeason::Fall, 2023).can_advance());
    assert!(Term::new(TermSeason::Fall, u16::MAX - 1).can_advance());
    assert!(!Term::new(TermSeason::Fall, u16::MAX).can_advance());
    assert!(!Term::new(TermSeason::Summer, 2023).can_advance());
    assert_eq!(
        Term::new(TermSeason::Spring, u16::MAX).next(),
        Term::new(TermSeason::Fall, u16::MAX)
    );
}

#[test]
fn a_season_name_matches_every_year() {
    let fall = Term::new(TermSeason::Fall, 2023);
    assert!(fall.matches("Fall"));
    assert!(!fall.matches("Spring"));
    assert!(!fall.matches("Summer"));
    assert!(!fall.matches(""));
    assert!(!fall.matches("fall"));
    assert!(!fall.matches("Fal"));
    assert!(!fall.matches("Fall "));
    assert!(Term::new(TermSeason::Spring, 2024).matches("Spring"));
    assert!(Term::new(TermSeason::Summer, 2024).matches("Summer"));
}

#[test]
fn parity_suffixes() {
    let odd = Term::new(TermSeason::Fall, 2023);
    let even = Term::new(TermSeason::Fall, 2024);
    assert!(odd.matches("FallOdd"));
    assert!(!odd.matches("FallEven"));
    assert!(even.matches("FallEven"));
    assert!(!even.matches("FallOdd"));
    assert!(odd.matches("Fall Odd"));
    assert!(even.matches("Fall of every Even"));
    assert!(!odd.matches("SpringOdd"));
    assert!(!even.matches("SpringEven"));
    assert!(!odd.matches("Odd"));
    assert!(!even.matches("Even"));
    assert!(!odd.matches("FallOdds"));
    // where both words are there, the one at the end decides
    assert!(odd.matches("FallEvenOdd"));
    assert!(!even.matches("FallEvenOdd"));
    assert!(even.matches("FallOddEven"));
    assert!(!odd.matches("FallOddEven"));
}

#[test]
fn labels() {
    assert_eq!(Term::new(TermSeason::Fall, 2023).label(), "Fall 2023");
    assert_eq!(Term::new(TermSeason::Spring, 0).label(), "Spring 0");
    assert_eq!(Term::new(TermSeason::Summer, 65535).label(), "Summer 65535");
    assert_eq!(TermSeason::Fall.name(), "Fall");
    assert_eq!(TermSeason::Spring.name(), "Spring");
    assert_eq!(TermSeason::Summer.name(), "Summer");
}

#[test]
fn patterns_given_by_their_characters() {
    let odd = Term::new(TermSeason::Spring, 2023);
    let chars = |text: &str| text.chars().collect::<Vec<char>>();
    assert!(odd.matches_chars(&chars("Spring")));
    assert!(odd.matches_chars(&chars("SpringOdd")));
    assert!(!odd.matches_chars(&chars("SpringEven")));
    assert!(!odd.matches_chars(&chars("Fall")));
    assert!(!odd.matches_chars(&chars("")));
    assert!(!odd.matches_chars(&chars("Sprin")));
}
