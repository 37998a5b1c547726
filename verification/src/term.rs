//! Academic terms: a season and a year, their succession, and the patterns
//! by which a course says in which terms it is offered.

use crate::text::{at_word, ends_with, labelled, labelled_text, starts_with, to_chars};
use vstd::string::StrSliceExecFns;
use vstd::prelude::*;

verus! {

/// The part of the year in which a term falls.
#[derive(Debug, Copy, Clone, PartialEq, Eq, Structural)]
pub enum TermSeason {
    Spring,
    Summer,
    Fall,
}

/// One term of the academic calendar.
#[derive(Debug, Copy, Clone, PartialEq, Eq, Structural)]
pub struct Term {
    pub season: TermSeason,
    pub year: u16,
}

impl TermSeason {
    /// The season's name as it is written in term patterns and labels.
    pub open spec fn spec_name(self) -> Seq<char> {
        match self {
            TermSeason::Spring => "Spring"@,
            TermSeason::Summer => "Summer"@,
            TermSeason::Fall => "Fall"@,
        }
    }

    /// The season's name.
    pub fn name(&self) -> (r: &'static str)
        ensures
            r@ == self.spec_name(),
    {
        match self {
            TermSeason::Spring => "Spring",
            TermSeason::Summer => "Summer",
            TermSeason::Fall => "Fall",
        }
    }
}

impl Term {
    /// The term of the given season and year.
    pub fn new(season: TermSeason, year: u16) -> (r: Self)
        ensures
            r == (Term { season, year }),
    {
        Self { season, year }
    }

    /// A successor is defined for this term: the calendar alternates between
    /// spring and fall only, and years are 16-bit.
    pub open spec fn has_next(self) -> bool {
        match self.season {
            TermSeason::Spring => true,
            TermSeason::Summer => false,
            TermSeason::Fall => self.year < u16::MAX,
        }
    }

    /// The term after this one: fall of the same year after a spring, spring
    /// of the next year after a fall.
    pub open spec fn spec_next(self) -> Term {
        match self.season {
            TermSeason::Spring => Term { season: TermSeason::Fall, year: self.year },
            _ => Term { season: TermSeason::Spring, year: (self.year + 1) as u16 },
        }
    }

    /// Tells whether `next` may be called on this term.
    pub fn can_advance(&self) -> (b: bool)
        ensures
            b == self.has_next(),
    {
        match self.season {
            TermSeason::Spring => true,
            TermSeason::Summer => false,
            TermSeason::Fall => self.year < u16::MAX,
        }
    }

    /// The term after this one.
    pub fn next(&self) -> (r: Self)
        requires
            self.has_next(),
        ensures
            r == self.spec_next(),
    {
        match self.season {
            TermSeason::Spring => Term::new(TermSeason::Fall, self.year),
            _ => Term::new(TermSeason::Spring, self.year + 1),
        }
    }

    /// A term pattern admits this term when it is the season's name, or when
    /// it begins with the season's name and ends with a year parity, `Odd` or
    /// `Even`, that the year has. Where a pattern ends with `Odd`, that parity
    /// decides.
    pub open spec fn spec_matches(self, pattern: Seq<char>) -> bool {
        let name = self.season.spec_name();
        ||| pattern == name
        ||| starts_with(pattern, name) && if ends_with(pattern, "Odd"@) {
            self.year % 2 != 0
        } else {
            ends_with(pattern, "Even"@) && self.year % 2 == 0
        }
    }

    /// Tests this term against a term pattern.
    pub fn matches(&self, other: &str) -> (b: bool)
        ensures
            b == self.spec_matches(other@),
    {
        self.matches_chars(&to_chars(other))
    }

    /// Tests this term against a term pattern that is given by its
    /// characters.
    pub fn matches_chars(&self, pattern: &Vec<char>) -> (b: bool)
        ensures
            b == self.spec_matches(pattern@),
    {
        let name = self.season.name();
        if !at_word(pattern, 0, name) {
            assert(pattern@ != name@) by {
                assert(name@.subrange(0, name@.len() as int) =~= name@);
            }
            return false;
        }
        if pattern.len() == name.unicode_len() {
            assert(pattern@.subrange(0, name@.len() as int) =~= pattern@);
            return true;
        }
        proof {
            reveal_strlit("Odd");
            reveal_strlit("Even");
        }
        if pattern.len() >= 3 && at_word(pattern, pattern.len() - 3, "Odd") {
            return self.year % 2 != 0;
        }
        if pattern.len() >= 4 && at_word(pattern, pattern.len() - 4, "Even") {
            return self.year % 2 == 0;
        }
        false
    }

    /// The term as it is shown to the user: the season's name, a space and
    /// the year.
    pub open spec fn spec_label(self) -> Seq<char> {
        labelled(self.season.spec_name(), self.year as nat)
    }

    /// The term as it is shown to the user, such as `Fall 2023`.
    pub fn label(&self) -> (r: String)
        ensures
            r@ == self.spec_label(),
    {
        labelled_text(self.season.name(), self.year)
    }
}

/// The term `n` terms after `first`.
pub open spec fn nth_term(first: Term, n: nat) -> Term
    decreases n,
{
    if n == 0 {
        first
    } else {
        nth_term(first, (n - 1) as nat).spec_next()
    }
}

/// Each of the `n` terms from `first` on has a successor.
pub open spec fn terms_follow(first: Term, n: nat) -> bool
    decreases n,
{
    n == 0 || (terms_follow(first, (n - 1) as nat) && nth_term(first, (n - 1) as nat).has_next())
}

/// Where each of `n` terms has a successor, so has each of fewer.
pub proof fn lemma_terms_follow_fewer(first: Term, n: nat, k: nat)
    requires
        terms_follow(first, n),
        k < n,
    ensures
        terms_follow(first, k),
        nth_term(first, k).has_next(),
    decreases n,
{
    if k + 1 < n {
        lemma_terms_follow_fewer(first, (n - 1) as nat, k);
    }
}

/// Tells whether each of the `n` terms from `first` on has a successor.
pub fn has_successors(first: Term, n: u8) -> (b: bool)
    ensures
        b == terms_follow(first, n as nat),
{
    let mut term = first;
    let mut k: u8 = 0;
    while k < n
        invariant
            k <= n,
            term == nth_term(first, k as nat),
            terms_follow(first, k as nat),
        decreases n - k,
    {
        if !term.can_advance() {
            proof {
                if terms_follow(first, n as nat) {
                    lemma_terms_follow_fewer(first, n as nat, k as nat);
                }
            }
            return false;
        }
        term = term.next();
        k += 1;
    }
    true
}

/// Two terms make a year: the term after next has the same season, one year
/// later.
pub proof fn lemma_two_terms_make_a_year(t: Term)
    requires
        t.has_next(),
        t.spec_next().has_next(),
    ensures
        t.spec_next().spec_next() == (Term { season: t.season, year: (t.year + 1) as u16 }),
{
}

} // verus!
