//! The requisite grammar.
//!
//! ```text
//! class_name     := UPPER+ SPACE+ DIGIT+ UPPER?
//! requisite      := class_name requisite_type
//! requisite_type := "or concurrent" "ly"?  -> corequisite
//!                 | (nothing)              -> prerequisite
//! primary        := requisite | "(" expression ")"
//! or_expression  := primary ("or" primary)*
//! and_expression := or_expression ("and" or_expression)*
//! expression     := and_expression
//! toplevel       := expression | (blank) -> the empty conjunction
//! ```
//!
//! `and` is the outermost connective and `or` binds tighter, so
//! `A or B and C` reads `(A or B) and C`. White space (space, tab, carriage
//! return, line feed) may stand between tokens and must stand between the
//! department and the number of a class name.
//!
//! The grammar is stated as spec functions over the text's characters and a
//! position; `parse` is proved to compute exactly what they say. A rule
//! either parses and tells where it stopped, or does not match (and an
//! alternative may be tried), or aborts the whole parse: once a parenthesis
//! is open and its expression read, a missing `)` is final.

use crate::requirements::{
    all_satisfied,
    AndExpression,
    Expression,
    Formula,
    OrExpression,
    Primary,
    Requisite,
    RequisiteType,
};
use crate::text::{at_tag, decimal, decimal_text, has_tag, next_sep, to_chars};
use vstd::prelude::*;
use vstd::string::{StrSliceExecFns, StringExecFns};

verus! {

/// The classes of characters that the grammar scans in runs.
#[derive(Clone, Copy, PartialEq, Eq, Debug, Structural)]
pub enum CharClass {
    Space,
    Upper,
    Digit,
}

/// White space of the grammar: space, tab, carriage return, line feed.
pub open spec fn is_space(c: char) -> bool {
    c == ' ' || c == '\t' || c == '\r' || c == '\n'
}

/// An ASCII capital letter.
pub open spec fn spec_is_uppercase(c: char) -> bool {
    'A' <= c <= 'Z'
}

/// An ASCII decimal digit.
pub open spec fn spec_is_numeric(c: char) -> bool {
    '0' <= c <= '9'
}

/// An ASCII capital letter.
#[verifier::when_used_as_spec(spec_is_uppercase)]
pub fn is_uppercase(c: char) -> (b: bool)
    ensures
        b == spec_is_uppercase(c),
{
    'A' <= c && c <= 'Z'
}

/// An ASCII decimal digit.
#[verifier::when_used_as_spec(spec_is_numeric)]
pub fn is_numeric(c: char) -> (b: bool)
    ensures
        b == spec_is_numeric(c),
{
    '0' <= c && c <= '9'
}

impl CharClass {
    /// The character belongs to the class.
    pub open spec fn admits(self, c: char) -> bool {
        match self {
            CharClass::Space => is_space(c),
            CharClass::Upper => is_uppercase(c),
            CharClass::Digit => is_numeric(c),
        }
    }

    /// Tells whether the character belongs to the class.
    fn holds(&self, c: char) -> (b: bool)
        ensures
            b == self.admits(c),
    {
        match self {
            CharClass::Space => c == ' ' || c == '\t' || c == '\r' || c == '\n',
            CharClass::Upper => is_uppercase(c),
            CharClass::Digit => is_numeric(c),
        }
    }
}

/// Where the longest run of characters of `class` that starts at `pos` ends.
pub open spec fn run_end(s: Seq<char>, pos: int, class: CharClass) -> int
    decreases s.len() - pos,
{
    if 0 <= pos < s.len() && class.admits(s[pos]) {
        run_end(s, pos + 1, class)
    } else {
        pos
    }
}

/// A run ends within the text, holds characters of its class only, and is
/// not followed by another one.
pub proof fn lemma_run_end(s: Seq<char>, pos: int, class: CharClass)
    requires
        0 <= pos <= s.len(),
    ensures
        pos <= run_end(s, pos, class) <= s.len(),
        forall|k: int| pos <= k < run_end(s, pos, class) ==> class.admits(#[trigger] s[k]),
        run_end(s, pos, class) < s.len() ==> !class.admits(s[run_end(s, pos, class)]),
    decreases s.len() - pos,
{
    if pos < s.len() && class.admits(s[pos]) {
        lemma_run_end(s, pos + 1, class);
    }
}

/// The grammar rule that a failed parse was in when it failed.
#[derive(Clone, Copy, PartialEq, Eq, Debug, Structural)]
pub enum Production {
    /// A class name or an opening parenthesis was expected.
    Primary,
    /// A class name had begun; its white space or its number is missing.
    ClassName,
    /// The closing parenthesis is missing.
    Parenthesis,
    /// A complete expression is followed by something else.
    Toplevel,
}

impl Production {
    /// The rule's name in the grammar.
    pub open spec fn spec_name(self) -> Seq<char> {
        match self {
            Production::Primary => "primary"@,
            Production::ClassName => "class_name"@,
            Production::Parenthesis => "parenthesis"@,
            Production::Toplevel => "toplevel"@,
        }
    }

    /// What the rule wanted to read where it failed.
    pub open spec fn spec_expectation(self) -> Seq<char> {
        match self {
            Production::Primary => "a class name or `(`"@,
            Production::ClassName => "white space and a number"@,
            Production::Parenthesis => "`)`"@,
            Production::Toplevel => "the end of the text"@,
        }
    }

    /// The rule's name in the grammar.
    pub fn name(&self) -> (r: &'static str)
        ensures
            r@ == self.spec_name(),
    {
        match self {
            Production::Primary => "primary",
            Production::ClassName => "class_name",
            Production::Parenthesis => "parenthesis",
            Production::Toplevel => "toplevel",
        }
    }

    /// What the rule wanted to read where it failed.
    pub fn expectation(&self) -> (r: &'static str)
        ensures
            r@ == self.spec_expectation(),
    {
        match self {
            Production::Primary => "a class name or `(`",
            Production::ClassName => "white space and a number",
            Production::Parenthesis => "`)`",
            Production::Toplevel => "the end of the text",
        }
    }
}

/// What a grammar rule makes of the text at a position.
pub enum Outcome<T> {
    /// The rule matched, gave `value`, and the next rule continues at `end`.
    Parsed { value: T, end: int },
    /// The rule does not match here.
    Mismatch { at: int, expected: Production },
    /// The text cannot be parsed whatever alternative is tried.
    Abort { at: int, expected: Production },
}

/// A class name at `pos`, after optional white space: where its first and
/// after its last character stand, or where the first thing is missing.
pub open spec fn class_name(s: Seq<char>, pos: int) -> Result<(int, int), int> {
    let a = run_end(s, pos, CharClass::Space);
    let b = run_end(s, a, CharClass::Upper);
    let c = run_end(s, b, CharClass::Space);
    let d = run_end(s, c, CharClass::Digit);
    if b == a {
        Err(a)
    } else if c == b {
        Err(b)
    } else if d == c {
        Err(c)
    } else if 0 <= d < s.len() && is_uppercase(s[d]) {
        Ok((a, d + 1))
    } else {
        Ok((a, d))
    }
}

/// What follows a class name: the words that make it a corequisite, or
/// nothing. White space before them is consumed either way.
pub open spec fn requisite_type(s: Seq<char>, pos: int) -> (RequisiteType, int) {
    let a = run_end(s, pos, CharClass::Space);
    if has_tag(s, a, "or concurrent"@) {
        let b = a + "or concurrent"@.len();
        if has_tag(s, b, "ly"@) {
            (RequisiteType::Co, b + "ly"@.len())
        } else {
            (RequisiteType::Co, b)
        }
    } else {
        (RequisiteType::Pre, a)
    }
}

/// A connective at `pos`: optional white space, the word, optional white
/// space. Gives the position after all three, or nothing where the word is
/// not there.
pub open spec fn separator(s: Seq<char>, pos: int, word: Seq<char>) -> Option<int> {
    let a = run_end(s, pos, CharClass::Space);
    if has_tag(s, a, word) {
        Some(run_end(s, a + word.len(), CharClass::Space))
    } else {
        None
    }
}

/// A connective that is there ends within the text, after at least its
/// word.
pub proof fn lemma_separator(s: Seq<char>, pos: int, word: Seq<char>)
    requires
        0 <= pos <= s.len(),
    ensures
        separator(s, pos, word) matches Some(b) ==> pos + word.len() <= b <= s.len(),
{
    lemma_run_end(s, pos, CharClass::Space);
    let a = run_end(s, pos, CharClass::Space);
    if has_tag(s, a, word) {
        lemma_run_end(s, a + word.len(), CharClass::Space);
    }
}

/// A class name that is there is not empty and lies within the text; one
/// that is not there is missed within the text.
pub proof fn lemma_class_name(s: Seq<char>, pos: int)
    requires
        0 <= pos <= s.len(),
    ensures
        match class_name(s, pos) {
            Ok((a, e)) => pos <= a < e <= s.len(),
            Err(at) => pos <= at <= s.len(),
        },
{
    lemma_run_end(s, pos, CharClass::Space);
    let a = run_end(s, pos, CharClass::Space);
    lemma_run_end(s, a, CharClass::Upper);
    let b = run_end(s, a, CharClass::Upper);
    lemma_run_end(s, b, CharClass::Space);
    let c = run_end(s, b, CharClass::Space);
    lemma_run_end(s, c, CharClass::Digit);
}

/// What follows a class name ends within the text.
pub proof fn lemma_requisite_type(s: Seq<char>, pos: int)
    requires
        0 <= pos <= s.len(),
    ensures
        pos <= requisite_type(s, pos).1 <= s.len(),
{
    lemma_run_end(s, pos, CharClass::Space);
}

/// A requisite, or an expression in parentheses.
pub open spec fn primary(s: Seq<char>, pos: int) -> Outcome<Formula>
    decreases s.len() - pos, 0nat,
{
    match class_name(s, pos) {
        Ok((a, e)) => {
            let (typ, end) = requisite_type(s, e);
            Outcome::Parsed { value: Formula::Requisite { typ, name: s.subrange(a, e) }, end }
        },
        Err(at) => if 0 <= pos < s.len() && s[pos] == '(' {
            match expression(s, pos + 1) {
                Outcome::Parsed { value, end } => if 0 <= end < s.len() && s[end] == ')' {
                    Outcome::Parsed { value: Formula::Nested(value), end: end + 1 }
                } else {
                    Outcome::Abort { at: end, expected: Production::Parenthesis }
                },
                Outcome::Mismatch { at, expected } => Outcome::Mismatch { at, expected },
                Outcome::Abort { at, expected } => Outcome::Abort { at, expected },
            }
        } else if at == run_end(s, pos, CharClass::Space) {
            Outcome::Mismatch { at, expected: Production::Primary }
        } else {
            Outcome::Mismatch { at, expected: Production::ClassName }
        },
    }
}

/// The rest of a disjunction whose members so far are `acc`: as many times
/// `or` and a primary as the text gives. An `or` that no primary follows is
/// left unread.
///
/// The tests that a position lies after the one before it are always met
/// (`lemma_separator`, `lemma_rules_advance`); they stand here, and in the
/// three rules that follow, so that the definitions are seen to terminate.
pub open spec fn or_tail(s: Seq<char>, pos: int, acc: Seq<Formula>) -> Outcome<Seq<Formula>>
    decreases s.len() - pos, 1nat,
{
    match separator(s, pos, "or"@) {
        Some(b) if 0 <= pos < b <= s.len() => match primary(s, b) {
            Outcome::Parsed { value, end } => if pos < end <= s.len() {
                or_tail(s, end, acc.push(value))
            } else {
                Outcome::Parsed { value: acc.push(value), end }
            },
            Outcome::Mismatch { .. } => Outcome::Parsed { value: acc, end: pos },
            Outcome::Abort { at, expected } => Outcome::Abort { at, expected },
        },
        _ => Outcome::Parsed { value: acc, end: pos },
    }
}

/// One or more primaries with `or` between them.
pub open spec fn or_expression(s: Seq<char>, pos: int) -> Outcome<Seq<Formula>>
    decreases s.len() - pos, 2nat,
{
    match primary(s, pos) {
        Outcome::Parsed { value, end } => if pos <= end <= s.len() {
            or_tail(s, end, seq![value])
        } else {
            Outcome::Parsed { value: seq![value], end }
        },
        Outcome::Mismatch { at, expected } => Outcome::Mismatch { at, expected },
        Outcome::Abort { at, expected } => Outcome::Abort { at, expected },
    }
}

/// The rest of a conjunction whose members so far are `acc`.
pub open spec fn and_tail(s: Seq<char>, pos: int, acc: Seq<Seq<Formula>>) -> Outcome<
    Seq<Seq<Formula>>,
>
    decreases s.len() - pos, 3nat,
{
    match separator(s, pos, "and"@) {
        Some(b) if 0 <= pos < b <= s.len() => match or_expression(s, b) {
            Outcome::Parsed { value, end } => if pos < end <= s.len() {
                and_tail(s, end, acc.push(value))
            } else {
                Outcome::Parsed { value: acc.push(value), end }
            },
            Outcome::Mismatch { .. } => Outcome::Parsed { value: acc, end: pos },
            Outcome::Abort { at, expected } => Outcome::Abort { at, expected },
        },
        _ => Outcome::Parsed { value: acc, end: pos },
    }
}

/// One or more disjunctions with `and` between them.
pub open spec fn and_expression(s: Seq<char>, pos: int) -> Outcome<Seq<Seq<Formula>>>
    decreases s.len() - pos, 4nat,
{
    match or_expression(s, pos) {
        Outcome::Parsed { value, end } => if pos <= end <= s.len() {
            and_tail(s, end, seq![value])
        } else {
            Outcome::Parsed { value: seq![value], end }
        },
        Outcome::Mismatch { at, expected } => Outcome::Mismatch { at, expected },
        Outcome::Abort { at, expected } => Outcome::Abort { at, expected },
    }
}

/// A conjunction, after optional white space.
pub open spec fn expression(s: Seq<char>, pos: int) -> Outcome<Seq<Seq<Formula>>>
    decreases s.len() - pos, 5nat,
{
    if 0 <= pos <= s.len() {
        proof {
            lemma_run_end(s, pos, CharClass::Space);
        }
        and_expression(s, run_end(s, pos, CharClass::Space))
    } else {
        Outcome::Mismatch { at: pos, expected: Production::Primary }
    }
}

/// A whole requirement text: an expression and nothing but white space after
/// it, or a blank text, which is the empty conjunction. Otherwise the place
/// and the rule of the failure.
pub open spec fn toplevel(s: Seq<char>) -> Result<Seq<Seq<Formula>>, (int, Production)> {
    match expression(s, 0) {
        Outcome::Parsed { value, end } => {
            let stop = run_end(s, end, CharClass::Space);
            if stop == s.len() {
                Ok(value)
            } else {
                Err((stop, Production::Toplevel))
            }
        },
        Outcome::Mismatch { at, expected } => if run_end(s, 0, CharClass::Space) == s.len() {
            Ok(Seq::empty())
        } else {
            Err((at, expected))
        },
        Outcome::Abort { at, expected } => Err((at, expected)),
    }
}

/// The number of line feeds before position `at`.
pub open spec fn line_feeds(s: Seq<char>, at: int) -> nat
    decreases at,
{
    if at <= 0 || at > s.len() {
        0
    } else if s[at - 1] == '\n' {
        line_feeds(s, at - 1) + 1
    } else {
        line_feeds(s, at - 1)
    }
}

/// Where the line that holds position `at` begins.
pub open spec fn line_start(s: Seq<char>, at: int) -> int
    decreases at,
{
    if at <= 0 || at > s.len() {
        0
    } else if s[at - 1] == '\n' {
        at
    } else {
        line_start(s, at - 1)
    }
}

/// Why and where a requirement text could not be parsed. Lines and columns
/// count from 1, positions from 0, all in characters.
#[derive(Clone, Copy, PartialEq, Eq, Debug, Structural)]
pub struct ParseError {
    pub position: usize,
    pub line: usize,
    pub column: usize,
    pub production: Production,
}

impl ParseError {
    /// The diagnostic in words: the line and column, the rule that failed,
    /// and what it expected there.
    pub open spec fn spec_message(&self) -> Seq<char> {
        "line "@ + decimal(self.line as nat) + ", column "@ + decimal(self.column as nat) + ": in "@
            + self.production.spec_name() + ": expected "@ + self.production.spec_expectation()
    }

    /// The diagnostic in words, such as
    /// ``line 1, column 9: in parenthesis: expected `)` ``.
    pub fn message(&self) -> (r: String)
        ensures
            r@ == self.spec_message(),
    {
        let mut r = String::from_str("line ");
        r.append(decimal_text(self.line as u64).as_str());
        r.append(", column ");
        r.append(decimal_text(self.column as u64).as_str());
        r.append(": in ");
        r.append(self.production.name());
        r.append(": expected ");
        r.append(self.production.expectation());
        r
    }
}

/// Where the line that holds position `at` ends: at the next line feed, or
/// at the end of the text.
pub open spec fn line_end(s: Seq<char>, at: int) -> int {
    next_sep(s, '\n', at)
}

/// `n` spaces.
pub open spec fn blanks(n: nat) -> Seq<char> {
    Seq::new(n, |i: int| ' ')
}

/// The line of `s` that holds position `at`, and under it a caret that
/// points at the position. A position after the text counts as its end.
pub open spec fn spec_excerpt(s: Seq<char>, at: int) -> Seq<char> {
    let at = if at > s.len() {
        s.len() as int
    } else {
        at
    };
    s.subrange(line_start(s, at), line_end(s, at)) + seq!['\n'] + blanks(
        (at - line_start(s, at)) as nat,
    ) + seq!['^']
}

impl ParseError {
    /// Shows where in `text` the error is: the line that holds its position,
    /// and under it a caret that points at the position.
    pub fn excerpt(&self, text: &str) -> (r: String)
        ensures
            r@ == spec_excerpt(text@, self.position as int),
    {
        let chars = to_chars(text);
        let n: usize = chars.len();
        let at: usize = if self.position > n {
            n
        } else {
            self.position
        };
        let mut start: usize = at;
        while start > 0 && chars[start - 1] != '\n'
            invariant
                start <= at <= n,
                n == chars@.len(),
                line_start(chars@, at as int) == line_start(chars@, start as int),
            decreases start,
        {
            start -= 1;
        }
        let mut end: usize = at;
        while end < n && chars[end] != '\n'
            invariant
                at <= end <= n,
                n == chars@.len(),
                line_end(chars@, at as int) == next_sep(chars@, '\n', end as int),
            decreases n - end,
        {
            end += 1;
        }
        proof {
            reveal_strlit("\n");
            reveal_strlit(" ");
            reveal_strlit("^");
        }
        let mut r = String::from_str(text.substring_char(start, end));
        r.append("\n");
        let ghost line = chars@.subrange(start as int, end as int) + seq!['\n'];
        let mut i: usize = start;
        while i < at
            invariant
                start <= i <= at,
                r@ == line + blanks((i - start) as nat),
            decreases at - i,
        {
            r.append(" ");
            proof {
                reveal_strlit(" ");
            }
            i += 1;
        }
        r.append("^");
        r
    }
}

/// The error for a failure of `production` at position `at` of `s`.
pub open spec fn located(s: Seq<char>, at: int, production: Production) -> ParseError {
    ParseError {
        position: at as usize,
        line: spec_one_based(line_feeds(s, at) as usize),
        column: spec_one_based((at - line_start(s, at)) as usize),
        production,
    }
}

/// What parsing the text `s` gives.
pub open spec fn spec_parse(s: Seq<char>) -> Result<Seq<Seq<Formula>>, ParseError> {
    match toplevel(s) {
        Ok(value) => Ok(value),
        Err((at, production)) => Err(located(s, at, production)),
    }
}

/// Where `o` has parsed, it stopped after `from` and within the text.
pub open spec fn advances<T>(o: Outcome<T>, from: int, len: int) -> bool {
    o matches Outcome::Parsed { end, .. } ==> from < end <= len
}

/// Where `o` has parsed, it stopped at or after `from` and within the text.
pub open spec fn holds_ground<T>(o: Outcome<T>, from: int, len: int) -> bool {
    o matches Outcome::Parsed { end, .. } ==> from <= end <= len
}

/// A rule that matches consumes something and does not run past the end of
/// the text; the two list tails may match without consuming. The rules are
/// numbered as their definitions call each other: 0 for `primary`, 1 for
/// `or_tail`, up to 5 for `expression`.
pub proof fn lemma_rules_advance(s: Seq<char>, pos: int, rank: nat)
    requires
        0 <= pos <= s.len(),
        rank <= 5,
    ensures
        rank == 0 ==> advances(primary(s, pos), pos, s.len() as int),
        rank == 1 ==> forall|acc: Seq<Formula>|
            holds_ground(#[trigger] or_tail(s, pos, acc), pos, s.len() as int),
        rank == 2 ==> advances(or_expression(s, pos), pos, s.len() as int),
        rank == 3 ==> forall|acc: Seq<Seq<Formula>>|
            holds_ground(#[trigger] and_tail(s, pos, acc), pos, s.len() as int),
        rank == 4 ==> advances(and_expression(s, pos), pos, s.len() as int),
        rank == 5 ==> advances(expression(s, pos), pos, s.len() as int),
    decreases s.len() - pos, rank,
{
    if rank == 0 {
        lemma_class_name(s, pos);
        match class_name(s, pos) {
            Ok((_, e)) => {
                lemma_requisite_type(s, e);
            },
            Err(_) => {
                if pos < s.len() && s[pos] == '(' {
                    lemma_rules_advance(s, pos + 1, 5);
                }
            },
        }
    } else if rank == 1 {
        lemma_separator(s, pos, "or"@);
        assert forall|acc: Seq<Formula>|
            holds_ground(#[trigger] or_tail(s, pos, acc), pos, s.len() as int) by {
            match separator(s, pos, "or"@) {
                Some(b) if pos < b => {
                    lemma_rules_advance(s, b, 0);
                    match primary(s, b) {
                        Outcome::Parsed { value, end } => {
                            lemma_rules_advance(s, end, 1);
                            assert(or_tail(s, pos, acc) == or_tail(s, end, acc.push(value)));
                            assert(holds_ground(
                                or_tail(s, end, acc.push(value)),
                                end,
                                s.len() as int,
                            ));
                        },
                        _ => {},
                    }
                },
                _ => {},
            }
        }
    } else if rank == 2 {
        lemma_rules_advance(s, pos, 0);
        match primary(s, pos) {
            Outcome::Parsed { value, end } => {
                lemma_rules_advance(s, end, 1);
                assert(or_expression(s, pos) == or_tail(s, end, seq![value]));
                assert(holds_ground(or_tail(s, end, seq![value]), end, s.len() as int));
            },
            _ => {},
        }
    } else if rank == 3 {
        lemma_separator(s, pos, "and"@);
        assert forall|acc: Seq<Seq<Formula>>|
            holds_ground(#[trigger] and_tail(s, pos, acc), pos, s.len() as int) by {
            match separator(s, pos, "and"@) {
                Some(b) if pos < b => {
                    lemma_rules_advance(s, b, 2);
                    match or_expression(s, b) {
                        Outcome::Parsed { value, end } => {
                            lemma_rules_advance(s, end, 3);
                            assert(and_tail(s, pos, acc) == and_tail(s, end, acc.push(value)));
                            assert(holds_ground(
                                and_tail(s, end, acc.push(value)),
                                end,
                                s.len() as int,
                            ));
                        },
                        _ => {},
                    }
                },
                _ => {},
            }
        }
    } else if rank == 4 {
        lemma_rules_advance(s, pos, 2);
        match or_expression(s, pos) {
            Outcome::Parsed { value, end } => {
                lemma_rules_advance(s, end, 3);
                assert(and_expression(s, pos) == and_tail(s, end, seq![value]));
                assert(holds_ground(and_tail(s, end, seq![value]), end, s.len() as int));
            },
            _ => {},
        }
    } else {
        lemma_run_end(s, pos, CharClass::Space);
        lemma_rules_advance(s, run_end(s, pos, CharClass::Space), 4);
    }
}

/// A text of white space only parses to the empty conjunction, and the empty
/// conjunction holds whatever is known: a course without requirement text can
/// always be taken.
pub proof fn lemma_blank_is_vacuous(s: Seq<char>, pre: Set<Seq<char>>, co: Set<Seq<char>>)
    requires
        forall|i: int| 0 <= i < s.len() ==> is_space(#[trigger] s[i]),
    ensures
        spec_parse(s) == Ok::<Seq<Seq<Formula>>, ParseError>(Seq::empty()),
        all_satisfied(Seq::<Seq<Formula>>::empty(), pre, co),
{
    let len = s.len() as int;
    lemma_run_end(s, 0, CharClass::Space);
    assert(run_end(s, 0, CharClass::Space) == len);
    lemma_run_end(s, len, CharClass::Space);
    lemma_run_end(s, len, CharClass::Upper);
    assert(class_name(s, len) == Err::<(int, int), int>(len));
    assert(primary(s, len) == Outcome::<Formula>::Mismatch {
        at: len,
        expected: Production::Primary,
    });
    assert(or_expression(s, len) is Mismatch);
    assert(and_expression(s, len) is Mismatch);
    assert(expression(s, 0) is Mismatch);
}

/// Parsing is a function of the text: equal texts have equal results.
pub proof fn lemma_parse_deterministic(a: Seq<char>, b: Seq<char>)
    requires
        a == b,
    ensures
        spec_parse(a) == spec_parse(b),
{
}

/// What a rule of the executable parser returns: the counterpart of
/// [`Outcome`], with the parsed value in its executable form.
enum Step<T> {
    Parsed(T, usize),
    Mismatch(usize, Production),
    Abort(usize, Production),
}

/// The executable result `step` is what the grammar says, `outcome`.
spec fn agrees<T: View>(step: Step<T>, outcome: Outcome<T::V>) -> bool {
    match step {
        Step::Parsed(v, e) => outcome == (Outcome::Parsed { value: v@, end: e as int }),
        Step::Mismatch(a, p) => outcome == (Outcome::<T::V>::Mismatch {
            at: a as int,
            expected: p,
        }),
        Step::Abort(a, p) => outcome == (Outcome::<T::V>::Abort { at: a as int, expected: p }),
    }
}

/// Every position that `step` names lies between `from` and `len`.
spec fn bounded<T>(step: Step<T>, from: usize, len: nat) -> bool {
    match step {
        Step::Parsed(_, e) => from < e <= len,
        Step::Mismatch(a, _) => from <= a <= len,
        Step::Abort(a, _) => from <= a <= len,
    }
}

/// The forms of a list of primaries.
spec fn formulas(items: Seq<Primary>) -> Seq<Formula> {
    Seq::new(items.len(), |i: int| items[i]@)
}

/// The forms of a list of disjunctions.
spec fn disjunctions(items: Seq<OrExpression>) -> Seq<Seq<Formula>> {
    Seq::new(items.len(), |i: int| items[i]@)
}

/// A text under parse: its characters, and the grammar's words.
struct Scanner<'a> {
    text: &'a str,
    chars: Vec<char>,
    word_or: Vec<char>,
    word_and: Vec<char>,
    word_concurrent: Vec<char>,
    word_ly: Vec<char>,
}

impl<'a> Scanner<'a> {
    /// The characters are those of the text, and the words are the grammar's.
    spec fn wf(&self) -> bool {
        &&& self.chars@ == self.text@
        &&& self.word_or@ == "or"@
        &&& self.word_and@ == "and"@
        &&& self.word_concurrent@ == "or concurrent"@
        &&& self.word_ly@ == "ly"@
    }

    /// Prepares `text` for parsing.
    fn new(text: &'a str) -> (r: Self)
        ensures
            r.wf(),
            r.text@ == text@,
    {
        Scanner {
            text,
            chars: to_chars(text),
            word_or: to_chars("or"),
            word_and: to_chars("and"),
            word_concurrent: to_chars("or concurrent"),
            word_ly: to_chars("ly"),
        }
    }

    /// Where the run of characters of `class` from `pos` ends.
    fn scan(&self, pos: usize, class: CharClass) -> (end: usize)
        requires
            pos <= self.chars@.len(),
        ensures
            end == run_end(self.chars@, pos as int, class),
            pos <= end <= self.chars@.len(),
    {
        let mut i: usize = pos;
        while i < self.chars.len() && class.holds(self.chars[i])
            invariant
                pos <= i <= self.chars@.len(),
                run_end(self.chars@, pos as int, class) == run_end(self.chars@, i as int, class),
            decreases self.chars@.len() - i,
        {
            i += 1;
        }
        i
    }

    /// Reads a connective at `pos`.
    fn read_separator(&self, pos: usize, word: &Vec<char>) -> (r: Option<usize>)
        requires
            pos <= self.chars@.len(),
        ensures
            r.is_some() == separator(self.chars@, pos as int, word@).is_some(),
            r matches Some(b) ==> separator(self.chars@, pos as int, word@) == Some(b as int)
                && pos + word@.len() <= b <= self.chars@.len(),
    {
        let a = self.scan(pos, CharClass::Space);
        if at_tag(&self.chars, a, word) {
            assert(a + word@.len() <= self.chars.len());
            Some(self.scan(a + word.len(), CharClass::Space))
        } else {
            None
        }
    }

    /// Reads a class name at `pos`.
    fn read_class_name(&self, pos: usize) -> (r: Result<(usize, usize), usize>)
        requires
            pos <= self.chars@.len(),
        ensures
            match r {
                Ok((a, e)) => class_name(self.chars@, pos as int) == Ok::<(int, int), int>(
                    (a as int, e as int),
                ) && pos <= a < e <= self.chars@.len(),
                Err(at) => class_name(self.chars@, pos as int) == Err::<(int, int), int>(
                    at as int,
                ) && pos <= at <= self.chars@.len(),
            },
    {
        let a = self.scan(pos, CharClass::Space);
        let b = self.scan(a, CharClass::Upper);
        if b == a {
            return Err(a);
        }
        let c = self.scan(b, CharClass::Space);
        if c == b {
            return Err(b);
        }
        let d = self.scan(c, CharClass::Digit);
        if d == c {
            return Err(c);
        }
        if d < self.chars.len() && is_uppercase(self.chars[d]) {
            Ok((a, d + 1))
        } else {
            Ok((a, d))
        }
    }

    /// Reads what follows a class name.
    fn read_requisite_type(&self, pos: usize) -> (r: (RequisiteType, usize))
        requires
            self.wf(),
            pos <= self.chars@.len(),
        ensures
            requisite_type(self.chars@, pos as int) == (r.0, r.1 as int),
            pos <= r.1 <= self.chars@.len(),
    {
        let a = self.scan(pos, CharClass::Space);
        if at_tag(&self.chars, a, &self.word_concurrent) {
            assert(a + self.word_concurrent@.len() <= self.chars.len());
            let b = a + self.word_concurrent.len();
            if at_tag(&self.chars, b, &self.word_ly) {
                (RequisiteType::Co, b + self.word_ly.len())
            } else {
                (RequisiteType::Co, b)
            }
        } else {
            (RequisiteType::Pre, a)
        }
    }

    /// Reads a primary at `pos`.
    fn read_primary(&self, pos: usize) -> (r: Step<Primary>)
        requires
            self.wf(),
            pos <= self.chars@.len(),
        ensures
            agrees(r, primary(self.chars@, pos as int)),
            bounded(r, pos, self.chars@.len()),
        decreases self.chars@.len() - pos, 0nat,
    {
        match self.read_class_name(pos) {
            Ok((a, e)) => {
                let (typ, end) = self.read_requisite_type(e);
                let name = String::from_str(self.text.substring_char(a, e));
                Step::Parsed(Primary::Req(Requisite { typ, name }), end)
            },
            Err(at) => {
                if pos < self.chars.len() && self.chars[pos] == '(' {
                    match self.read_expression(pos + 1) {
                        Step::Parsed(inner, end) => {
                            proof {
                                lemma_rules_advance(self.chars@, pos + 1, 5);
                            }
                            if end < self.chars.len() && self.chars[end] == ')' {
                                Step::Parsed(Primary::Expr(inner), end + 1)
                            } else {
                                Step::Abort(end, Production::Parenthesis)
                            }
                        },
                        Step::Mismatch(at, expected) => Step::Mismatch(at, expected),
                        Step::Abort(at, expected) => Step::Abort(at, expected),
                    }
                } else if at == self.scan(pos, CharClass::Space) {
                    Step::Mismatch(at, Production::Primary)
                } else {
                    Step::Mismatch(at, Production::ClassName)
                }
            },
        }
    }

    /// Reads a disjunction at `pos`.
    fn read_or_expression(&self, pos: usize) -> (r: Step<OrExpression>)
        requires
            self.wf(),
            pos <= self.chars@.len(),
        ensures
            agrees(r, or_expression(self.chars@, pos as int)),
            bounded(r, pos, self.chars@.len()),
        decreases self.chars@.len() - pos, 2nat,
    {
        let ghost s = self.chars@;
        let mut items: Vec<Primary> = Vec::new();
        let mut at: usize;
        match self.read_primary(pos) {
            Step::Parsed(first, end) => {
                proof {
                    lemma_rules_advance(s, pos as int, 0);
                }
                items.push(first);
                at = end;
            },
            Step::Mismatch(at, expected) => {
                return Step::Mismatch(at, expected);
            },
            Step::Abort(at, expected) => {
                return Step::Abort(at, expected);
            },
        }
        assert(formulas(items@) =~= seq![items@[0]@]);
        loop
            invariant_except_break
                or_expression(s, pos as int) == or_tail(s, at as int, formulas(items@)),
            invariant
                self.wf(),
                s == self.chars@,
                pos < at <= s.len(),
            ensures
                or_expression(s, pos as int) == (Outcome::Parsed {
                    value: formulas(items@),
                    end: at as int,
                }),
            decreases s.len() - at,
        {
            let next = match self.read_separator(at, &self.word_or) {
                Some(b) => b,
                None => {
                    break ;
                },
            };
            proof {
                reveal_strlit("or");
            }
            match self.read_primary(next) {
                Step::Parsed(item, end) => {
                    proof {
                        lemma_rules_advance(s, next as int, 0);
                    }
                    let ghost before = formulas(items@);
                    items.push(item);
                    assert(formulas(items@) =~= before.push(item@));
                    at = end;
                },
                Step::Mismatch(_, _) => {
                    break ;
                },
                Step::Abort(at, expected) => {
                    return Step::Abort(at, expected);
                },
            }
        }
        let ghost forms = formulas(items@);
        let r = OrExpression(items);
        assert(r@ =~= forms);
        Step::Parsed(r, at)
    }

    /// Reads a conjunction at `pos`.
    fn read_and_expression(&self, pos: usize) -> (r: Step<AndExpression>)
        requires
            self.wf(),
            pos <= self.chars@.len(),
        ensures
            agrees(r, and_expression(self.chars@, pos as int)),
            bounded(r, pos, self.chars@.len()),
        decreases self.chars@.len() - pos, 4nat,
    {
        let ghost s = self.chars@;
        let mut items: Vec<OrExpression> = Vec::new();
        let mut at: usize;
        match self.read_or_expression(pos) {
            Step::Parsed(first, end) => {
                proof {
                    lemma_rules_advance(s, pos as int, 2);
                }
                items.push(first);
                at = end;
            },
            Step::Mismatch(at, expected) => {
                return Step::Mismatch(at, expected);
            },
            Step::Abort(at, expected) => {
                return Step::Abort(at, expected);
            },
        }
        assert(disjunctions(items@) =~= seq![items@[0]@]);
        loop
            invariant_except_break
                and_expression(s, pos as int) == and_tail(s, at as int, disjunctions(items@)),
            invariant
                self.wf(),
                s == self.chars@,
                pos < at <= s.len(),
            ensures
                and_expression(s, pos as int) == (Outcome::Parsed {
                    value: disjunctions(items@),
                    end: at as int,
                }),
            decreases s.len() - at,
        {
            let next = match self.read_separator(at, &self.word_and) {
                Some(b) => b,
                None => {
                    break ;
                },
            };
            proof {
                reveal_strlit("and");
            }
            match self.read_or_expression(next) {
                Step::Parsed(item, end) => {
                    proof {
                        lemma_rules_advance(s, next as int, 2);
                    }
                    let ghost before = disjunctions(items@);
                    items.push(item);
                    assert(disjunctions(items@) =~= before.push(item@));
                    at = end;
                },
                Step::Mismatch(_, _) => {
                    break ;
                },
                Step::Abort(at, expected) => {
                    return Step::Abort(at, expected);
                },
            }
        }
        let ghost forms = disjunctions(items@);
        let r = AndExpression(items);
        assert(r@ =~= forms);
        Step::Parsed(r, at)
    }

    /// Reads an expression at `pos`.
    fn read_expression(&self, pos: usize) -> (r: Step<Expression>)
        requires
            self.wf(),
            pos <= self.chars@.len(),
        ensures
            agrees(r, expression(self.chars@, pos as int)),
            bounded(r, pos, self.chars@.len()),
        decreases self.chars@.len() - pos, 5nat,
    {
        let start = self.scan(pos, CharClass::Space);
        match self.read_and_expression(start) {
            Step::Parsed(conjunction, end) => Step::Parsed(Expression(conjunction), end),
            Step::Mismatch(at, expected) => Step::Mismatch(at, expected),
            Step::Abort(at, expected) => Step::Abort(at, expected),
        }
    }

    /// The error for a failure at position `at`.
    fn error_at(&self, at: usize, production: Production) -> (e: ParseError)
        requires
            at <= self.chars@.len(),
        ensures
            e == located(self.chars@, at as int, production),
    {
        let mut feeds: usize = 0;
        let mut start: usize = 0;
        let mut i: usize = 0;
        while i < at
            invariant
                i <= at <= self.chars@.len(),
                feeds == line_feeds(self.chars@, i as int),
                start == line_start(self.chars@, i as int),
                feeds <= i,
                start <= i,
            decreases at - i,
        {
            if self.chars[i] == '\n' {
                feeds += 1;
                start = i + 1;
            }
            i += 1;
        }
        ParseError {
            position: at,
            line: one_based(feeds),
            column: one_based(at - start),
            production,
        }
    }
}

/// Lines and columns are counted from 1, as far as the machine's integers
/// reach.
pub open spec fn spec_one_based(n: usize) -> usize {
    if n < usize::MAX {
        (n + 1) as usize
    } else {
        n
    }
}

/// Counts from 1 what was counted from 0.
#[verifier::when_used_as_spec(spec_one_based)]
fn one_based(n: usize) -> (r: usize)
    ensures
        r == spec_one_based(n),
{
    if n < usize::MAX {
        n + 1
    } else {
        n
    }
}

/// Parses a requirement text into its expression. A blank text is the empty
/// conjunction, which holds against everything. A text that the grammar does
/// not admit gives the place and the rule of the failure.
pub fn parse(input: &str) -> (r: Result<Expression, ParseError>)
    ensures
        match r {
            Ok(e) => spec_parse(input@) == Ok::<Seq<Seq<Formula>>, ParseError>(e@),
            Err(e) => spec_parse(input@) == Err::<Seq<Seq<Formula>>, ParseError>(e),
        },
{
    let scanner = Scanner::new(input);
    match scanner.read_expression(0) {
        Step::Parsed(e, end) => {
            let stop = scanner.scan(end, CharClass::Space);
            if stop == scanner.chars.len() {
                Ok(e)
            } else {
                Err(scanner.error_at(stop, Production::Toplevel))
            }
        },
        Step::Mismatch(at, expected) => {
            if scanner.scan(0, CharClass::Space) == scanner.chars.len() {
                Ok(Expression::empty())
            } else {
                Err(scanner.error_at(at, expected))
            }
        },
        Step::Abort(at, expected) => {
            Err(scanner.error_at(at, expected))
        },
    }
}

} // verus!
