//! The requisite expression tree and its evaluation.
//!
//! A course's requirement is a conjunction of disjunctions of primaries; a
//! primary is one named course, wanted before or at the latest together with
//! the requiring course, or a parenthesised expression.
//!
//! The tree is evaluated against anything that can answer two questions
//! about a course name: whether it counts as a completed prerequisite, and
//! whether it counts as a concurrent or completed corequisite.

use vstd::prelude::*;
use vstd::string::StringExecFns;

pub mod parser;
pub mod render;
pub mod roundtrip;

pub use parser::parse;

verus! {

/// How a named course is wanted.
#[derive(Clone, Copy, PartialEq, Eq, Debug, Hash, Structural)]
pub enum RequisiteType {
    /// Completed before the requiring course is taken.
    Pre,
    /// Completed before, or taken in the same term as, the requiring course.
    Co,
}

/// One named course dependency.
#[derive(Clone, PartialEq, Eq, Debug, Hash)]
pub struct Requisite {
    pub typ: RequisiteType,
    pub name: String,
}

/// A single requisite or a parenthesised expression.
#[derive(PartialEq, Eq, Debug)]
pub enum Primary {
    Req(Requisite),
    Expr(Expression),
}

/// A disjunction: holds when any member holds.
#[derive(PartialEq, Eq, Debug)]
pub struct OrExpression(pub Vec<Primary>);

/// A conjunction of disjunctions: holds when every member holds.
#[derive(PartialEq, Eq, Debug)]
pub struct AndExpression(pub Vec<OrExpression>);

/// A whole requirement.
#[derive(PartialEq, Eq, Debug)]
pub struct Expression(pub AndExpression);

/// The mathematical form of a primary. A conjunction of disjunctions is a
/// sequence of sequences of formulas.
pub enum Formula {
    Requisite { typ: RequisiteType, name: Seq<char> },
    Nested(Seq<Seq<Formula>>),
}

impl View for Requisite {
    type V = Formula;

    open spec fn view(&self) -> Formula {
        Formula::Requisite { typ: self.typ, name: self.name@ }
    }
}

impl View for Primary {
    type V = Formula;

    open spec fn view(&self) -> Formula
        decreases self,
    {
        match self {
            Primary::Req(r) => r@,
            Primary::Expr(e) => Formula::Nested(e@),
        }
    }
}

impl View for OrExpression {
    type V = Seq<Formula>;

    open spec fn view(&self) -> Seq<Formula>
        decreases self,
    {
        Seq::new(
            self.0@.len(),
            |i: int|
                if 0 <= i < self.0@.len() {
                    self.0@[i]@
                } else {
                    arbitrary()
                },
        )
    }
}

impl View for AndExpression {
    type V = Seq<Seq<Formula>>;

    open spec fn view(&self) -> Seq<Seq<Formula>>
        decreases self,
    {
        Seq::new(
            self.0@.len(),
            |i: int|
                if 0 <= i < self.0@.len() {
                    self.0@[i]@
                } else {
                    arbitrary()
                },
        )
    }
}

impl View for Expression {
    type V = Seq<Seq<Formula>>;

    open spec fn view(&self) -> Seq<Seq<Formula>>
        decreases self,
    {
        self.0@
    }
}

/// A formula holds, given the names that count as completed (`pre`) and the
/// names that count as concurrent or completed (`co`): a prerequisite must be
/// in `pre`; a corequisite in `pre` or in `co`; a nested expression must hold
/// as a conjunction.
pub open spec fn satisfied(f: Formula, pre: Set<Seq<char>>, co: Set<Seq<char>>) -> bool
    decreases f,
{
    match f {
        Formula::Requisite { typ: RequisiteType::Pre, name } => pre.contains(name),
        Formula::Requisite { typ: RequisiteType::Co, name } => pre.contains(name) || co.contains(
            name,
        ),
        Formula::Nested(e) => all_satisfied(e, pre, co),
    }
}

/// A disjunction holds when one of its members does; the empty disjunction
/// does not hold.
pub open spec fn any_satisfied(or: Seq<Formula>, pre: Set<Seq<char>>, co: Set<Seq<char>>) -> bool
    decreases or,
{
    exists|j: int| 0 <= j < or.len() && satisfied(#[trigger] or[j], pre, co)
}

/// A conjunction holds when each of its members does; the empty conjunction
/// holds.
pub open spec fn all_satisfied(
    and: Seq<Seq<Formula>>,
    pre: Set<Seq<char>>,
    co: Set<Seq<char>>,
) -> bool
    decreases and,
{
    forall|i: int| 0 <= i < and.len() ==> any_satisfied(#[trigger] and[i], pre, co)
}

/// What an expression is evaluated against.
pub trait TestRequisite {
    /// The course names that count as completed prerequisites.
    spec fn prerequisites(&self) -> Set<Seq<char>>;

    /// The course names that count as concurrent or completed corequisites.
    spec fn corequisites(&self) -> Set<Seq<char>>;

    /// Tells whether the course named `requisite` counts as completed.
    fn has_prerequisite(&self, requisite: &str) -> (b: bool)
        ensures
            b == self.prerequisites().contains(requisite@),
    ;

    /// Tells whether the course named `requisite` counts as concurrent.
    fn has_corequisite(&self, requisite: &str) -> (b: bool)
        ensures
            b == self.corequisites().contains(requisite@),
    ;
}

/// The texts of a list of names, as a set.
pub open spec fn name_set(names: Seq<String>) -> Set<Seq<char>> {
    Set::new(|n: Seq<char>| exists|i: int| 0 <= i < names.len() && #[trigger] names[i]@ == n)
}

/// Tests whether `names` holds the text `wanted`.
pub fn holds_name(names: &Vec<String>, wanted: &str) -> (b: bool)
    ensures
        b == name_set(names@).contains(wanted@),
{
    let target = String::from_str(wanted);
    let mut i: usize = 0;
    while i < names.len()
        invariant
            i <= names@.len(),
            target@ == wanted@,
            forall|k: int| 0 <= k < i ==> #[trigger] names@[k]@ != wanted@,
        decreases names@.len() - i,
    {
        if names[i] == target {
            return true;
        }
        i += 1;
    }
    false
}

/// A plain registry of course names: two lists, one of completed
/// prerequisites and one of corequisites.
pub struct RequesiteRegistry {
    prerequisites: Vec<String>,
    corequisites: Vec<String>,
}

impl RequesiteRegistry {
    /// The listed prerequisites.
    pub closed spec fn spec_prerequisites(&self) -> Seq<String> {
        self.prerequisites@
    }

    /// The listed corequisites.
    pub closed spec fn spec_corequisites(&self) -> Seq<String> {
        self.corequisites@
    }

    /// A registry of the given names.
    pub fn new(prerequisites: Vec<String>, corequisites: Vec<String>) -> (r: Self)
        ensures
            r.spec_prerequisites() == prerequisites@,
            r.spec_corequisites() == corequisites@,
    {
        RequesiteRegistry { prerequisites, corequisites }
    }
}

impl Default for RequesiteRegistry {
    /// The registry that knows no course.
    fn default() -> (r: Self)
        ensures
            r.spec_prerequisites() == Seq::<String>::empty(),
            r.spec_corequisites() == Seq::<String>::empty(),
    {
        RequesiteRegistry { prerequisites: Vec::new(), corequisites: Vec::new() }
    }
}

impl TestRequisite for RequesiteRegistry {
    open spec fn prerequisites(&self) -> Set<Seq<char>> {
        name_set(self.spec_prerequisites())
    }

    open spec fn corequisites(&self) -> Set<Seq<char>> {
        name_set(self.spec_corequisites())
    }

    fn has_prerequisite(&self, requisite: &str) -> (b: bool) {
        holds_name(&self.prerequisites, requisite)
    }

    fn has_corequisite(&self, requisite: &str) -> (b: bool) {
        holds_name(&self.corequisites, requisite)
    }
}

impl Requisite {
    /// Tells whether the requisite holds: a prerequisite where the course
    /// counts as completed, a corequisite where it counts as completed or as
    /// concurrent.
    pub fn eval<T: TestRequisite>(&self, requisites_list: &T) -> (b: bool)
        ensures
            b == satisfied(self@, requisites_list.prerequisites(), requisites_list.corequisites()),
    {
        match self.typ {
            RequisiteType::Pre => requisites_list.has_prerequisite(self.name.as_str()),
            RequisiteType::Co => {
                requisites_list.has_prerequisite(self.name.as_str())
                    || requisites_list.has_corequisite(self.name.as_str())
            },
        }
    }
}

impl Primary {
    /// Tells whether the primary holds.
    pub fn eval<T: TestRequisite>(&self, requisites_list: &T) -> (b: bool)
        ensures
            b == satisfied(self@, requisites_list.prerequisites(), requisites_list.corequisites()),
        decreases self,
    {
        match self {
            Primary::Req(requisite) => requisite.eval(requisites_list),
            Primary::Expr(expression) => expression.eval(requisites_list),
        }
    }
}

impl OrExpression {
    /// Tells whether any member holds.
    pub fn eval<T: TestRequisite>(&self, requisites_list: &T) -> (b: bool)
        ensures
            b == any_satisfied(
                self@,
                requisites_list.prerequisites(),
                requisites_list.corequisites(),
            ),
        decreases self,
    {
        let ghost pre = requisites_list.prerequisites();
        let ghost co = requisites_list.corequisites();
        let mut i: usize = 0;
        while i < self.0.len()
            invariant
                i <= self.0@.len(),
                self@.len() == self.0@.len(),
                pre == requisites_list.prerequisites(),
                co == requisites_list.corequisites(),
                forall|k: int| 0 <= k < i ==> !satisfied(#[trigger] self@[k], pre, co),
            decreases self.0@.len() - i,
        {
            assert(self@[i as int] == self.0@[i as int]@);
            if self.0[i].eval(requisites_list) {
                return true;
            }
            i += 1;
        }
        false
    }
}

impl AndExpression {
    /// Tells whether every member holds.
    pub fn eval<T: TestRequisite>(&self, requisites_list: &T) -> (b: bool)
        ensures
            b == all_satisfied(
                self@,
                requisites_list.prerequisites(),
                requisites_list.corequisites(),
            ),
        decreases self,
    {
        let ghost pre = requisites_list.prerequisites();
        let ghost co = requisites_list.corequisites();
        let mut i: usize = 0;
        while i < self.0.len()
            invariant
                i <= self.0@.len(),
                self@.len() == self.0@.len(),
                pre == requisites_list.prerequisites(),
                co == requisites_list.corequisites(),
                forall|k: int| 0 <= k < i ==> any_satisfied(#[trigger] self@[k], pre, co),
            decreases self.0@.len() - i,
        {
            assert(self@[i as int] == self.0@[i as int]@);
            if !self.0[i].eval(requisites_list) {
                return false;
            }
            i += 1;
        }
        true
    }
}

impl Expression {
    /// The expression that holds against everything: the empty conjunction.
    pub fn empty() -> (r: Self)
        ensures
            r@ == Seq::<Seq<Formula>>::empty(),
    {
        Expression(AndExpression(Vec::new()))
    }

    /// Tells whether the expression holds against `requisites_list`.
    pub fn eval<T: TestRequisite>(&self, requisites_list: &T) -> (b: bool)
        ensures
            b == all_satisfied(
                self@,
                requisites_list.prerequisites(),
                requisites_list.corequisites(),
            ),
        decreases self,
    {
        self.0.eval(requisites_list)
    }
}

impl Default for AndExpression {
    /// The empty conjunction.
    fn default() -> (r: Self)
        ensures
            r@ == Seq::<Seq<Formula>>::empty(),
    {
        AndExpression(Vec::new())
    }
}

impl Default for Expression {
    /// The empty conjunction, which holds against everything.
    fn default() -> (r: Self)
        ensures
            r@ == Seq::<Seq<Formula>>::empty(),
    {
        Expression::empty()
    }
}

/// A corequisite holds wherever the same course as a prerequisite does, and
/// also where the course is only known as a corequisite.
pub proof fn lemma_corequisite_weaker(name: Seq<char>, pre: Set<Seq<char>>, co: Set<Seq<char>>)
    ensures
        satisfied(Formula::Requisite { typ: RequisiteType::Co, name }, pre, co) <==> (pre.contains(
            name,
        ) || co.contains(name)),
        satisfied(Formula::Requisite { typ: RequisiteType::Pre, name }, pre, co) ==> satisfied(
            Formula::Requisite { typ: RequisiteType::Co, name },
            pre,
            co,
        ),
{
}

} // verus!
