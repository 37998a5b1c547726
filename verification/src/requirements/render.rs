//! Writing an expression back as requirement text.
//!
//! The text is canonical: one space around `or` and `and`, parentheses
//! around every nested expression and nowhere else, a corequisite marked
//! ` or concurrently`. Parsing the text of a well-formed expression gives
//! the expression back.

use crate::requirements::{
    AndExpression,
    Expression,
    Formula,
    OrExpression,
    Primary,
    Requisite,
    RequisiteType,
};
use vstd::prelude::*;
use vstd::string::StringExecFns;

verus! {

/// The text of a primary: a requisite's name, followed by
/// ` or concurrently` for a corequisite; a nested expression in parentheses.
pub open spec fn render_formula(f: Formula) -> Seq<char>
    decreases f, 0int,
{
    match f {
        Formula::Requisite { typ: RequisiteType::Pre, name } => name,
        Formula::Requisite { typ: RequisiteType::Co, name } => name + " or concurrently"@,
        Formula::Nested(e) => "("@ + render(e) + ")"@,
    }
}

/// The text of the members of a disjunction from member `j` on, with ` or `
/// between them.
pub open spec fn render_any_from(or: Seq<Formula>, j: int) -> Seq<char>
    decreases or, or.len() - j,
{
    if 0 <= j < or.len() {
        if j + 1 < or.len() {
            render_formula(or[j]) + " or "@ + render_any_from(or, j + 1)
        } else {
            render_formula(or[j])
        }
    } else {
        Seq::empty()
    }
}

/// The text of the members of a conjunction from member `i` on, with
/// ` and ` between them.
pub open spec fn render_all_from(and: Seq<Seq<Formula>>, i: int) -> Seq<char>
    decreases and, and.len() - i,
{
    if 0 <= i < and.len() {
        if i + 1 < and.len() {
            render_any_from(and[i], 0) + " and "@ + render_all_from(and, i + 1)
        } else {
            render_any_from(and[i], 0)
        }
    } else {
        Seq::empty()
    }
}

/// The text of an expression. The empty conjunction is the empty text.
pub open spec fn render(and: Seq<Seq<Formula>>) -> Seq<char>
    decreases and, and.len() + 1,
{
    render_all_from(and, 0)
}

impl Requisite {
    /// Writes the requisite as requirement text.
    pub fn render(&self) -> (r: String)
        ensures
            r@ == render_formula(self@),
    {
        let mut r = self.name.clone();
        match self.typ {
            RequisiteType::Pre => {},
            RequisiteType::Co => {
                r.append(" or concurrently");
            },
        }
        r
    }
}

impl Primary {
    /// Writes the primary as requirement text.
    pub fn render(&self) -> (r: String)
        ensures
            r@ == render_formula(self@),
        decreases self,
    {
        match self {
            Primary::Req(requisite) => requisite.render(),
            Primary::Expr(expression) => {
                let mut r = String::from_str("(");
                r.append(expression.render().as_str());
                r.append(")");
                r
            },
        }
    }
}

impl OrExpression {
    /// Writes the disjunction as requirement text.
    pub fn render(&self) -> (r: String)
        ensures
            r@ == render_any_from(self@, 0),
        decreases self,
    {
        let ghost or = self@;
        let mut r = String::new();
        let mut j: usize = 0;
        while j < self.0.len()
            invariant
                j <= self.0@.len(),
                or == self@,
                or.len() == self.0@.len(),
                j == 0 ==> r@ == Seq::<char>::empty(),
                0 < j < or.len() ==> render_any_from(or, 0) == r@ + " or "@ + render_any_from(
                    or,
                    j as int,
                ),
                0 < j == or.len() ==> render_any_from(or, 0) == r@,
            decreases self.0@.len() - j,
        {
            if j > 0 {
                r.append(" or ");
            }
            r.append(self.0[j].render().as_str());
            j += 1;
        }
        r
    }
}

impl AndExpression {
    /// Writes the conjunction as requirement text.
    pub fn render(&self) -> (r: String)
        ensures
            r@ == render(self@),
        decreases self,
    {
        let ghost and = self@;
        let mut r = String::new();
        let mut i: usize = 0;
        while i < self.0.len()
            invariant
                i <= self.0@.len(),
                and == self@,
                and.len() == self.0@.len(),
                i == 0 ==> r@ == Seq::<char>::empty(),
                0 < i < and.len() ==> render_all_from(and, 0) == r@ + " and "@ + render_all_from(
                    and,
                    i as int,
                ),
                0 < i == and.len() ==> render_all_from(and, 0) == r@,
            decreases self.0@.len() - i,
        {
            if i > 0 {
                r.append(" and ");
            }
            r.append(self.0[i].render().as_str());
            i += 1;
        }
        r
    }
}

impl Expression {
    /// Writes the expression as requirement text that parses back to it.
    pub fn render(&self) -> (r: String)
        ensures
            r@ == render(self@),
        decreases self,
    {
        self.0.render()
    }
}

} // verus!
