//! Parsing undoes rendering.
//!
//! An expression is well formed when every name in it is a class name of the
//! grammar, every disjunction has a member, and every nested conjunction has
//! a member. For such an expression the parser reads the rendered text back
//! to the same expression: [`lemma_parse_inverts_render`].

use crate::requirements::parser::{
    and_expression,
    and_tail,
    class_name,
    expression,
    is_space,
    lemma_blank_is_vacuous,
    lemma_rules_advance,
    lemma_run_end,
    or_expression,
    or_tail,
    primary,
    requisite_type,
    run_end,
    separator,
    spec_is_numeric,
    spec_is_uppercase,
    spec_parse,
    toplevel,
    CharClass,
    Outcome,
    ParseError,
    Production,
};
use crate::requirements::render::{render, render_all_from, render_any_from, render_formula};
use crate::requirements::{Formula, RequisiteType};
use crate::text::has_tag;
use vstd::prelude::*;

verus! {

/// The name falls into capital letters up to `a`, white space up to `b`,
/// digits up to `c`, and after them nothing or one capital letter.
pub open spec fn name_parts(n: Seq<char>, a: int, b: int, c: int) -> bool {
    &&& 0 < a < b < c <= n.len()
    &&& forall|k: int| 0 <= k < a ==> spec_is_uppercase(#[trigger] n[k])
    &&& forall|k: int| a <= k < b ==> is_space(#[trigger] n[k])
    &&& forall|k: int| b <= k < c ==> spec_is_numeric(#[trigger] n[k])
    &&& (c == n.len() || (c + 1 == n.len() && spec_is_uppercase(n[c])))
}

/// A class name of the grammar: one or more capital letters, white space,
/// one or more digits, and at most one capital letter.
pub open spec fn well_formed_name(n: Seq<char>) -> bool {
    exists|a: int, b: int, c: int| #[trigger] name_parts(n, a, b, c)
}

/// A primary is well formed when its name is a class name, or when its
/// nested conjunction has a member and is well formed.
pub open spec fn well_formed(f: Formula) -> bool
    decreases f, 0int,
{
    match f {
        Formula::Requisite { name, .. } => well_formed_name(name),
        Formula::Nested(e) => e.len() > 0 && all_well_formed(e),
    }
}

/// A disjunction is well formed when it has a member and each is well
/// formed.
pub open spec fn any_well_formed(or: Seq<Formula>) -> bool
    decreases or, 1int,
{
    or.len() > 0 && forall|j: int| 0 <= j < or.len() ==> well_formed(#[trigger] or[j])
}

/// A conjunction is well formed when each member is.
pub open spec fn all_well_formed(and: Seq<Seq<Formula>>) -> bool
    decreases and, 1int,
{
    forall|i: int| 0 <= i < and.len() ==> any_well_formed(#[trigger] and[i])
}

/// A run of characters of `class` from `from` to `to`, where the text ends
/// or another character follows, is the longest run from `from`.
proof fn lemma_run_is(s: Seq<char>, from: int, to: int, class: CharClass)
    requires
        0 <= from <= to <= s.len(),
        forall|k: int| from <= k < to ==> class.admits(#[trigger] s[k]),
        to == s.len() || !class.admits(s[to]),
    ensures
        run_end(s, from, class) == to,
    decreases to - from,
{
    if from < to {
        lemma_run_is(s, from + 1, to, class);
    }
}

/// A text stands at a position exactly if its front part stands there and
/// its back part after it.
proof fn lemma_tag_parts(s: Seq<char>, pos: int, x: Seq<char>, y: Seq<char>)
    requires
        0 <= pos,
    ensures
        has_tag(s, pos, x + y) <==> has_tag(s, pos, x) && has_tag(s, pos + x.len(), y),
{
    let n = x.len() as int;
    let m = y.len() as int;
    if has_tag(s, pos, x + y) {
        let whole = s.subrange(pos, pos + n + m);
        assert(whole == x + y);
        assert forall|k: int| 0 <= k < n implies s.subrange(pos, pos + n)[k] == x[k] by {
            assert(whole[k] == (x + y)[k]);
        }
        assert(s.subrange(pos, pos + n) =~= x);
        assert forall|k: int| 0 <= k < m implies s.subrange(pos + n, pos + n + m)[k] == y[k] by {
            assert(whole[n + k] == (x + y)[n + k]);
        }
        assert(s.subrange(pos + n, pos + n + m) =~= y);
    }
    if has_tag(s, pos, x) && has_tag(s, pos + x.len(), y) {
        let front = s.subrange(pos, pos + n);
        let back = s.subrange(pos + n, pos + n + m);
        assert forall|k: int| 0 <= k < n + m implies s.subrange(pos, pos + n + m)[k] == (x
            + y)[k] by {
            if k < n {
                assert(front[k] == x[k]);
            } else {
                assert(back[k - n] == y[k - n]);
            }
        }
        assert(s.subrange(pos, pos + n + m) =~= x + y);
    }
}

/// Where a text stands at a position, its characters are there.
proof fn lemma_tag_at(s: Seq<char>, pos: int, t: Seq<char>, k: int)
    requires
        has_tag(s, pos, t),
        0 <= k < t.len(),
    ensures
        pos + k < s.len(),
        s[pos + k] == t[k],
{
    assert(s.subrange(pos, pos + t.len())[k] == t[k]);
}

/// A primary's text begins with a capital letter or an opening parenthesis.
pub open spec fn opens(c: char) -> bool {
    spec_is_uppercase(c) || c == '('
}

/// The text of a well-formed primary is not empty and opens as a primary
/// does.
proof fn lemma_formula_opens(f: Formula)
    requires
        well_formed(f),
    ensures
        render_formula(f).len() > 0,
        opens(render_formula(f)[0]),
{
    match f {
        Formula::Requisite { typ, name } => {
            let (a, b, c) = choose|a: int, b: int, c: int| #[trigger] name_parts(name, a, b, c);
            assert(spec_is_uppercase(name[0]));
        },
        Formula::Nested(e) => {
            reveal_strlit("(");
            assert(render_formula(f)[0] == "("@[0]);
        },
    }
}

/// So does the text of the members of a well-formed disjunction.
proof fn lemma_any_opens(or: Seq<Formula>, j: int)
    requires
        any_well_formed(or),
        0 <= j < or.len(),
    ensures
        render_any_from(or, j).len() > 0,
        opens(render_any_from(or, j)[0]),
{
    lemma_formula_opens(or[j]);
}

/// So does the text of the members of a well-formed conjunction.
proof fn lemma_all_opens(and: Seq<Seq<Formula>>, i: int)
    requires
        all_well_formed(and),
        0 <= i < and.len(),
    ensures
        render_all_from(and, i).len() > 0,
        opens(render_all_from(and, i)[0]),
{
    lemma_any_opens(and[i], 0);
}

/// Nothing at `q` continues a class name.
pub open spec fn ends_name(s: Seq<char>, q: int) -> bool {
    q >= s.len() || (!spec_is_numeric(s[q]) && !spec_is_uppercase(s[q]))
}

/// After optional white space at `q` stands `word`.
pub open spec fn word_after(s: Seq<char>, q: int, word: Seq<char>) -> bool {
    has_tag(s, run_end(s, q, CharClass::Space), word)
}

/// From `q` to `e` there is white space only.
pub open spec fn near(s: Seq<char>, e: int, q: int) -> bool {
    0 <= q <= e <= s.len() && run_end(s, e, CharClass::Space) == run_end(s, q, CharClass::Space)
}

/// Where the white space at `q` ends, there is white space only since `q`.
proof fn lemma_near_after_spaces(s: Seq<char>, q: int)
    requires
        0 <= q <= s.len(),
    ensures
        near(s, run_end(s, q, CharClass::Space), q),
{
    lemma_run_end(s, q, CharClass::Space);
    let a = run_end(s, q, CharClass::Space);
    lemma_run_is(s, a, a, CharClass::Space);
}

/// A class name that stands at `pos`, and that nothing continues, is read
/// as it stands.
proof fn lemma_class_name_reads(n: Seq<char>, s: Seq<char>, pos: int)
    requires
        well_formed_name(n),
        0 <= pos,
        has_tag(s, pos, n),
        ends_name(s, pos + n.len()),
    ensures
        class_name(s, pos) == Ok::<(int, int), int>((pos, pos + n.len())),
{
    let (a, b, c) = choose|a: int, b: int, c: int| #[trigger] name_parts(n, a, b, c);
    assert forall|k: int| 0 <= k < n.len() implies s[pos + k] == n[k] by {
        lemma_tag_at(s, pos, n, k);
    }
    assert(spec_is_uppercase(n[0]));
    lemma_run_is(s, pos, pos, CharClass::Space);
    assert(is_space(n[a]));
    assert forall|k: int| pos <= k < pos + a implies CharClass::Upper.admits(#[trigger] s[k]) by {
        assert(spec_is_uppercase(n[k - pos]));
    }
    lemma_run_is(s, pos, pos + a, CharClass::Upper);
    assert(spec_is_numeric(n[b]));
    assert forall|k: int| pos + a <= k < pos + b implies CharClass::Space.admits(
        #[trigger] s[k],
    ) by {
        assert(is_space(n[k - pos]));
    }
    lemma_run_is(s, pos + a, pos + b, CharClass::Space);
    assert forall|k: int| pos + b <= k < pos + c implies CharClass::Digit.admits(
        #[trigger] s[k],
    ) by {
        assert(spec_is_numeric(n[k - pos]));
    }
    lemma_run_is(s, pos + b, pos + c, CharClass::Digit);
}

/// What reading the members of a disjunction from `pos` on gives, with `acc`
/// read before.
pub open spec fn or_items(s: Seq<char>, pos: int, acc: Seq<Formula>) -> Outcome<Seq<Formula>> {
    match primary(s, pos) {
        Outcome::Parsed { value, end } => or_tail(s, end, acc.push(value)),
        Outcome::Mismatch { at, expected } => Outcome::Mismatch { at, expected },
        Outcome::Abort { at, expected } => Outcome::Abort { at, expected },
    }
}

/// What reading the members of a conjunction from `pos` on gives, with `acc`
/// read before.
pub open spec fn and_items(s: Seq<char>, pos: int, acc: Seq<Seq<Formula>>) -> Outcome<
    Seq<Seq<Formula>>,
> {
    match or_expression(s, pos) {
        Outcome::Parsed { value, end } => and_tail(s, end, acc.push(value)),
        Outcome::Mismatch { at, expected } => Outcome::Mismatch { at, expected },
        Outcome::Abort { at, expected } => Outcome::Abort { at, expected },
    }
}

/// The outcome is `value`, and the rule stopped at `q` or in the white space
/// after it.
pub open spec fn reads<T>(o: Outcome<T>, value: T, s: Seq<char>, q: int) -> bool {
    o matches Outcome::Parsed { value: v, end } && v == value && near(s, end, q)
}

/// What follows a member of a list that has more members: one space, the
/// connective, one space, and the next member.
proof fn lemma_between(s: Seq<char>, q: int, word: Seq<char>, padded: Seq<char>, next: Seq<char>)
    requires
        0 <= q,
        has_tag(s, q, padded + next),
        padded == seq![' '] + word + seq![' '],
        word.len() > 0,
        !is_space(word[0]),
        !spec_is_numeric(word[0]),
        !spec_is_uppercase(word[0]),
        next.len() > 0,
        opens(next[0]),
    ensures
        ends_name(s, q),
        run_end(s, q, CharClass::Space) == q + 1,
        separator(s, q, word) == Some(q + padded.len()),
        has_tag(s, q + padded.len(), next),
        q + padded.len() < s.len(),
        opens(s[q + padded.len()]),
{
    let w = word.len() as int;
    lemma_tag_parts(s, q, padded, next);
    lemma_tag_parts(s, q, seq![' '] + word, seq![' ']);
    lemma_tag_parts(s, q, seq![' '], word);
    lemma_tag_at(s, q, seq![' '], 0);
    lemma_tag_at(s, q + 1, word, 0);
    lemma_tag_at(s, q + 1 + w, seq![' '], 0);
    lemma_tag_at(s, q + padded.len(), next, 0);
    lemma_run_is(s, q, q + 1, CharClass::Space);
    lemma_run_is(s, q + 1 + w, q + 2 + w, CharClass::Space);
}

/// A prerequisite's text is read back as the prerequisite.
proof fn lemma_prerequisite_reads(name: Seq<char>, s: Seq<char>, pos: int)
    requires
        well_formed_name(name),
        0 <= pos,
        has_tag(s, pos, name),
        ends_name(s, pos + name.len()),
        !word_after(s, pos + name.len(), "or concurrent"@),
    ensures
        reads(
            primary(s, pos),
            Formula::Requisite { typ: RequisiteType::Pre, name },
            s,
            pos + name.len(),
        ),
{
    lemma_class_name_reads(name, s, pos);
    lemma_near_after_spaces(s, pos + name.len());
}

/// A corequisite's text is read back as the corequisite.
proof fn lemma_corequisite_reads(name: Seq<char>, s: Seq<char>, pos: int)
    requires
        well_formed_name(name),
        0 <= pos,
        has_tag(s, pos, name + " or concurrently"@),
    ensures
        reads(
            primary(s, pos),
            Formula::Requisite { typ: RequisiteType::Co, name },
            s,
            pos + name.len() + " or concurrently"@.len(),
        ),
{
    let q0 = pos + name.len();
    reveal_strlit(" or concurrently");
    reveal_strlit("or concurrent");
    reveal_strlit("ly");
    let mark = " or concurrently"@;
    let q = q0 + mark.len();
    assert(mark =~= seq![' '] + "or concurrent"@ + "ly"@);
    lemma_tag_parts(s, pos, name, mark);
    lemma_tag_parts(s, q0, seq![' '] + "or concurrent"@, "ly"@);
    lemma_tag_parts(s, q0, seq![' '], "or concurrent"@);
    lemma_tag_at(s, q0, seq![' '], 0);
    lemma_tag_at(s, q0 + 1, "or concurrent"@, 0);
    lemma_class_name_reads(name, s, pos);
    lemma_run_is(s, q0, q0 + 1, CharClass::Space);
    assert(requisite_type(s, q0) == (RequisiteType::Co, q));
    assert(s.subrange(pos, q0) == name);
}

/// The text of a well-formed primary, where nothing continues its name and no
/// corequisite mark follows it, is read back as the primary.
pub proof fn lemma_primary_reads(f: Formula, s: Seq<char>, pos: int)
    requires
        well_formed(f),
        0 <= pos,
        has_tag(s, pos, render_formula(f)),
        ends_name(s, pos + render_formula(f).len()),
        !word_after(s, pos + render_formula(f).len(), "or concurrent"@),
    ensures
        reads(primary(s, pos), f, s, pos + render_formula(f).len()),
    decreases f, 0int,
{
    let q = pos + render_formula(f).len();
    match f {
        Formula::Requisite { typ: RequisiteType::Pre, name } => {
            lemma_prerequisite_reads(name, s, pos);
        },
        Formula::Requisite { typ: RequisiteType::Co, name } => {
            lemma_corequisite_reads(name, s, pos);
        },
        Formula::Nested(e) => {
            reveal_strlit("(");
            reveal_strlit(")");
            reveal_strlit("or");
            reveal_strlit("and");
            let inner = render(e);
            lemma_all_opens(e, 0);
            lemma_tag_parts(s, pos, "("@ + inner, ")"@);
            lemma_tag_parts(s, pos, "("@, inner);
            lemma_tag_at(s, pos, "("@, 0);
            lemma_tag_at(s, pos + 1, inner, 0);
            lemma_tag_at(s, q - 1, ")"@, 0);
            lemma_run_is(s, pos, pos, CharClass::Space);
            lemma_run_is(s, pos, pos, CharClass::Upper);
            assert(class_name(s, pos) is Err);
            lemma_run_is(s, pos + 1, pos + 1, CharClass::Space);
            lemma_run_is(s, q - 1, q - 1, CharClass::Space);
            lemma_all_reads(e, 0, s, pos + 1, Seq::empty());
            let read = and_items(s, pos + 1, Seq::empty());
            assert(and_expression(s, pos + 1) == read) by {
                lemma_rules_advance(s, pos + 1, 2);
                match or_expression(s, pos + 1) {
                    Outcome::Parsed { value, end } => {
                        assert(seq![value] =~= Seq::<Seq<Formula>>::empty().push(value));
                    },
                    _ => {},
                }
            }
            assert(e.subrange(0, e.len() as int) =~= e);
            assert(Seq::<Seq<Formula>>::empty() + e =~= e);
            let end = read->end;
            lemma_run_end(s, end, CharClass::Space);
            assert(end == q - 1);
            assert(expression(s, pos + 1) == read);
            assert(near(s, q, q));
        },
    }
}

/// The text of the members of a well-formed disjunction from member `j` on,
/// where nothing continues the last name and no `or` follows, is read back
/// as those members.
pub proof fn lemma_any_reads(or: Seq<Formula>, j: int, s: Seq<char>, pos: int, acc: Seq<Formula>)
    requires
        any_well_formed(or),
        0 <= j < or.len(),
        0 <= pos,
        has_tag(s, pos, render_any_from(or, j)),
        ends_name(s, pos + render_any_from(or, j).len()),
        !word_after(s, pos + render_any_from(or, j).len(), "or"@),
    ensures
        reads(
            or_items(s, pos, acc),
            acc + or.subrange(j, or.len() as int),
            s,
            pos + render_any_from(or, j).len(),
        ),
    decreases or, or.len() - j,
{
    reveal_strlit("or");
    reveal_strlit(" or ");
    reveal_strlit("or concurrent");
    let item = render_formula(or[j]);
    let q = pos + item.len();
    assert(well_formed(or[j]));
    if j + 1 < or.len() {
        let next = render_any_from(or, j + 1);
        let padded = " or "@;
        assert(padded =~= seq![' '] + "or"@ + seq![' ']);
        assert(render_any_from(or, j) =~= item + (padded + next));
        lemma_tag_parts(s, pos, item, padded + next);
        lemma_any_opens(or, j + 1);
        lemma_between(s, q, "or"@, padded, next);
        assert(!word_after(s, q, "or concurrent"@)) by {
            if has_tag(s, q + 1, "or concurrent"@) {
                lemma_tag_at(s, q + 1, "or concurrent"@, 3);
            }
        }
        lemma_primary_reads(or[j], s, pos);
        let e = primary(s, pos)->end;
        let b = q + 4;
        let more = acc.push(or[j]);
        assert(separator(s, e, "or"@) == Some(b));
        lemma_any_reads(or, j + 1, s, b, more);
        lemma_rules_advance(s, b, 0);
        lemma_run_end(s, e, CharClass::Space);
        assert(e < b <= s.len());
        assert(primary(s, b) is Parsed);
        assert(or_tail(s, e, more) == or_items(s, b, more));
        assert(more + or.subrange(j + 1, or.len() as int) =~= acc + or.subrange(
            j,
            or.len() as int,
        ));
    } else {
        assert(render_any_from(or, j) == item);
        assert(!word_after(s, q, "or concurrent"@)) by {
            let a = run_end(s, q, CharClass::Space);
            lemma_run_end(s, q, CharClass::Space);
            assert("or concurrent"@ =~= "or"@ + " concurrent"@) by {
                reveal_strlit(" concurrent");
            }
            lemma_tag_parts(s, a, "or"@, " concurrent"@);
        }
        lemma_primary_reads(or[j], s, pos);
        let e = primary(s, pos)->end;
        assert(separator(s, e, "or"@) is None);
        assert(acc.push(or[j]) =~= acc + or.subrange(j, or.len() as int));
    }
}

/// The text of the members of a well-formed conjunction from member `i` on,
/// where nothing continues the last name and neither `or` nor `and` follows,
/// is read back as those members.
pub proof fn lemma_all_reads(
    and: Seq<Seq<Formula>>,
    i: int,
    s: Seq<char>,
    pos: int,
    acc: Seq<Seq<Formula>>,
)
    requires
        all_well_formed(and),
        0 <= i < and.len(),
        0 <= pos,
        has_tag(s, pos, render_all_from(and, i)),
        ends_name(s, pos + render_all_from(and, i).len()),
        !word_after(s, pos + render_all_from(and, i).len(), "or"@),
        !word_after(s, pos + render_all_from(and, i).len(), "and"@),
    ensures
        reads(
            and_items(s, pos, acc),
            acc + and.subrange(i, and.len() as int),
            s,
            pos + render_all_from(and, i).len(),
        ),
    decreases and, and.len() - i,
{
    reveal_strlit("or");
    reveal_strlit("and");
    reveal_strlit(" and ");
    let item = render_any_from(and[i], 0);
    let q = pos + item.len();
    assert(any_well_formed(and[i]));
    let none = Seq::<Formula>::empty();
    lemma_all_opens(and, i);
    assert(or_expression(s, pos) == or_items(s, pos, none)) by {
        lemma_rules_advance(s, pos, 0);
        match primary(s, pos) {
            Outcome::Parsed { value, end } => {
                assert(seq![value] =~= none.push(value));
            },
            _ => {},
        }
    }
    assert(and[i].subrange(0, and[i].len() as int) =~= and[i]);
    assert(none + and[i] =~= and[i]);
    if i + 1 < and.len() {
        let next = render_all_from(and, i + 1);
        let padded = " and "@;
        assert(padded =~= seq![' '] + "and"@ + seq![' ']);
        assert(render_all_from(and, i) =~= item + (padded + next));
        lemma_tag_parts(s, pos, item, padded + next);
        lemma_all_opens(and, i + 1);
        lemma_between(s, q, "and"@, padded, next);
        assert(!word_after(s, q, "or"@)) by {
            if has_tag(s, q + 1, "or"@) {
                lemma_tag_at(s, q + 1, "or"@, 0);
                lemma_tag_at(s, q + 1, "and"@, 0);
            }
        }
        lemma_any_reads(and[i], 0, s, pos, none);
        let e = or_expression(s, pos)->end;
        let b = q + 5;
        let more = acc.push(and[i]);
        assert(separator(s, e, "and"@) == Some(b));
        lemma_all_reads(and, i + 1, s, b, more);
        lemma_rules_advance(s, b, 2);
        lemma_run_end(s, e, CharClass::Space);
        assert(e < b <= s.len());
        assert(or_expression(s, b) is Parsed);
        assert(and_tail(s, e, more) == and_items(s, b, more));
        assert(more + and.subrange(i + 1, and.len() as int) =~= acc + and.subrange(
            i,
            and.len() as int,
        ));
    } else {
        assert(render_all_from(and, i) == item);
        lemma_any_reads(and[i], 0, s, pos, none);
        let e = or_expression(s, pos)->end;
        assert(separator(s, e, "and"@) is None);
        assert(acc.push(and[i]) =~= acc + and.subrange(i, and.len() as int));
    }
}

/// Parsing undoes rendering: the text of a well-formed expression parses to
/// the expression.
pub proof fn lemma_parse_inverts_render(e: Seq<Seq<Formula>>)
    requires
        all_well_formed(e),
    ensures
        spec_parse(render(e)) == Ok::<Seq<Seq<Formula>>, ParseError>(e),
{
    let s = render(e);
    if e.len() == 0 {
        lemma_blank_is_vacuous(s, Set::empty(), Set::empty());
        assert(e =~= Seq::<Seq<Formula>>::empty());
    } else {
        reveal_strlit("or");
        reveal_strlit("and");
        let len = s.len() as int;
        lemma_all_opens(e, 0);
        assert(s.subrange(0, len) =~= s);
        lemma_run_is(s, len, len, CharClass::Space);
        lemma_run_is(s, 0, 0, CharClass::Space);
        lemma_all_reads(e, 0, s, 0, Seq::empty());
        let read = and_items(s, 0, Seq::empty());
        assert(and_expression(s, 0) == read) by {
            lemma_rules_advance(s, 0, 2);
            match or_expression(s, 0) {
                Outcome::Parsed { value, end } => {
                    assert(seq![value] =~= Seq::<Seq<Formula>>::empty().push(value));
                },
                _ => {},
            }
        }
        assert(e.subrange(0, e.len() as int) =~= e);
        assert(Seq::<Seq<Formula>>::empty() + e =~= e);
        assert(expression(s, 0) == read);
        assert(toplevel(s) == Ok::<Seq<Seq<Formula>>, (int, Production)>(e));
    }
}

} // verus!
