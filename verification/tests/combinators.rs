//! The grammar once more, written with parser combinators, and held against
//! the library's parser on many texts.

use course_scheduler::requirements::{
    parse, AndExpression, Expression, OrExpression, Primary, Requisite, RequisiteType,
};
use nom::branch::alt;
use nom::bytes::complete::{tag, take_while1, take_while_m_n};
use nom::character::complete::{multispace0, multispace1};
use nom::combinator::{all_consuming, cut, opt, recognize, success};
use nom::multi::separated_list1;
use nom::sequence::{delimited, pair, preceded, terminated, tuple};
use nom::{Finish, IResult, Parser};

fn upper(c: char) -> bool {
    c.is_ascii_uppercase()
}

fn digit(c: char) -> bool {
    c.is_ascii_digit()
}

fn name(input: &str) -> IResult<&str, &str> {
    let parts = tuple((
        take_while1(upper),
        multispace1,
        take_while1(digit),
        take_while_m_n(0, 1, upper),
    ));
    preceded(multispace0, recognize(parts))(input)
}

fn mark(input: &str) -> IResult<&str, RequisiteType> {
    let concurrent = pair(tag("or concurrent"), opt(tag("ly"))).map(|_| RequisiteType::Co);
    preceded(multispace0, alt((concurrent, success(RequisiteType::Pre)))).parse(input)
}

fn requisite(input: &str) -> IResult<&str, Primary> {
    pair(name, mark)
        .map(|(name, typ)| {
            Primary::Req(Requisite {
                typ,
                name: name.to_string(),
            })
        })
        .parse(input)
}

fn primary(input: &str) -> IResult<&str, Primary> {
    let group = delimited(tag("("), expression, cut(tag(")"))).map(Primary::Expr);
    alt((requisite, group)).parse(input)
}

fn disjunction(input: &str) -> IResult<&str, OrExpression> {
    let or = delimited(multispace0, tag("or"), multispace0);
    separated_list1(or, primary).map(OrExpression).parse(input)
}

fn conjunction(input: &str) -> IResult<&str, AndExpression> {
    let and = delimited(multispace0, tag("and"), multispace0);
    separated_list1(and, disjunction)
        .map(AndExpression)
        .parse(input)
}

fn expression(input: &str) -> IResult<&str, Expression> {
    preceded(multispace0, conjunction.map(Expression)).parse(input)
}

fn whole(input: &str) -> Option<Expression> {
    let blank = multispace0.map(|_| Expression::default());
    let top = alt((expression, blank));
    match all_consuming(terminated(top, multispace0))(input).finish() {
        Ok((_, e)) => Some(e),
        Err(_) => None,
    }
}

fn agree(text: &str) {
    assert_eq!(parse(text).ok(), whole(text), "on {text:?}");
}

#[test]
fn agrees_on_written_requirements() {
    let texts = [
        "",
        " ",
        "PHY 183B",
        "CSE 232",
        "CSE 220 or concurrently",
        "(CSE 220 or concurrently)",
        "FOO 100 or (CSE 220)",
        "FOO 100 and FOO 200 and FOO 300",
        "((PHY 183 or concurrently) or (PHY 193H or concurrently) or PHY 183B) or (PHY 231 and (PHY 233B or concurrently)) or (PHY 231C and (PHY 233B or concurrently))",
        "    MTH 234 or MTH 254H or LB 220",
        "(ECE 201) and ((MTH 235 or concurrently) or MTH 340 or MTH 347H)",
        "ECE 203 and (ECE 302 or concurrently) and (ECE 280 or concurrent)",
        "(CSE 220 or CSE 232) and (ECE 230 and (ECE 203 or concurrently))",
        "CSE 220 or concurrentlyCSE 1",
        "CSE 220 or concurrency",
        "CSE 220 orCSE 1",
        "CSE 220 andCSE 1",
        "CSE 220 or concurrently or concurrently",
        "(CSE 220) or concurrently",
        "( CSE 220 )",
        "((CSE 220) )",
        "(CSE 220 ) and ( CSE 1)",
        " (CSE 220)",
        "CSE 220 or (",
        "CSE 220 or ()",
        "CSE220",
        "cse 220",
        "CSE 220B1",
        "CSE 220BB",
        "CSE\u{a0}220",
        "ÉCO 101",
        "CSE 220 or\tCSE 1\nand\r\nMTH 1",
    ];
    for text in texts {
        agree(text);
    }
}

/// A small generator of numbers, the same on every run.
struct Numbers(u64);

impl Numbers {
    fn next(&mut self, below: usize) -> usize {
        self.0 = self
            .0
            .wrapping_mul(6364136223846793005)
            .wrapping_add(1442695040888963407);
        ((self.0 >> 33) as usize) % below
    }
}

#[test]
fn agrees_on_texts_made_of_tokens() {
    let tokens = [
        "CSE 220", "MTH 1", "A 1B", "LB 7", " ", "  ", "\t", "\n", "or", "and", " or ", " and ",
        "or concurrently", "or concurrent", " or concurrently", "ly", "(", ")", "x", "1", "B",
        "CSE", "220", "concurrent",
    ];
    let mut numbers = Numbers(2023);
    let mut accepted = 0;
    for _ in 0..20000 {
        let length = 1 + numbers.next(7);
        let mut text = String::new();
        for _ in 0..length {
            text.push_str(tokens[numbers.next(tokens.len())]);
        }
        agree(&text);
        if parse(&text).is_ok() {
            accepted += 1;
        }
    }
    // the sample holds texts that parse and texts that do not
    assert!(accepted > 100, "{accepted}");
    assert!(accepted < 19900, "{accepted}");
}

#[test]
fn agrees_on_well_formed_texts() {
    // texts grown from the grammar itself, so that most of them parse
    fn grow(numbers: &mut Numbers, depth: usize, out: &mut String) {
        let ands = 1 + numbers.next(3);
        for a in 0..ands {
            if a > 0 {
                out.push_str([" and ", "and", "  and\n"][numbers.next(3)]);
            }
            let ors = 1 + numbers.next(3);
            for o in 0..ors {
                if o > 0 {
                    out.push_str([" or ", "or", "\tor "][numbers.next(3)]);
                }
                if depth > 0 && numbers.next(3) == 0 {
                    out.push('(');
                    grow(numbers, depth - 1, out);
                    out.push(')');
                } else {
                    out.push_str(["CSE 220", "MTH  1", "PHY 183B", "LB 7"][numbers.next(4)]);
                    out.push_str(["", "", " ", " or concurrently", " or concurrent"][numbers.next(5)]);
                }
            }
        }
    }
    let mut numbers = Numbers(7);
    let mut accepted = 0;
    for _ in 0..5000 {
        let mut text = String::new();
        grow(&mut numbers, 3, &mut text);
        agree(&text);
        if parse(&text).is_ok() {
            accepted += 1;
        }
    }
    assert!(accepted > 1000, "{accepted}");
}
