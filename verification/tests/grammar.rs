use course_scheduler::requirements::parser::{is_numeric, is_uppercase, ParseError, Production};
use course_scheduler::requirements::{
    parse, AndExpression, Expression, OrExpression, Primary, RequesiteRegistry, Requisite,
    RequisiteType, TestRequisite,
};

fn pre(name: &str) -> Primary {
    Primary::Req(Requisite {
        typ: RequisiteType::Pre,
        name: name.to_string(),
    })
}

fn co(name: &str) -> Primary {
    Primary::Req(Requisite {
        typ: RequisiteType::Co,
        name: name.to_string(),
    })
}

fn all(ors: Vec<Vec<Primary>>) -> Expression {
    Expression(AndExpression(ors.into_iter().map(OrExpression).collect()))
}

fn nested(ors: Vec<Vec<Primary>>) -> Primary {
    Primary::Expr(all(ors))
}

fn names(list: &[&str]) -> Vec<String> {
    list.iter().map(|n| n.to_string()).collect()
}

#[test]
fn run_tests() {
    let requisites_list = RequesiteRegistry::default();
    let mut inputs = vec![
        "",
        "PHY 183B",
        "PHY 183B",
        "CSE 232",
        "CSE 220 or concurrently",
        "(CSE 220 or concurrently)",
        "FOO 100 or (CSE 220)",
        "FOO 100 and FOO 200 and FOO 300",
    ];
    let data = "((PHY 183 or concurrently) or (PHY 193H or concurrently) or PHY 183B) or (PHY 231 and (PHY 233B or concurrently)) or (PHY 231C and (PHY 233B or concurrently))
    MTH 234 or MTH 254H or LB 220
    (ECE 201) and ((MTH 235 or concurrently) or MTH 340 or MTH 347H)
    ECE 202 or concurrently
    (CSE 231 or concurrently) or (CSE 220 or concurrently)
    (MTH 234 or MTH 254H) and (ECE 201 or concurrently)
    ECE 202
    ECE 203 and (ECE 302 or concurrently) and (ECE 280 or concurrent)
    (CSE 220 or CSE 232) and (ECE 230 and (ECE 203 or concurrently))";
    for line in data.split('\n') {
        inputs.push(line);
    }
    assert_eq!(inputs.len(), 17);
    for input in inputs {
        let res = parse(input);
        let v = match res.as_ref() {
            Ok(v) => format!("{v:#?}"),
            Err(e) => e.message(),
        };
        let res = res.unwrap();
        println!(
            "---\ntoplevel() on \"{}\": {} {}",
            input,
            v,
            res.eval(&requisites_list)
        );
    }
}

#[test]
fn empty_text_is_the_empty_conjunction() {
    assert_eq!(parse(""), Ok(all(vec![])));
    assert_eq!(parse(" \t\r\n "), Ok(all(vec![])));
    assert_eq!(parse(""), Ok(Expression::default()));
}

#[test]
fn empty_requirement_holds_against_nothing_known() {
    let nothing = RequesiteRegistry::default();
    assert!(parse("").unwrap().eval(&nothing));
    let something = RequesiteRegistry::new(names(&["CSE 220"]), names(&["CSE 231"]));
    assert!(parse("").unwrap().eval(&something));
}

#[test]
fn single_prerequisite() {
    assert_eq!(parse("CSE 232"), Ok(all(vec![vec![pre("CSE 232")]])));
    assert_eq!(parse("PHY 183B"), Ok(all(vec![vec![pre("PHY 183B")]])));
    assert_eq!(parse("  LB 220  "), Ok(all(vec![vec![pre("LB 220")]])));
}

#[test]
fn class_name_keeps_its_inner_white_space() {
    assert_eq!(parse("CSE \t 232"), Ok(all(vec![vec![pre("CSE \t 232")]])));
}

#[test]
fn corequisite_with_and_without_ly() {
    assert_eq!(
        parse("CSE 220 or concurrently"),
        Ok(all(vec![vec![co("CSE 220")]]))
    );
    assert_eq!(
        parse("ECE 280 or concurrent"),
        Ok(all(vec![vec![co("ECE 280")]]))
    );
    assert_eq!(
        parse("ECE 280    or concurrently   "),
        Ok(all(vec![vec![co("ECE 280")]]))
    );
}

#[test]
fn or_binds_tighter_than_and() {
    assert_eq!(
        parse("AA 1 or BB 2 and CC 3"),
        Ok(all(vec![vec![pre("AA 1"), pre("BB 2")], vec![pre("CC 3")]]))
    );
    assert_eq!(
        parse("AA 1 and BB 2 or CC 3"),
        Ok(all(vec![vec![pre("AA 1")], vec![pre("BB 2"), pre("CC 3")]]))
    );
}

#[test]
fn precedence_decides_evaluation() {
    // (AA 1 or BB 2) and CC 3: with only AA 1 known the conjunction fails,
    // where AA 1 or (BB 2 and CC 3) would hold.
    let only_a = RequesiteRegistry::new(names(&["AA 1"]), vec![]);
    assert!(!parse("AA 1 or BB 2 and CC 3").unwrap().eval(&only_a));
    let a_and_c = RequesiteRegistry::new(names(&["AA 1", "CC 3"]), vec![]);
    assert!(parse("AA 1 or BB 2 and CC 3").unwrap().eval(&a_and_c));
}

#[test]
fn parentheses_nest() {
    assert_eq!(
        parse("FOO 100 or (CSE 220)"),
        Ok(all(vec![vec![
            pre("FOO 100"),
            nested(vec![vec![pre("CSE 220")]])
        ]]))
    );
    assert_eq!(
        parse("(CSE 220 or CSE 232) and (ECE 230 and (ECE 203 or concurrently))"),
        Ok(all(vec![
            vec![nested(vec![vec![pre("CSE 220"), pre("CSE 232")]])],
            vec![nested(vec![
                vec![pre("ECE 230")],
                vec![nested(vec![vec![co("ECE 203")]])]
            ])],
        ]))
    );
}

#[test]
fn conjunction_of_three() {
    assert_eq!(
        parse("FOO 100 and FOO 200 and FOO 300"),
        Ok(all(vec![
            vec![pre("FOO 100")],
            vec![pre("FOO 200")],
            vec![pre("FOO 300")]
        ]))
    );
}

#[test]
fn parsing_twice_gives_equal_trees() {
    let text = "(MTH 234 or MTH 254H) and (ECE 201 or concurrently)";
    assert_eq!(parse(text), parse(text));
    assert_eq!(parse("CSE"), parse("CSE"));
}

#[test]
fn evaluation_rules() {
    let registry = RequesiteRegistry::new(names(&["CSE 231"]), names(&["CSE 220"]));
    // a prerequisite must be completed
    assert!(parse("CSE 231").unwrap().eval(&registry));
    assert!(!parse("CSE 220").unwrap().eval(&registry));
    // a corequisite may be completed or concurrent
    assert!(parse("CSE 231 or concurrently").unwrap().eval(&registry));
    assert!(parse("CSE 220 or concurrently").unwrap().eval(&registry));
    assert!(!parse("CSE 999 or concurrently").unwrap().eval(&registry));
    // any member of a disjunction, every member of a conjunction
    assert!(parse("CSE 999 or CSE 231").unwrap().eval(&registry));
    assert!(!parse("CSE 999 and CSE 231").unwrap().eval(&registry));
    assert!(parse("(CSE 220 or concurrently) and CSE 231").unwrap().eval(&registry));
    // the empty disjunction does not hold, the empty conjunction does
    assert!(!OrExpression(vec![]).eval(&registry));
    assert!(AndExpression(vec![]).eval(&registry));
    assert!(AndExpression::default().eval(&registry));
}

#[test]
fn registry_answers() {
    let registry = RequesiteRegistry::new(names(&["CSE 231"]), names(&["CSE 220"]));
    assert!(registry.has_prerequisite("CSE 231"));
    assert!(!registry.has_prerequisite("CSE 220"));
    assert!(registry.has_corequisite("CSE 220"));
    assert!(!registry.has_corequisite("CSE 231"));
    let empty = RequesiteRegistry::default();
    assert!(!empty.has_prerequisite("CSE 231"));
    assert!(!empty.has_corequisite("CSE 231"));
}

fn error(position: usize, line: usize, column: usize, production: Production) -> ParseError {
    ParseError {
        position,
        line,
        column,
        production,
    }
}

#[test]
fn neither_class_name_nor_parenthesis() {
    assert_eq!(parse("junk"), Err(error(0, 1, 1, Production::Primary)));
    assert_eq!(parse("  123"), Err(error(2, 1, 3, Production::Primary)));
    assert_eq!(parse("()"), Err(error(1, 1, 2, Production::Primary)));
    assert_eq!(parse("Cse 232"), Err(error(1, 1, 2, Production::ClassName)));
}

#[test]
fn unfinished_class_name() {
    assert_eq!(parse("CSE"), Err(error(3, 1, 4, Production::ClassName)));
    assert_eq!(parse("CSE220"), Err(error(3, 1, 4, Production::ClassName)));
    assert_eq!(parse("CSE "), Err(error(4, 1, 5, Production::ClassName)));
    assert_eq!(parse("CSE x"), Err(error(4, 1, 5, Production::ClassName)));
}

#[test]
fn missing_closing_parenthesis() {
    assert_eq!(parse("(CSE 220"), Err(error(8, 1, 9, Production::Parenthesis)));
    assert_eq!(
        parse("(CSE 220 or CSE 232 and"),
        Err(error(20, 1, 21, Production::Parenthesis))
    );
    assert_eq!(
        parse("((CSE 220) )"),
        Err(error(10, 1, 11, Production::Parenthesis))
    );
}

#[test]
fn text_after_the_expression() {
    assert_eq!(parse("CSE 220 junk"), Err(error(8, 1, 9, Production::Toplevel)));
    assert_eq!(parse("CSE 220 or"), Err(error(8, 1, 9, Production::Toplevel)));
    assert_eq!(parse("CSE 220 and"), Err(error(8, 1, 9, Production::Toplevel)));
    assert_eq!(parse("CSE 220)"), Err(error(7, 1, 8, Production::Toplevel)));
    assert_eq!(
        parse("PHY 183BC"),
        Err(error(8, 1, 9, Production::Toplevel))
    );
    assert_eq!(
        parse("(CSE 220) or concurrently"),
        Err(error(10, 1, 11, Production::Toplevel))
    );
}

#[test]
fn errors_tell_line_and_column() {
    assert_eq!(
        parse("CSE 220 and\nCSE 231 or\n  junk"),
        Err(error(20, 2, 9, Production::Toplevel))
    );
    assert_eq!(
        parse("\n\n(CSE 220"),
        Err(error(10, 3, 9, Production::Parenthesis))
    );
}

#[test]
fn error_message_names_place_and_rule() {
    let e = parse("\n\n(CSE 220").unwrap_err();
    assert_eq!(
        e.message(),
        "line 3, column 9: in parenthesis: expected `)`"
    );
    assert_eq!(
        parse("junk").unwrap_err().message(),
        "line 1, column 1: in primary: expected a class name or `(`"
    );
    assert_eq!(
        parse("CSE").unwrap_err().message(),
        "line 1, column 4: in class_name: expected white space and a number"
    );
    assert_eq!(
        parse("CSE 1 x").unwrap_err().message(),
        "line 1, column 7: in toplevel: expected the end of the text"
    );
}

#[test]
fn non_ascii_text_is_refused() {
    assert_eq!(parse("ÉCO 101"), Err(error(0, 1, 1, Production::Primary)));
    assert_eq!(parse("CSE 220 é"), Err(error(8, 1, 9, Production::Toplevel)));
}

#[test]
fn character_classes() {
    assert!(is_uppercase('A') && is_uppercase('Z') && is_uppercase('M'));
    assert!(!is_uppercase('a') && !is_uppercase('0') && !is_uppercase('É') && !is_uppercase('['));
    assert!(is_numeric('0') && is_numeric('9') && is_numeric('5'));
    assert!(!is_numeric('a') && !is_numeric('/') && !is_numeric(':') && !is_numeric('٣'));
}

#[test]
fn rendering_is_canonical() {
    assert_eq!(all(vec![]).render(), "");
    assert_eq!(all(vec![vec![pre("CSE 232")]]).render(), "CSE 232");
    assert_eq!(
        all(vec![vec![co("CSE 220")]]).render(),
        "CSE 220 or concurrently"
    );
    assert_eq!(
        all(vec![vec![pre("AA 1"), pre("BB 2")], vec![pre("CC 3")]]).render(),
        "AA 1 or BB 2 and CC 3"
    );
    assert_eq!(
        all(vec![vec![
            pre("AA 1"),
            nested(vec![vec![pre("BB 2")], vec![co("CC 3"), pre("DD 4E")]])
        ]])
        .render(),
        "AA 1 or (BB 2 and CC 3 or concurrently or DD 4E)"
    );
    assert_eq!(
        parse("  CSE 220   or\tCSE 1 and(LB 7)").unwrap().render(),
        "CSE 220 or CSE 1 and (LB 7)"
    );
    assert_eq!(pre("CSE 232").render(), "CSE 232");
    assert_eq!(
        OrExpression(vec![pre("AA 1"), co("BB 2")]).render(),
        "AA 1 or BB 2 or concurrently"
    );
    assert_eq!(
        AndExpression(vec![OrExpression(vec![pre("AA 1")]), OrExpression(vec![pre("BB 2")])])
            .render(),
        "AA 1 and BB 2"
    );
}

#[test]
fn parsing_undoes_rendering() {
    let trees = vec![
        all(vec![]),
        all(vec![vec![pre("CSE 232")]]),
        all(vec![vec![co("CSE  232X")]]),
        all(vec![vec![pre("AA 1"), pre("BB 2")], vec![pre("CC 3")]]),
        all(vec![vec![pre("AA 1")], vec![pre("BB 2"), pre("CC 3")]]),
        all(vec![vec![co("AA 1"), co("BB 2")], vec![co("CC 3")]]),
        all(vec![vec![nested(vec![vec![nested(vec![vec![co("AA 1")]])]])]]),
        all(vec![
            vec![nested(vec![vec![pre("CSE 220"), pre("CSE 232")]])],
            vec![nested(vec![
                vec![pre("ECE 230")],
                vec![nested(vec![vec![co("ECE 203")]]), pre("A\t\n1")],
            ])],
        ]),
    ];
    for tree in trees {
        let text = tree.render();
        assert_eq!(parse(&text), Ok(tree), "on {text:?}");
    }
}

#[test]
fn parsing_undoes_rendering_of_parsed_texts() {
    let texts = [
        "((PHY 183 or concurrently) or (PHY 193H or concurrently) or PHY 183B) or (PHY 231 and (PHY 233B or concurrently)) or (PHY 231C and (PHY 233B or concurrently))",
        "MTH 234 or MTH 254H or LB 220",
        "(ECE 201) and ((MTH 235 or concurrently) or MTH 340 or MTH 347H)",
        "ECE 203 and (ECE 302 or concurrently) and (ECE 280 or concurrent)",
    ];
    for text in texts {
        let tree = parse(text).unwrap();
        let rendered = tree.render();
        assert_eq!(parse(&rendered), Ok(tree));
    }
    // texts that are canonical already come back unchanged
    assert_eq!(parse(texts[1]).unwrap().render(), texts[1]);
    assert_eq!(parse(texts[2]).unwrap().render(), texts[2]);
}

#[test]
fn error_excerpt_points_at_the_place() {
    let text = "CSE 220 and\nCSE 231 or\n  junk";
    let e = parse(text).unwrap_err();
    assert_eq!(e.excerpt(text), "CSE 231 or\n        ^");
    let text = "(CSE 220";
    assert_eq!(parse(text).unwrap_err().excerpt(text), "(CSE 220\n        ^");
    let text = "junk";
    assert_eq!(parse(text).unwrap_err().excerpt(text), "junk\n^");
    let text = "CSE 1 and\n\n\nx";
    let e = parse(text).unwrap_err();
    assert_eq!((e.line, e.column), (1, 7));
    assert_eq!(e.excerpt(text), "CSE 1 and\n      ^");
    // a position after the text counts as its end
    let far = ParseError {
        position: 99,
        line: 1,
        column: 100,
        production: Production::Toplevel,
    };
    assert_eq!(far.excerpt("ab\ncd"), "cd\n  ^");
    assert_eq!(far.excerpt(""), "\n^");
}
