use bool_expr_parser_nom::ast::{Atom, AstNode, ComparisonOp, Date, Decimal, LogicOp};
use bool_expr_parser_nom::context::Context;
use bool_expr_parser_nom::eval::{eval, EvalError};
use bool_expr_parser_nom::parse::{parse, parse_string_value, ParseError};
use std::cmp::Ordering;

fn s(t: &str) -> Atom {
    Atom::String(t.to_string())
}

fn v(t: &str) -> Atom {
    Atom::Variable(t.to_string())
}

fn dec(mantissa: i64, scale: u32) -> Atom {
    Atom::Float(Decimal { mantissa, scale })
}

fn run(rule: &str, context: &Context) -> Result<bool, EvalError> {
    let (rest, ast) = parse(rule).unwrap();
    assert_eq!(rest, "");
    eval(&ast, context)
}

fn scenario_a_context(user_id: i32) -> Context {
    let mut c = Context::new();
    c.insert("accountRole", s("Admin/Order Manager"));
    c.insert("account_country_code", s("lt"));
    c.insert("user_id", Atom::Number(user_id));
    c
}

const SCENARIO_A: &str = r#"accountRole in (Admin, admin, "Admin/Order Manager") and upper(account_country_code) in (LT, NL, DE, GB, US) and user_id <= 2032313"#;

#[test]
fn scenario_a_holds() {
    assert_eq!(run(SCENARIO_A, &scenario_a_context(2032312)), Ok(true));
}

#[test]
fn scenario_c_bound_exceeded() {
    assert_eq!(run(SCENARIO_A, &scenario_a_context(2032314)), Ok(false));
}

#[test]
fn scenario_b_scoped() {
    let rule = r#"accountRole in (Admin, "Admin/Order Manager") and ((lower(account_country_code) == lt or account_uuid = 32434) and accountType = "Some Corporate & Managament Type") and user_id == 2032312"#;
    let mut c = Context::new();
    c.insert("accountRole", s("Admin/Order Manager"));
    c.insert("account_country_code", s("LT"));
    c.insert("account_uuid", s("x"));
    c.insert("accountType", s("Some Corporate & Managament Type"));
    c.insert("user_id", Atom::Number(2032312));
    assert_eq!(run(rule, &c), Ok(true));
}

#[test]
fn scenario_d_missing_variable() {
    let c = Context::new();
    assert_eq!(
        run("accountRole in (Admin)", &c),
        Err(EvalError::UnknownVariable("accountRole".to_string()))
    );
}

#[test]
fn string_and_word_equal_both_ways() {
    assert!(s("Admin") == v("Admin"));
    assert!(v("Admin") == s("Admin"));
    assert!(s("Admin") != v("admin"));
}

#[test]
fn numeric_widening() {
    assert!(Atom::Number(5) < dec(55, 1));
    assert!(Atom::Number(5) == dec(50, 1));
    assert!(dec(5, 0) == Atom::Number(5));
    assert_eq!(dec(25, 1).partial_cmp(&dec(3, 0)), Some(Ordering::Less));
    assert_eq!(dec(-1, 30).partial_cmp(&Atom::Number(0)), Some(Ordering::Less));
    assert_eq!(s("a").partial_cmp(&Atom::Number(1)), None);
    assert!(Atom::Number(1) != s("1"));
}

#[test]
fn other_kinds_compare_within_kind() {
    assert!(Atom::Boolean(true) == Atom::Boolean(true));
    assert!(Atom::Boolean(true) != Atom::Boolean(false));
    assert!(Atom::Date(Date { days_from_ce: 3 }) == Atom::Date(Date { days_from_ce: 3 }));
    assert!(Atom::Date(Date { days_from_ce: 3 }) != Atom::Date(Date { days_from_ce: 4 }));
    assert!(Atom::DateTime("x".to_string()) != s("x"));
}

#[test]
fn and_short_circuits_over_errors() {
    let c = Context::new();
    assert_eq!(run("1 == 2 and missing == 1", &c), Ok(false));
    assert_eq!(run("1 == 1 or missing == 1", &c), Ok(true));
    assert_eq!(
        run("1 == 1 and missing == 1", &c),
        Err(EvalError::UnknownVariable("missing".to_string()))
    );
}

#[test]
fn and_binds_tighter_than_or() {
    let c = Context::new();
    assert_eq!(run("1 == 1 or 1 == 2 and 1 == 2", &c), Ok(true));
    assert_eq!(run("(1 == 1 or 1 == 2) and 1 == 2", &c), Ok(false));
}

#[test]
fn negated_scopes() {
    let c = Context::new();
    assert_eq!(run("not (1 == 1)", &c), Ok(false));
    assert_eq!(run("!(1 == 2)", &c), Ok(true));
    assert_eq!(run("NOT (1 == 2 || 2 == 2)", &c), Ok(false));
    assert_eq!(run("!(!(1 == 1))", &c), Ok(true));
}

#[test]
fn comparison_operators() {
    let mut c = Context::new();
    c.insert("x", Atom::Number(3));
    assert_eq!(run("x > 2", &c), Ok(true));
    assert_eq!(run("x >= 3", &c), Ok(true));
    assert_eq!(run("x < 3", &c), Ok(false));
    assert_eq!(run("x <= 2.5", &c), Ok(false));
    assert_eq!(run("x != 3", &c), Ok(false));
    assert_eq!(run("x <> 4", &c), Ok(true));
    assert_eq!(run("x = 3.0", &c), Ok(true));
    assert_eq!(run("x == 3", &c), Ok(true));
}

#[test]
fn ordering_of_text_is_an_error() {
    let mut c = Context::new();
    c.insert("x", s("a"));
    assert_eq!(run("x > 2", &c), Err(EvalError::NotComparable));
    assert_eq!(run("x == 2", &c), Ok(false));
}

#[test]
fn case_function_on_number_is_an_error() {
    let mut c = Context::new();
    c.insert("x", Atom::Number(1));
    assert_eq!(run("upper(x) == A", &c), Err(EvalError::NotText));
}

#[test]
fn case_functions_change_the_text() {
    let mut c = Context::new();
    c.insert("x", s("MiXed"));
    assert_eq!(run(r#"upper(x) == "MIXED""#, &c), Ok(true));
    assert_eq!(run(r#"lower(x) == "mixed""#, &c), Ok(true));
    assert_eq!(run(r#"UPPER(x) == "MiXed""#, &c), Ok(false));
}

#[test]
fn empty_list_excludes() {
    let mut c = Context::new();
    c.insert("x", s("a"));
    assert_eq!(run("x in ()", &c), Ok(false));
    assert_eq!(run("x not in ()", &c), Ok(true));
    assert_eq!(run("x NOT IN (b, \"a\")", &c), Ok(false));
}

#[test]
fn booleans_and_bare_terms() {
    let mut c = Context::new();
    c.insert("flag", Atom::Boolean(true));
    c.insert("name", s("n"));
    assert_eq!(run("flag", &c), Ok(true));
    assert_eq!(run("flag == TRUE", &c), Ok(true));
    assert_eq!(run("flag == false", &c), Ok(false));
    assert_eq!(run("name", &c), Err(EvalError::NotBoolean));
}

#[test]
fn later_binding_replaces_earlier() {
    let mut c = Context::new();
    c.insert("x", Atom::Number(1));
    c.insert("x", Atom::Number(2));
    assert_eq!(run("x == 2", &c), Ok(true));
    assert!(c.get("x") == Some(&Atom::Number(2)));
    assert!(c.get("y").is_none());
}

#[test]
fn void_and_list_nodes() {
    let c = Context::new();
    assert_eq!(eval(&AstNode::Void, &c), Ok(false));
    assert_eq!(eval(&AstNode::List(vec![]), &c), Err(EvalError::Malformed));
}

#[test]
fn remainder_is_returned() {
    let (rest, _) = parse("a == 1  ) tail").unwrap();
    assert_eq!(rest, ") tail");
}

#[test]
fn parse_errors() {
    assert_eq!(parse("").unwrap_err(), ParseError::Unexpected(0));
    assert_eq!(parse("a == \"open").unwrap_err(), ParseError::UnterminatedString(5));
    assert_eq!(parse("a == 99999999999").unwrap_err(), ParseError::NumberTooLarge(5));
    assert_eq!(parse("(a == 1").unwrap_err(), ParseError::Unexpected(7));
    assert_eq!(parse("a in (b c)").unwrap_err(), ParseError::Unexpected(8));
    let deep = format!("{}a == 1{}", "(".repeat(100), ")".repeat(100));
    assert_eq!(parse(&deep).unwrap_err(), ParseError::TooDeep(64));
}

#[test]
fn parsed_shapes() {
    let (_, ast) = parse("x == 2.25").unwrap();
    match ast {
        AstNode::Compare(l, op, r) => {
            assert_eq!(l.as_str(), Some("x"));
            assert_eq!(op, ComparisonOp::Eq);
            match *r {
                AstNode::Constant(Atom::Float(d)) => {
                    assert_eq!(d, Decimal { mantissa: 225, scale: 2 })
                }
                _ => panic!("expected a decimal"),
            }
        }
        _ => panic!("expected a comparison"),
    }
    let (_, ast) = parse("x == word").unwrap();
    match ast {
        AstNode::Compare(_, _, r) => {
            assert!(matches!(*r, AstNode::Constant(Atom::Variable(_))));
            assert_eq!(r.as_str(), Some("word"));
        }
        _ => panic!("expected a comparison"),
    }
    assert_eq!(AstNode::Constant(Atom::Number(1)).as_str(), None);
}

#[test]
fn operators_from_text() {
    assert_eq!(ComparisonOp::from_str("=="), ComparisonOp::Eq);
    assert_eq!(ComparisonOp::from_str("="), ComparisonOp::Eq);
    assert_eq!(ComparisonOp::from_str(">"), ComparisonOp::More);
    assert_eq!(ComparisonOp::from_str(">="), ComparisonOp::MoreEq);
    assert_eq!(ComparisonOp::from_str("<"), ComparisonOp::Less);
    assert_eq!(ComparisonOp::from_str("<="), ComparisonOp::LessEq);
    assert_eq!(ComparisonOp::from_str("!="), ComparisonOp::NotEq);
    assert_eq!(ComparisonOp::from_str("<>"), ComparisonOp::NotEq);
    assert_eq!(LogicOp::from_str("AND"), LogicOp::And);
    assert_eq!(LogicOp::from_str("&&"), LogicOp::And);
    assert_eq!(LogicOp::from_str("Or"), LogicOp::Or);
    assert_eq!(LogicOp::from_str("||"), LogicOp::Or);
}

#[test]
fn evaluation_repeats() {
    let c = scenario_a_context(2032312);
    let (_, ast) = parse(SCENARIO_A).unwrap();
    assert_eq!(eval(&ast, &c), eval(&ast, &c));
}

#[test]
fn atom_text_forms() {
    assert_eq!(Atom::Number(2032312).to_text(), "2032312");
    assert_eq!(Atom::Number(-7).to_text(), "-7");
    assert_eq!(Atom::Number(0).to_text(), "0");
    assert_eq!(dec(55, 1).to_text(), "5.5");
    assert_eq!(dec(5, 2).to_text(), "0.05");
    assert_eq!(dec(-125, 2).to_text(), "-1.25");
    assert_eq!(dec(7, 0).to_text(), "7");
    assert_eq!(Atom::Boolean(true).to_text(), "true");
    assert_eq!(Atom::Boolean(false).to_text(), "false");
    assert_eq!(s("Admin").to_text(), "Admin");
    assert_eq!(v("lt").to_text(), "lt");
    assert_eq!(Atom::Date(Date { days_from_ce: 738886 }).to_text(), "2024-01-01");
    assert_eq!(Atom::Date(Date { days_from_ce: 1 }).to_text(), "0001-01-01");
    assert_eq!(Atom::Date(Date { days_from_ce: i32::MAX }).to_text(), "2147483647");
}

#[test]
fn operator_text_reads_back() {
    for op in [
        ComparisonOp::Eq,
        ComparisonOp::More,
        ComparisonOp::Less,
        ComparisonOp::MoreEq,
        ComparisonOp::LessEq,
        ComparisonOp::NotEq,
    ] {
        assert_eq!(ComparisonOp::from_str(&op.to_text()), op);
    }
    assert_eq!(ComparisonOp::NotEq.to_text(), "<>");
}

fn tree(rule: &str) -> AstNode {
    let (rest, ast) = parse(rule).unwrap();
    assert_eq!(rest, "");
    ast
}

#[test]
fn demo_rule_is_an_or_of_two_comparisons() {
    let ast = tree(r#"street_name ="Random this or that" OR countryCode = "123 NL 123""#);
    match ast {
        AstNode::Logic(l, op, r) => {
            assert_eq!(op, LogicOp::Or);
            match (*l, *r) {
                (AstNode::Compare(a, ComparisonOp::Eq, b), AstNode::Compare(c, ComparisonOp::Eq, d)) => {
                    assert_eq!(a.as_str(), Some("street_name"));
                    assert_eq!(b.as_str(), Some("Random this or that"));
                    assert_eq!(c.as_str(), Some("countryCode"));
                    assert_eq!(d.as_str(), Some("123 NL 123"));
                }
                _ => panic!("expected two comparisons"),
            }
        }
        _ => panic!("expected a disjunction"),
    }
}

#[test]
fn assignment_leaves_the_rest() {
    let (rest, ast) = parse(r#"street_name ="Random this or that" ) c = "1""#).unwrap();
    assert_eq!(rest, r#") c = "1""#);
    assert!(matches!(ast, AstNode::Compare(_, ComparisonOp::Eq, _)));
}

#[test]
fn upper_case_and_joins_two_comparisons() {
    let ast = tree(r#"a="1" AND b="2""#);
    assert!(matches!(ast, AstNode::Logic(_, LogicOp::And, _)));
}

#[test]
fn whitespace_and_keyword_case_do_not_change_the_tree() {
    assert_eq!(tree(r#"a = "1" and b = "2""#), tree("a=\"1\"\n\tAND  b=\"2\""));
    assert_eq!(tree(r#"a = "1" or b = "2""#), tree(r#"a="1"||b="2""#));
    assert_eq!(tree("x in (a, b)"), tree("x IN(a,b)"));
}

#[test]
fn and_groups_before_or_and_chains_group_left() {
    let ast = tree("a == 1 or b == 2 and c == 3");
    match ast {
        AstNode::Logic(_, LogicOp::Or, r) => assert!(matches!(*r, AstNode::Logic(_, LogicOp::And, _))),
        _ => panic!("expected a disjunction at the top"),
    }
    let ast = tree("a == 1 and b == 2 and c == 3");
    match ast {
        AstNode::Logic(l, LogicOp::And, r) => {
            assert!(matches!(*l, AstNode::Logic(_, LogicOp::And, _)));
            assert!(matches!(*r, AstNode::Compare(..)));
        }
        _ => panic!("expected a conjunction at the top"),
    }
}

#[test]
fn cloned_tree_is_equal() {
    let ast = tree(SCENARIO_A);
    assert_eq!(ast.clone(), ast);
}

#[test]
fn string_value_needs_an_opening_quote() {
    let text: Vec<char> = "x\"a\"".chars().collect();
    assert_eq!(parse_string_value(&text, 0), None);
    assert_eq!(parse_string_value(&text, 1), Some(3));
    let open: Vec<char> = "\"abc".chars().collect();
    assert_eq!(parse_string_value(&open, 0), None);
}
