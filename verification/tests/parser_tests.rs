use atc_router::ast::{BinaryOperator, Expression, LhsTransformations, LogicalExpression, Value};
use atc_router::parser::parse;

fn message(input: &str) -> String {
    parse(input).unwrap_err().to_string()
}

#[test]
fn test_bad_syntax() {
    assert_eq!(
        message("! a == 1"),
        "! a == 1\n  ^\ninvalid parenthesised expression\nexpected `(`"
    );
    assert_eq!(
        message("a == 1 || ! b == 2"),
        "a == 1 || ! b == 2\n            ^\ninvalid parenthesised expression\nexpected `(`"
    );
    assert_eq!(
        message("(a == 1 || b == 2) && ! c == 3"),
        "(a == 1 || b == 2) && ! c == 3\n                        ^\ninvalid parenthesised expression\nexpected `(`"
    );
    assert_eq!(
        message(r##"a ~ "[""##),
        "a ~ \"[\"\n    ^\ninvalid regex\nregex parse error:\n    [\n    ^\nerror: unclosed character class"
    );
}

#[test]
fn unclosed_parens() {
    assert_eq!(
        message(r#"lower(abc"#),
        "lower(abc\n         ^\ninvalid lhs\nexpected `)`"
    );
}

#[test]
fn trailing_garbage() {
    assert_eq!(
        message(r#"a == 1 garbage"#),
        "a == 1 garbage\n       ^\nexpected eof, `&&`, `||`"
    );
}

#[test]
fn empty_text_and_dangling_operator() {
    assert_eq!(message(""), "\n^\ninvalid expression");
    assert_eq!(message("a == 1 && "), "a == 1 && \n         ^\ninvalid expression");
}

#[test]
fn unknown_transformation_and_operator() {
    assert_eq!(
        message("upper(a) == \"x\""),
        "upper(a) == \"x\"\n^\ninvalid transform function\nexpected `lower`, `any`"
    );
    assert_eq!(
        message("a = 1"),
        "a = 1\n  ^\ninvalid binary operator\nexpected `==`, `!=`, `~`, `^=`, `=^`, `>=`, `>`, `<=`, `<`, `not in`, `in`, `contains`"
    );
}

#[test]
fn string_errors() {
    assert_eq!(
        message("a == \"x\\q\""),
        "a == \"x\\q\"\n        ^\ninvalid escape sequence\nexpected `\\`, `\"`, `n`, `r`, `t`"
    );
    assert_eq!(message("a == \"abc"), "a == \"abc\n      ^\ninvalid string\nexpected `\"`");
    assert_eq!(message("a == r#\"abc"), "a == r#\"abc\n        ^\ninvalid raw string");
}

#[test]
fn message_on_several_lines() {
    assert_eq!(
        message("a == 1 &&\nb = 2"),
        "parse error at line 2, column 3\n  |\n2 | b = 2\n  |   ^\ninvalid binary operator\nexpected `==`, `!=`, `~`, `^=`, `=^`, `>=`, `>`, `<=`, `<`, `not in`, `in`, `contains`"
    );
}

#[test]
fn caret_counts_bytes() {
    assert_eq!(message("é == 1"), "é == 1\n^\ninvalid lhs");
    assert_eq!(message("a == \"é\" x"), "a == \"é\" x\n          ^\nexpected eof, `&&`, `||`");
}

#[test]
fn integers() {
    let cases = vec![
        ("a == 0", 0),
        ("a == 09", 9),
        ("a == 0x1F", 31),
        ("a == -0x10", -16),
        ("a == 017", 15),
        ("a == 9223372036854775807", i64::MAX),
        ("a == -9223372036854775807", -i64::MAX),
    ];
    for (input, expected) in cases {
        match parse(input).unwrap() {
            Expression::Predicate(p) => assert_eq!(p.rhs, Value::Int(expected), "{}", input),
            _ => panic!("not a predicate"),
        }
    }
    assert!(parse("a == 9223372036854775808").is_err());
    assert!(parse("a == 0x").is_err());
}

#[test]
fn precedence_and_grouping() {
    let e = parse("a == 1 || b == 2 && c == 3").unwrap();
    match e {
        Expression::Logical(l) => match *l {
            LogicalExpression::And(x, _) => match x {
                Expression::Logical(inner) => {
                    assert!(matches!(*inner, LogicalExpression::Or(_, _)))
                }
                _ => panic!("left of && should be ||"),
            },
            _ => panic!("top should be &&"),
        },
        _ => panic!("top should be logical"),
    }
}

#[test]
fn lhs_and_operators() {
    match parse("lower(any(x.y_z)) not   in 10.0.0.0/8").unwrap() {
        Expression::Predicate(p) => {
            assert_eq!(p.lhs.var_name, "x.y_z");
            assert_eq!(
                p.lhs.transformations,
                vec![LhsTransformations::Any, LhsTransformations::Lower]
            );
            assert_eq!(p.op, BinaryOperator::NotIn);
        }
        _ => panic!("not a predicate"),
    }
    match parse("a contains \"b\"").unwrap() {
        Expression::Predicate(p) => assert_eq!(p.op, BinaryOperator::Contains),
        _ => panic!("not a predicate"),
    }
    match parse("!(a == 1)").unwrap() {
        Expression::Logical(l) => assert!(matches!(*l, LogicalExpression::Not(_))),
        _ => panic!("not a negation"),
    }
}
