use atc_router::ast::BinaryOperator;
use atc_router::parser::parse;
use atc_router::ast::Type;
use atc_router::predicates::{
    used_fields_and_operators, BinaryOperatorFlags, ATC_ROUTER_EXPRESSION_VALIDATE_BUF_TOO_SMALL,
    ATC_ROUTER_EXPRESSION_VALIDATE_FAILED, ATC_ROUTER_EXPRESSION_VALIDATE_OK,
};

fn flags(ops: &[BinaryOperator]) -> u64 {
    let mut f = BinaryOperatorFlags::empty();
    for op in ops {
        f = f.union(BinaryOperatorFlags::from_operator(op));
    }
    f.bits()
}

#[test]
fn fields_and_operators_of_an_expression() {
    let atc = r##"net.protocol ~ "^https?$" && net.dst.port == 80 && (net.src.ip not in 10.0.0.0/16 || net.src.ip in 10.0.1.0/24) && http.path contains "hello""##;
    let expr = parse(atc).unwrap();
    let (fields, ops) = used_fields_and_operators(&expr);
    assert_eq!(
        ops.bits(),
        flags(&[
            BinaryOperator::Equals,
            BinaryOperator::Regex,
            BinaryOperator::In,
            BinaryOperator::NotIn,
            BinaryOperator::Contains
        ])
    );
    let total: usize = fields.iter().map(|f| f.len() + 1).sum();
    assert_eq!(total, 47);
    let mut sorted = fields.clone();
    sorted.sort();
    assert_eq!(sorted, vec!["http.path", "net.dst.port", "net.protocol", "net.src.ip"]);
}

#[test]
fn predicates_are_walked_right_operand_first() {
    let expr = parse(r#"a == 1 && (b == 2 || !(c == 3))"#).unwrap();
    let mut it = expr.iter_predicates();
    let mut names = Vec::new();
    while let Some(p) = it.next() {
        names.push(p.lhs.var_name.clone());
    }
    assert_eq!(names, vec!["c", "b", "a"]);
    let (fields, _) = used_fields_and_operators(&expr);
    assert_eq!(fields, vec!["c", "b", "a"]);
}

#[test]
fn repeated_fields_are_listed_once() {
    let expr = parse(r#"a == 1 || a == 2 || b ^= "x""#).unwrap();
    let (fields, ops) = used_fields_and_operators(&expr);
    assert_eq!(fields, vec!["b", "a"]);
    assert_eq!(ops.bits(), 0x1 | 0x8);
}

fn expr_validate_on(
    schema: &atc_router::schema::Schema,
    atc: &str,
    fields_buf_size: usize,
) -> Result<(Vec<String>, usize, u64), (i64, String)> {
    atc_router::predicates::validate_expression(atc, schema, fields_buf_size).map(
        |(mut fields, len, ops)| {
            fields.sort();
            (fields, len, ops)
        },
    )
}

fn validation_schema(with_path: bool) -> atc_router::schema::Schema {
    let mut schema = atc_router::schema::Schema::default();
    schema.add_field("net.protocol", Type::String);
    schema.add_field("net.dst.port", Type::Int);
    schema.add_field("net.src.ip", Type::IpAddr);
    if with_path {
        schema.add_field("http.path", Type::String);
    }
    schema
}

#[test]
fn test_expression_validate_success() {
    let atc = r##"net.protocol ~ "^https?$" && net.dst.port == 80 && (net.src.ip not in 10.0.0.0/16 || net.src.ip in 10.0.1.0/24) && http.path contains "hello""##;
    let schema = validation_schema(true);

    let result = expr_validate_on(&schema, atc, 47);

    assert!(result.is_ok(), "Validation failed");
    let (fields, fields_buf_len, ops) = result.unwrap();
    assert_eq!(
        ops,
        flags(&[
            BinaryOperator::Equals,
            BinaryOperator::Regex,
            BinaryOperator::In,
            BinaryOperator::NotIn,
            BinaryOperator::Contains
        ]),
        "Operators mismatch"
    );
    assert_eq!(
        fields,
        vec![
            "http.path".to_string(),
            "net.dst.port".to_string(),
            "net.protocol".to_string(),
            "net.src.ip".to_string()
        ],
        "Fields mismatch"
    );
    assert_eq!(fields_buf_len, 47, "Fields buffer length mismatch");
    assert_eq!(ATC_ROUTER_EXPRESSION_VALIDATE_OK, 0);
}

#[test]
fn test_expression_validate_failed_parse() {
    let atc = r##"net.protocol ~ "^https?$" && net.dst.port == 80 && (net.src.ip not in 10.0.0.0/16 || net.src.ip in 10.0.1.0) && http.path contains "hello""##;
    let schema = validation_schema(true);

    let result = expr_validate_on(&schema, atc, 1024);

    assert!(result.is_err(), "Validation unexcepted success");
    let (err_code, err_message) = result.unwrap_err();
    assert_eq!(err_code, ATC_ROUTER_EXPRESSION_VALIDATE_FAILED, "Error code mismatch");
    assert_eq!(
        err_message,
        "In/NotIn operators only supports IP in CIDR".to_string(),
        "Error message mismatch"
    );
}

#[test]
fn test_expression_validate_failed_validate() {
    let atc = r##"net.protocol ~ "^https?$" && net.dst.port == 80 && (net.src.ip not in 10.0.0.0/16 || net.src.ip in 10.0.1.0/24) && http.path contains "hello""##;
    let schema = validation_schema(false);

    let result = expr_validate_on(&schema, atc, 1024);

    assert!(result.is_err(), "Validation unexcepted success");
    let (err_code, err_message) = result.unwrap_err();
    assert_eq!(err_code, ATC_ROUTER_EXPRESSION_VALIDATE_FAILED, "Error code mismatch");
    assert_eq!(err_message, "Unknown LHS field".to_string(), "Error message mismatch");
}

#[test]
fn test_expression_validate_buf_too_small() {
    let atc = r##"net.protocol ~ "^https?$" && net.dst.port == 80 && (net.src.ip not in 10.0.0.0/16 || net.src.ip in 10.0.1.0/24) && http.path contains "hello""##;
    let schema = validation_schema(true);

    let result = expr_validate_on(&schema, atc, 46);

    assert!(result.is_err(), "Validation failed");
    let (err_code, _) = result.unwrap_err();
    assert_eq!(err_code, ATC_ROUTER_EXPRESSION_VALIDATE_BUF_TOO_SMALL, "Error code mismatch");
}

#[test]
fn parse_errors_are_reported_with_their_message() {
    let schema = validation_schema(true);
    let (code, message) = expr_validate_on(&schema, "a ==", 1024).unwrap_err();
    assert_eq!(code, 1);
    assert_eq!(message, atc_router::parser::parse("a ==").unwrap_err().to_string());
}
