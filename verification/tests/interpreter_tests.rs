use atc_router::ast::{self, BinaryOperator, Predicate, Value};
use atc_router::context::{Context, Match};
use atc_router::interpreter::Execute;
use atc_router::schema;

fn pred(transformations: Vec<ast::LhsTransformations>, rhs: &str, op: BinaryOperator) -> Predicate {
    Predicate {
        lhs: ast::Lhs {
            var_name: "my_key".to_string(),
            transformations,
        },
        rhs: Value::String(rhs.to_string()),
        op,
    }
}

#[test]
fn test_predicate() {
    let mut mat = Match::new();
    let mut schema = schema::Schema::default();
    schema.add_field("my_key", ast::Type::String);
    let mut ctx = Context::new(&schema);

    // check when value list is empty
    // check if all values match starts_with foo -- should be false
    let p = pred(vec![], "foo", BinaryOperator::Prefix);
    assert!(!p.execute(&ctx, &mut mat));

    // check if any value matches starts_with foo -- should be false
    let p = pred(vec![], "foo", BinaryOperator::Prefix);
    assert!(!p.execute(&ctx, &mut mat));

    // test any mode
    let lhs_values = vec![
        Value::String("foofoo".to_string()),
        Value::String("foobar".to_string()),
        Value::String("foocar".to_string()),
        Value::String("fooban".to_string()),
    ];

    for v in lhs_values {
        ctx.add_value("my_key", v);
    }

    // check if all values match starts_with foo -- should be true
    let p = pred(vec![], "foo", BinaryOperator::Prefix);
    assert!(p.execute(&ctx, &mut mat));

    // check if all values match ends_with foo -- should be false
    let p = pred(vec![], "foo", BinaryOperator::Postfix);
    assert!(!p.execute(&ctx, &mut mat));

    // check if any value matches ends_with foo -- should be true
    let p = pred(vec![ast::LhsTransformations::Any], "foo", BinaryOperator::Postfix);
    assert!(p.execute(&ctx, &mut mat));

    // check if any value matches starts_with foo -- should be true
    let p = pred(vec![ast::LhsTransformations::Any], "foo", BinaryOperator::Prefix);
    assert!(p.execute(&ctx, &mut mat));

    // check if any value matches ends_with nar -- should be false
    let p = pred(vec![ast::LhsTransformations::Any], "nar", BinaryOperator::Postfix);
    assert!(!p.execute(&ctx, &mut mat));

    // check if any value matches ends_with empty string -- should be true
    let p = pred(vec![ast::LhsTransformations::Any], "", BinaryOperator::Postfix);
    assert!(p.execute(&ctx, &mut mat));

    // check if any value matches starts_with empty string -- should be true
    let p = pred(vec![ast::LhsTransformations::Any], "", BinaryOperator::Prefix);
    assert!(p.execute(&ctx, &mut mat));

    // check if any value matches contains `ob` -- should be true
    let p = pred(vec![ast::LhsTransformations::Any], "ob", BinaryOperator::Contains);
    assert!(p.execute(&ctx, &mut mat));

    // check if any value matches contains `ok` -- should be false
    let p = pred(vec![ast::LhsTransformations::Any], "ok", BinaryOperator::Contains);
    assert!(!p.execute(&ctx, &mut mat));
}

#[test]
fn lower_compares_the_lower_case_text() {
    let mut schema = schema::Schema::default();
    schema.add_field("my_key", ast::Type::String);
    let mut ctx = Context::new(&schema);
    ctx.add_value("my_key", Value::String("FooBAR".to_string()));
    let mut mat = Match::new();
    let p = pred(vec![ast::LhsTransformations::Lower], "foobar", BinaryOperator::Equals);
    assert!(p.execute(&ctx, &mut mat));
    let p = pred(vec![], "foobar", BinaryOperator::Equals);
    assert!(!p.execute(&ctx, &mut mat));
}

#[test]
fn ip_and_int_operators() {
    let mut schema = schema::Schema::default();
    schema.add_field("ip", ast::Type::IpAddr);
    schema.add_field("n", ast::Type::Int);
    let mut ctx = Context::new(&schema);
    ctx.add_value("ip", Value::IpAddr(ast::IpAddr::V4(0x0a000001)));
    ctx.add_value("n", Value::Int(-5));
    let e = atc_router::parser::parse("ip in 10.0.0.0/8 && n < 0 && n >= -5 && ip not in fd00::/8").unwrap();
    let mut mat = Match::new();
    assert!(e.execute(&ctx, &mut mat));
    let e = atc_router::parser::parse("ip in 11.0.0.0/8 || n > -5").unwrap();
    assert!(!e.execute(&ctx, &mut mat));
}
