use atc_router::ast::{Type, Value};
use atc_router::cir::{CirProgram, Translate};
use atc_router::context::{Context, Match};
use atc_router::interpreter::Execute;
use atc_router::lir::{LirInstruction, LirLogicalOperator};
use atc_router::linear::{Lir, LirCode, LirLogicalOperators};
use atc_router::parser::parse;
use atc_router::router::Router;
use atc_router::schema::Schema;
use atc_router::semantics::FieldCounter;
use atc_router::strmap::StrMap;
use uuid::Uuid;

#[test]
fn verify_translate_execute() {
    let mut schema = Schema::default();
    schema.add_field("a", Type::Int);
    schema.add_field("http.path", Type::String);
    schema.add_field("http.version", Type::String);

    let exprs = vec![
        r#"a == 5 "#,
        r#"!(!(a == 1 && a == 2) || a == 3 && !(a == 4))"#,
        r#"!(( a == 2) && ( a == 9 )) || !(a == 1) || (http.path == "hello" && http.version == "1.1") || ( a == 3 && a == 4) && !(a == 5)"#,
        r#"(http.path == "hello" && http.version == "1.1") || !(( a == 2) && ( a == 9 )) || !(a == 1) || ( a == 5 && a == 4) && !(a == 3)"#,
        r#"(http.path == "hello" && http.version == "1.1") || ( a == 3 && a == 4) && !(a == 5)"#,
        r#"http.path == "hello" && http.version == "1.1""#,
    ];

    let mut context = Context::new(&schema);
    context.add_value("http.path", Value::String("hello".to_string()));
    context.add_value("http.version", Value::String("1.1".to_string()));
    context.add_value("a", Value::Int(3_i64));

    for expr in exprs {
        let ast = parse(expr).map_err(|e| e.to_string()).unwrap();

        let mut mat = Match::new();
        let ast_result = ast.execute(&context, &mut mat);

        let cir_result = ast.translate().execute(&context, &mut mat);
        assert_eq!(ast_result, cir_result);
    }
}

#[test]
fn verify_translate() {
    let mut schema = Schema::default();
    schema.add_field("a", Type::Int);
    schema.add_field("http.path", Type::String);
    schema.add_field("http.version", Type::String);
    let mut router = Router::new(&schema);
    let uuid = Uuid::try_from("8cb2a7d0-c775-4ed9-989f-77697240ae96").unwrap();
    router.add_matcher(0, uuid.as_u128(), r#"(http.path == "hello" && http.version == "1.1") || !(( a == 2) && ( a == 9 )) || !(a == 1) || ( a == 3 && a == 4) && !(a == 5)"#).unwrap();

    let mut context = Context::new(&schema);
    context.add_value("http.path", Value::String("hello".to_string()));
    context.add_value("http.version", Value::String("1.1".to_string()));
    assert!(router.execute(&mut context));
    assert_eq!(context.result.unwrap().uuid, uuid.as_u128());
}

#[test]
fn single_predicate_becomes_a_lone_predicate() {
    let e = parse("a == 1").unwrap();
    assert!(matches!(e.translate(), CirProgram::Predicate(_)));
    let e = parse("a == 1 && a == 2").unwrap();
    match e.translate() {
        CirProgram::Instructions(is) => assert_eq!(is.len(), 1),
        _ => panic!("expected instructions"),
    }
    let e = parse("(a == 1 || a == 2) && !(a == 3)").unwrap();
    match e.translate() {
        CirProgram::Instructions(is) => assert_eq!(is.len(), 3),
        _ => panic!("expected instructions"),
    }
}

#[test]
fn compact_program_counts_fields() {
    let e = parse("(a == 1 || b == 2) && !(a == 3)").unwrap();
    let p = e.translate();
    let mut counts: StrMap<usize> = StrMap::new();
    p.add_to_counter(&mut counts);
    assert_eq!(counts.get("a"), Some(&2));
    assert_eq!(counts.get("b"), Some(&1));
    p.remove_from_counter(&mut counts);
    assert!(counts.is_empty());
}

#[test]
fn linear_programs_keep_the_order_of_their_writing() {
    let e = parse("!(a == 1) || b == 2 && c == 3").unwrap();
    let lir = atc_router::lir::Translate::translate(&e);
    let kinds: Vec<String> = lir
        .instructions
        .iter()
        .map(|i| match i {
            LirInstruction::LogicalOperator(LirLogicalOperator::And) => "and".to_string(),
            LirInstruction::LogicalOperator(LirLogicalOperator::Or) => "or".to_string(),
            LirInstruction::LogicalOperator(LirLogicalOperator::Not) => "not".to_string(),
            LirInstruction::Predicate(p) => p.lhs.var_name.clone(),
        })
        .collect();
    assert_eq!(kinds, vec!["and", "or", "not", "a", "b", "c"]);
    assert_eq!(lir.instructions[3].as_predicate().lhs.var_name, "a");

    let mut route = Lir::new();
    atc_router::linear::Translate::translate(&e, &mut route);
    let kinds: Vec<String> = route
        .codes
        .iter()
        .map(|c| match c {
            LirCode::LogicalOperator(LirLogicalOperators::And) => "and".to_string(),
            LirCode::LogicalOperator(LirLogicalOperators::Or) => "or".to_string(),
            LirCode::LogicalOperator(LirLogicalOperators::Not) => "not".to_string(),
            LirCode::Predicate(p) => p.lhs.var_name.clone(),
        })
        .collect();
    assert_eq!(kinds, vec!["a", "not", "b", "or", "c", "and"]);
}

#[test]
fn compact_program_keeps_notes_of_a_failed_conjunction() {
    let mut schema = Schema::default();
    schema.add_field("a", Type::Int);
    schema.add_field("b", Type::Int);
    let mut context = Context::new(&schema);
    context.add_value("a", Value::Int(1));
    context.add_value("b", Value::Int(3));

    let e = parse("a == 1 && b == 2").unwrap();
    let mut tree = Match::new();
    assert!(!e.execute(&context, &mut tree));
    assert!(tree.matches.get("a").is_none());

    let mut compact = Match::new();
    assert!(!e.translate().execute(&context, &mut compact));
    assert!(compact.matches.get("a").is_some());
    assert!(compact.matches.get("b").is_none());
}
