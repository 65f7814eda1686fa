use atc_router::ast::{MatchedValue, Type, Value};
use atc_router::context::Context;
use atc_router::router::Router;
use atc_router::schema::Schema;
use std::sync::Arc;
use uuid::Uuid;

#[test]
fn execute_succeeds() {
    let mut schema = Schema::default();
    schema.add_field("http.path", Type::String);

    let mut router = Router::new(&schema);
    router
        .add_matcher(0, Uuid::default().as_u128(), "http.path == \"/dev\"")
        .expect("should add");

    let mut ctx = Context::new(&schema);
    ctx.add_value("http.path", "/dev".to_owned().into());
    assert!(router.execute(&mut ctx));
}

#[test]
fn execute_fails() {
    let mut schema = Schema::default();
    schema.add_field("http.path", Type::String);

    let mut router = Router::new(&schema);
    router
        .add_matcher(0, Uuid::default().as_u128(), "http.path == \"/dev\"")
        .expect("should add");

    let mut ctx = Context::new(&schema);
    ctx.add_value("http.path", "/not-dev".to_owned().into());
    assert!(!router.execute(&mut ctx));
}

#[test]
fn try_match_succeeds() {
    let mut schema = Schema::default();
    schema.add_field("http.path", Type::String);

    let mut router = Router::new(&schema);
    router
        .add_matcher(0, Uuid::default().as_u128(), "http.path == \"/dev\"")
        .expect("should add");

    let mut ctx = Context::new(&schema);
    ctx.add_value("http.path", "/dev".to_owned().into());
    router.try_match(&ctx).expect("matches");
}

#[test]
fn try_match_fails() {
    let mut schema = Schema::default();
    schema.add_field("http.path", Type::String);

    let mut router = Router::new(&schema);
    router
        .add_matcher(0, Uuid::default().as_u128(), "http.path == \"/dev\"")
        .expect("should add");

    let mut ctx = Context::new(&schema);
    ctx.add_value("http.path", "/not-dev".to_owned().into());
    router.try_match(&ctx).ok_or(()).expect_err("should fail");
}

#[test]
fn failed_and_branch_does_not_leak_state_into_successful_or_branch() {
    let mut schema = Schema::default();
    schema.add_field("http.path", Type::String);
    schema.add_field("http.role", Type::String);
    schema.add_field("http.method", Type::String);

    let mut router = Router::new(&schema);
    router
        .add_matcher(
            0,
            Uuid::default().as_u128(),
            r##"(http.path ~ r#"^/users/(?<user_id>[^/]+)"# && http.role == "admin") || http.method == "GET""##,
        )
        .expect("should add");

    let mut ctx = Context::new(&schema);
    ctx.add_value("http.path", Value::String("/users/alice".to_owned()));
    ctx.add_value("http.method", Value::String("GET".to_owned()));

    let result = router.try_match(&ctx).expect("method branch should match");
    assert!(result.captures.is_empty());
    assert!(!result.matches.contains_key("http.path"));
    assert_eq!(
        result.matches.get("http.method").map(MatchedValue::expression),
        Some(&Value::String("GET".to_owned()))
    );
}

#[test]
fn failed_or_alternative_does_not_leak_captures() {
    let mut schema = Schema::default();
    schema.add_field("first", Type::String);
    schema.add_field("guard", Type::String);
    schema.add_field("second", Type::String);

    let mut router = Router::new(&schema);
    router
        .add_matcher(
            0,
            Uuid::default().as_u128(),
            r##"(first ~ r#"(?<stale>left)"# && guard == "yes") || second ~ r#"(?<winner>right)"#"##,
        )
        .expect("should add");

    let mut ctx = Context::new(&schema);
    ctx.add_value("first", Value::String("left".to_owned()));
    ctx.add_value("second", Value::String("right".to_owned()));

    let result = router.try_match(&ctx).expect("second branch should match");
    assert!(!result.captures.contains_key("stale"));
    assert_eq!(
        result.captures.get("winner").map(String::as_str),
        Some("right")
    );
}

#[test]
fn nested_failed_branch_preserves_enclosing_successful_state() {
    let mut schema = Schema::default();
    schema.add_field("outer", Type::String);
    schema.add_field("inner", Type::String);
    schema.add_field("guard", Type::String);
    schema.add_field("fallback", Type::String);

    let mut router = Router::new(&schema);
    router
        .add_matcher(
            0,
            Uuid::default().as_u128(),
            r##"outer ~ r#"(?<outer_capture>outside)"# && ((inner ~ r#"(?<inner_capture>inside)"# && guard == "yes") || fallback == "ok")"##,
        )
        .expect("should add");

    let mut ctx = Context::new(&schema);
    ctx.add_value("outer", Value::String("outside".to_owned()));
    ctx.add_value("inner", Value::String("inside".to_owned()));
    ctx.add_value("fallback", Value::String("ok".to_owned()));

    let result = router
        .try_match(&ctx)
        .expect("fallback branch should match");
    assert_eq!(
        result.captures.get("outer_capture").map(String::as_str),
        Some("outside")
    );
    assert!(!result.captures.contains_key("inner_capture"));
    assert!(result.matches.contains_key("outer"));
    assert!(!result.matches.contains_key("inner"));
    assert!(result.matches.contains_key("fallback"));
}

#[test]
fn failed_higher_priority_matcher_does_not_leak_state() {
    let mut schema = Schema::default();
    schema.add_field("candidate", Type::String);
    schema.add_field("fallback", Type::String);

    let higher_priority_id = Uuid::from_u128(1);
    let lower_priority_id = Uuid::from_u128(2);
    let mut router = Router::new(&schema);
    router
        .add_matcher(
            10,
            higher_priority_id.as_u128(),
            r##"candidate ~ r#"^(?<stale>captured)$"#"##,
        )
        .expect("should add higher-priority matcher");
    router
        .add_matcher(
            0,
            lower_priority_id.as_u128(),
            r##"fallback ~ r#"(?<winner>matched)"#"##,
        )
        .expect("should add lower-priority matcher");

    let mut ctx = Context::new(&schema);
    ctx.add_value("candidate", Value::String("captured".to_owned()));
    ctx.add_value("candidate", Value::String("not-captured".to_owned()));
    ctx.add_value("fallback", Value::String("matched".to_owned()));

    let result = router
        .try_match(&ctx)
        .expect("lower-priority matcher should match");
    assert_eq!(result.uuid, lower_priority_id.as_u128());
    assert!(!result.captures.contains_key("stale"));
    assert_eq!(
        result.captures.get("winner").map(String::as_str),
        Some("matched")
    );
    assert!(!result.matches.contains_key("candidate"));
    assert!(result.matches.contains_key("fallback"));
}

#[test]
fn successful_not_does_not_retain_inner_branch_captures() {
    let mut schema = Schema::default();
    schema.add_field("http.path", Type::String);
    schema.add_field("guard", Type::String);

    let mut router = Router::new(&schema);
    router
        .add_matcher(
            0,
            Uuid::default().as_u128(),
            r##"!(http.path ~ r#"^/users/(?<user_id>[^/]+)"# && guard == "yes")"##,
        )
        .expect("should add");

    let mut ctx = Context::new(&schema);
    ctx.add_value("http.path", Value::String("/users/alice".to_owned()));

    let result = router.try_match(&ctx).expect("negation should match");
    assert!(result.captures.is_empty());
    assert!(result.matches.is_empty());
}

#[test]
fn test_shared_schema_instantiation() {
    let mut schema = Schema::default();
    schema.add_field("http.path", Type::String);

    let mut router = Router::new(&schema);
    router
        .add_matcher(0, Uuid::default().as_u128(), "http.path == \"/dev\"")
        .expect("should add");
    let mut ctx = Context::new(router.schema());
    ctx.add_value("http.path", "/dev".to_owned().into());
    router.try_match(&ctx).expect("matches");
}

#[test]
fn test_owned_schema_instantiation() {
    let mut schema = Schema::default();
    schema.add_field("http.path", Type::String);

    let mut router = Router::new(schema);
    router
        .add_matcher(0, Uuid::default().as_u128(), "http.path == \"/dev\"")
        .expect("should add");
    let mut ctx = Context::new(router.schema());
    ctx.add_value("http.path", "/dev".to_owned().into());
    router.try_match(&ctx).expect("matches");
}

#[test]
fn test_arc_schema_instantiation() {
    let mut schema = Schema::default();
    schema.add_field("http.path", Type::String);

    let mut router = Router::new(Arc::new(schema));
    router
        .add_matcher(0, Uuid::default().as_u128(), "http.path == \"/dev\"")
        .expect("should add");
    let mut ctx = Context::new(router.schema());
    ctx.add_value("http.path", "/dev".to_owned().into());
    router.try_match(&ctx).expect("matches");
}

#[test]
fn test_box_schema_instantiation() {
    let mut schema = Schema::default();
    schema.add_field("http.path", Type::String);

    let mut router = Router::new(Box::new(schema));
    router
        .add_matcher(0, Uuid::default().as_u128(), "http.path == \"/dev\"")
        .expect("should add");
    let mut ctx = Context::new(router.schema());
    ctx.add_value("http.path", "/dev".to_owned().into());
    router.try_match(&ctx).expect("matches");
}

#[test]
fn test_matched_expr_prefix() {
    let mut schema = Schema::default();
    schema.add_field("http.path", Type::String);

    let mut router = Router::new(&schema);
    router
        .add_matcher(
            0,
            Uuid::default().as_u128(),
            "http.path ^= \"/abc\" || http.path ^= \"/foo\"",
        )
        .expect("should add");

    let mut ctx = Context::new(&schema);
    ctx.add_value("http.path", "/foo/bar".to_owned().into());
    assert!(router.execute(&mut ctx));

    let res = ctx.result.as_ref().unwrap();
    assert_eq!(
        res.matches.get("http.path").map(MatchedValue::expression),
        Some(&Value::String("/foo".to_string())),
    );

    ctx.reset();
    ctx.add_value("http.path", "/abc/xyz".to_owned().into());
    assert!(router.execute(&mut ctx));

    let res = ctx.result.as_ref().unwrap();
    assert_eq!(
        res.matches.get("http.path").map(MatchedValue::expression),
        Some(&Value::String("/abc".to_string())),
    );
}

#[test]
fn test_matched_expr_regex() {
    let mut schema = Schema::default();
    schema.add_field("http.path", Type::String);

    let mut router = Router::new(&schema);
    router
        .add_matcher(
            0,
            Uuid::default().as_u128(),
            "http.path ~ r#\"^/\\d+/test$\"# || http.path ~ r#\"^/\\d+/bar$\"#",
        )
        .expect("should add");

    let mut ctx = Context::new(&schema);
    ctx.add_value("http.path", "/123/test".to_owned().into());
    assert!(router.execute(&mut ctx));

    let res = ctx.result.as_ref().unwrap();
    assert_eq!(
        res.matches.get("http.path").map(MatchedValue::expression),
        Some(&Value::String("^/\\d+/test$".to_string()))
    );
    assert_eq!(
        res.matches.get("http.path").map(MatchedValue::value),
        Some(&Value::String("/123/test".to_string()))
    );

    ctx.reset();
    ctx.add_value("http.path", "/123/bar".to_owned().into());
    assert!(router.execute(&mut ctx));

    let res = ctx.result.as_ref().unwrap();
    assert_eq!(
        res.matches.get("http.path").map(MatchedValue::expression),
        Some(&Value::String("^/\\d+/bar$".to_string()))
    );
    assert_eq!(
        res.matches.get("http.path").map(MatchedValue::value),
        Some(&Value::String("/123/bar".to_string()))
    );
}

#[test]
fn test_matched_expr_absent_on_no_match() {
    let mut schema = Schema::default();
    schema.add_field("http.path", Type::String);

    let mut router = Router::new(&schema);
    router
        .add_matcher(
            0,
            Uuid::default().as_u128(),
            "http.path ^= \"/foo\" || http.path ^= \"/bar\"",
        )
        .expect("should add");

    let mut ctx = Context::new(&schema);
    ctx.add_value("http.path", "/nope".to_owned().into());
    assert!(!router.execute(&mut ctx));
    assert!(ctx.result.is_none());
}

#[test]
fn duplicate_key_is_refused() {
    let mut schema = Schema::default();
    schema.add_field("a", Type::Int);
    let mut router = Router::new(&schema);
    router.add_matcher(1, 7, "a == 1").unwrap();
    assert_eq!(router.add_matcher(1, 7, "a == 2").unwrap_err(), "UUID already exists");
    // the same id under another priority is another key
    router.add_matcher(2, 7, "a == 2").unwrap();
}

#[test]
fn invalid_matcher_is_refused_and_changes_nothing() {
    let mut schema = Schema::default();
    schema.add_field("a", Type::Int);
    let mut router = Router::new(&schema);
    assert_eq!(router.add_matcher(1, 1, "b == 1").unwrap_err(), "Unknown LHS field");
    assert!(router.fields().is_empty());
    let err = router.add_matcher(1, 1, "a == ").unwrap_err();
    assert_eq!(err, "a == \n     ^\ninvalid decimal integer");
    assert!(!router.remove_matcher(1, 1));
}

#[test]
fn highest_priority_wins_then_highest_id() {
    let mut schema = Schema::default();
    schema.add_field("a", Type::Int);
    let mut router = Router::new(&schema);
    router.add_matcher(5, 1, "a > 0").unwrap();
    router.add_matcher(5, 3, "a > 10").unwrap();
    router.add_matcher(9, 2, "a > 100").unwrap();
    router.add_matcher(1, 4, "a >= 0").unwrap();

    let mut ctx = Context::new(&schema);
    ctx.add_value("a", Value::Int(50));
    assert_eq!(router.try_match(&ctx).unwrap().uuid, 3);

    let mut ctx = Context::new(&schema);
    ctx.add_value("a", Value::Int(500));
    assert_eq!(router.try_match(&ctx).unwrap().uuid, 2);

    let mut ctx = Context::new(&schema);
    ctx.add_value("a", Value::Int(0));
    assert_eq!(router.try_match(&ctx).unwrap().uuid, 4);

    let mut ctx = Context::new(&schema);
    ctx.add_value("a", Value::Int(-1));
    assert!(router.try_match(&ctx).is_none());
}

#[test]
fn add_then_remove_restores_counts() {
    let mut schema = Schema::default();
    schema.add_field("a", Type::Int);
    schema.add_field("b", Type::String);
    let mut router = Router::new(&schema);
    router.add_matcher(1, 1, "a == 1").unwrap();
    assert_eq!(router.fields().get("a"), Some(&1));
    router.add_matcher(2, 2, "a == 2 && (b == \"x\" || a > 3)").unwrap();
    assert_eq!(router.fields().get("a"), Some(&3));
    assert_eq!(router.fields().get("b"), Some(&1));
    assert!(router.remove_matcher(2, 2));
    assert_eq!(router.fields().get("a"), Some(&1));
    assert_eq!(router.fields().get("b"), None);
    assert!(!router.remove_matcher(2, 2));
    assert!(router.remove_matcher(1, 1));
    assert!(router.fields().is_empty());
}

#[test]
fn prefilter_field_must_be_a_string() {
    let mut schema = Schema::default();
    schema.add_field("a", Type::Int);
    schema.add_field("p", Type::String);
    let mut router = Router::new(&schema);
    assert_eq!(
        router.enable_prefilter("a").unwrap_err(),
        "Field a is of type Int, must be a string"
    );
    assert_eq!(router.enable_prefilter("zz").unwrap_err(), "Field zz is not in schema");
    router.enable_prefilter("p").unwrap();
    router.enable_prefilter("p").unwrap();
    router.add_matcher(1, 1, "p ^= \"/x\"").unwrap();
    let mut ctx = Context::new(&schema);
    ctx.add_value("p", Value::String("/xy".to_owned()));
    assert_eq!(router.try_match(&ctx).unwrap().uuid, 1);
    router.disable_prefilter();
    assert_eq!(router.try_match(&ctx).unwrap().uuid, 1);
}

#[test]
fn execute_keeps_earlier_result_when_nothing_matches() {
    let mut schema = Schema::default();
    schema.add_field("a", Type::Int);
    let mut router = Router::new(&schema);
    router.add_matcher(1, 9, "a == 1").unwrap();
    let mut ctx = Context::new(&schema);
    ctx.add_value("a", Value::Int(1));
    assert!(router.execute(&mut ctx));
    assert_eq!(ctx.result.as_ref().unwrap().uuid, 9);
    assert!(router.remove_matcher(1, 9));
    assert!(!router.execute(&mut ctx));
    assert_eq!(ctx.result.as_ref().unwrap().uuid, 9);
}

#[test]
fn prefiltered_matching_gives_the_same_winner() {
    let mut schema = Schema::default();
    schema.add_field("p", Type::String);
    schema.add_field("n", Type::Int);
    let matchers: Vec<(usize, u128, &str)> = vec![
        (9, 1, "p ^= \"/api/v1\""),
        (8, 2, "p == \"/api\""),
        (7, 3, "p ^= \"/api\" && n == 1"),
        (6, 4, "p ~ r#\"^/re/\\d+$\"#"),
        (5, 5, "lower(p) ^= \"/up\""),
        (4, 6, "!(p ^= \"/api\")"),
        (3, 7, "p ^= \"/a\" || p ^= \"/b\""),
        (2, 8, "n == 2"),
        (1, 9, "p ^= \"/\""),
    ];
    let mut plain = Router::new(&schema);
    let mut filtered = Router::new(&schema);
    // some matchers before the index is built, the others after
    for (i, (prio, id, atc)) in matchers.iter().enumerate() {
        plain.add_matcher(*prio, *id, atc).unwrap();
        if i == 4 {
            filtered.enable_prefilter("p").unwrap();
        }
        filtered.add_matcher(*prio, *id, atc).unwrap();
    }
    assert!(plain.remove_matcher(4, 6));
    assert!(filtered.remove_matcher(4, 6));
    let cases: Vec<(Vec<&str>, Option<i64>, Option<u128>)> = vec![
        (vec!["/api/v1/users"], None, Some(1)),
        (vec!["/api"], None, Some(2)),
        (vec!["/api/x"], Some(1), Some(3)),
        (vec!["/api/x"], None, Some(7)),
        (vec!["/re/42"], None, Some(4)),
        (vec!["/UP/x"], None, Some(5)),
        (vec!["/b/c"], None, Some(7)),
        (vec!["/zzz"], Some(2), Some(8)),
        (vec!["/zzz"], None, Some(9)),
        (vec!["nothing"], None, None),
        (vec![], Some(2), Some(8)),
        (vec![], None, None),
        (vec!["/api/v1/x", "/other"], None, Some(9)),
    ];
    for (paths, n, expected) in cases {
        let mut ctx = Context::new(&schema);
        for p in &paths {
            ctx.add_value("p", Value::String(p.to_string()));
        }
        if let Some(n) = n {
            ctx.add_value("n", Value::Int(n));
        }
        let a = plain.try_match(&ctx).map(|m| m.uuid);
        let b = filtered.try_match(&ctx).map(|m| m.uuid);
        assert_eq!(a, expected, "paths {:?}", paths);
        assert_eq!(b, expected, "paths {:?}", paths);
    }
    filtered.disable_prefilter();
    let mut ctx = Context::new(&schema);
    ctx.add_value("p", Value::String("/api/v1".to_string()));
    assert_eq!(filtered.try_match(&ctx).map(|m| m.uuid), Some(1));
}

#[test]
fn prefilter_follows_removed_and_added_matchers() {
    let mut schema = Schema::default();
    schema.add_field("p", Type::String);
    let mut router = Router::new(&schema);
    router.add_matcher(5, 1, "p ^= \"/x\"").unwrap();
    router.add_matcher(1, 2, "p ^= \"/\"").unwrap();
    router.enable_prefilter("p").unwrap();
    let mut ctx = Context::new(&schema);
    ctx.add_value("p", Value::String("/x/y".to_string()));
    assert_eq!(router.try_match(&ctx).unwrap().uuid, 1);
    assert!(router.remove_matcher(5, 1));
    assert_eq!(router.try_match(&ctx).unwrap().uuid, 2);
    router.add_matcher(9, 3, "p == \"/x/y\"").unwrap();
    assert_eq!(router.try_match(&ctx).unwrap().uuid, 3);
    assert!(router.remove_matcher(1, 2));
    let mut other = Context::new(&schema);
    other.add_value("p", Value::String("/q".to_string()));
    assert!(router.try_match(&other).is_none());
    assert_eq!(router.try_match(&ctx).unwrap().uuid, 3);
}
