use atc_router::matchers::{Matcher, MatcherVisitor};

struct Prefix(&'static str);

impl Matcher for Prefix {
    fn visit(&self, visitor: &mut MatcherVisitor) {
        visitor.visit_match_starts_with(self.0);
    }
}

#[test]
fn no_requirement_gives_no_limit() {
    let mut v = MatcherVisitor::new();
    assert_eq!(v.finish(), None);
}

#[test]
fn an_unlimited_alternative_gives_no_limit() {
    let mut v = MatcherVisitor::new();
    Prefix("/a").visit(&mut v);
    v.visit_or_in();
    v.visit_match_regex("abc$");
    assert_eq!(v.finish(), None);
}

#[test]
fn nested_levels_must_be_closed_before_finishing() {
    let mut v = MatcherVisitor::new();
    v.visit_nested_start();
    v.visit_match_equals("/x");
    v.visit_nested_finish();
    v.visit_nested_start();
    v.visit_nested_finish();
    assert!(v.finish().is_some());
}

#[test]
fn disjoint_requirements_allow_nothing() {
    let mut v = MatcherVisitor::new();
    v.visit_match_starts_with("/a");
    v.visit_match_starts_with("/b");
    assert_eq!(v.finish(), Some(vec![]));
}

fn prefixes_of(atc: &str, field: &str) -> Option<Vec<Vec<u8>>> {
    let expr = atc_router::parser::parse(atc).unwrap();
    let matcher = atc_router::router::ExprMatcher::new(&expr, field);
    let mut v = MatcherVisitor::new();
    matcher.visit(&mut v);
    v.finish()
}

#[test]
fn expression_alternatives_give_each_prefix() {
    let got = prefixes_of(r#"http.path == "/foo" || http.path ^= "/bar""#, "http.path");
    let mut got = got.unwrap();
    got.sort();
    assert_eq!(got, vec![b"/bar".to_vec(), b"/foo".to_vec()]);
}

#[test]
fn expression_conjunction_keeps_common_prefixes() {
    let got = prefixes_of(r#"http.path ^= "/api" && http.path ^= "/api/v1""#, "http.path");
    assert_eq!(got, Some(vec![b"/api/v1".to_vec()]));
}

#[test]
fn expression_other_fields_and_negations_set_no_limit() {
    assert_eq!(prefixes_of(r#"http.host == "a""#, "http.path"), None);
    assert_eq!(prefixes_of(r#"!(http.path == "/a")"#, "http.path"), None);
    assert_eq!(prefixes_of(r#"lower(http.path) == "/a""#, "http.path"), None);
    assert_eq!(prefixes_of(r#"http.path == "/a" || http.host == "b""#, "http.path"), None);
}

#[test]
fn expression_anchored_regex_gives_its_literals() {
    let got = prefixes_of(r#"http.path ~ "^/users/\\d+""#, "http.path");
    assert_eq!(got, Some(vec![b"/users/".to_vec()]));
}

#[test]
fn equals_and_starts_with_leave_the_same_state() {
    let mut a = MatcherVisitor::new();
    let mut b = MatcherVisitor::new();
    a.visit_match_starts_with("/x");
    b.visit_match_starts_with("/x");
    a.visit_match_equals("/x/y");
    b.visit_match_starts_with("/x/y");
    assert_eq!(a.finish(), b.finish());
    assert_eq!(a.finish(), None);
}

#[test]
fn gathered_prefixes_come_in_order_then_the_visitor_is_fresh() {
    let mut v = MatcherVisitor::new();
    Prefix("/b").visit(&mut v);
    v.visit_or_in();
    Prefix("/a").visit(&mut v);
    v.visit_or_in();
    v.visit_match_equals("/a");
    assert_eq!(v.finish_gathered(), Some(vec![b"/a".to_vec(), b"/b".to_vec()]));
    assert_eq!(v.finish_gathered(), None);
}
