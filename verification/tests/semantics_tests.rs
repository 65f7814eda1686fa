use atc_router::ast::Type;
use atc_router::parser::parse;
use atc_router::schema::Schema;
use atc_router::semantics::Validate;

fn schema() -> Schema {
    let mut s = Schema::default();
    s.add_field("string", Type::String);
    s.add_field("int", Type::Int);
    s.add_field("ipaddr", Type::IpAddr);
    s
}

#[test]
fn unknown_field() {
    let schema = schema();
    let expression = parse(r#"unkn == "abc""#).unwrap();
    assert_eq!(expression.validate(&schema).unwrap_err(), "Unknown LHS field");
}

#[test]
fn string_lhs() {
    let schema = schema();
    let tests = vec![
        r#"string == "abc""#,
        r#"string != "abc""#,
        r#"string ~ "abc""#,
        r#"string ^= "abc""#,
        r#"string =^ "abc""#,
        r#"lower(string) =^ "abc""#,
    ];
    for input in tests {
        let expression = parse(input).unwrap();
        expression.validate(&schema).unwrap();
    }

    let failing_tests = vec![
        r#"string == 192.168.0.1"#,
        r#"string == 192.168.0.0/24"#,
        r#"string == 123"#,
        r#"string in "abc""#,
    ];
    for input in failing_tests {
        let expression = parse(input).unwrap();
        assert!(expression.validate(&schema).is_err());
    }
}

#[test]
fn ipaddr_lhs() {
    let schema = schema();
    let tests = vec![
        r#"ipaddr == 192.168.0.1"#,
        r#"ipaddr == fd00::1"#,
        r#"ipaddr in 192.168.0.0/24"#,
        r#"ipaddr in fd00::/64"#,
        r#"ipaddr not in 192.168.0.0/24"#,
        r#"ipaddr not in fd00::/64"#,
    ];
    for input in tests {
        let expression = parse(input).unwrap();
        expression.validate(&schema).unwrap();
    }

    let failing_tests = vec![
        r#"ipaddr == "abc""#,
        r#"ipaddr == 123"#,
        r#"ipaddr in 192.168.0.1"#,
        r#"ipaddr in fd00::1"#,
        r#"ipaddr == 192.168.0.0/24"#,
        r#"ipaddr == fd00::/64"#,
        r#"lower(ipaddr) == fd00::1"#,
    ];
    for input in failing_tests {
        let expression = parse(input).unwrap();
        assert!(expression.validate(&schema).is_err());
    }
}

#[test]
fn int_lhs() {
    let schema = schema();
    let tests = vec![
        r#"int == 123"#,
        r#"int >= 123"#,
        r#"int <= 123"#,
        r#"int > 123"#,
        r#"int < 123"#,
    ];
    for input in tests {
        let expression = parse(input).unwrap();
        expression.validate(&schema).unwrap();
    }

    let failing_tests = vec![
        r#"int == "abc""#,
        r#"int in 192.168.0.0/24"#,
        r#"lower(int) == 123"#,
    ];
    for input in failing_tests {
        let expression = parse(input).unwrap();
        assert!(expression.validate(&schema).is_err());
    }
}

#[test]
fn validation_messages() {
    let schema = schema();
    let cases = vec![
        (r#"int == "abc""#, "Type mismatch between the LHS and RHS values of predicate"),
        (r#"lower(int) == 123"#, "lower-case transformation function only supported with String type fields"),
        (r#"int ~ "abc""#, "Regex operators only supports string operands"),
        (r#"int ^= 1"#, "Prefix/Postfix operators only supports string operands"),
        (r#"string > "a""#, "Greater/GreaterOrEqual/Less/LessOrEqual operators only supports integer operands"),
        (r#"ipaddr in 192.168.0.1"#, "In/NotIn operators only supports IP in CIDR"),
        (r#"int contains 1"#, "Contains operator only supports string operands"),
        (r#"string == "a" && nope == 1 && int == "x""#, "Unknown LHS field"),
    ];
    for (input, message) in cases {
        let expression = parse(input).unwrap();
        assert_eq!(expression.validate(&schema).unwrap_err(), message, "{}", input);
    }
}
