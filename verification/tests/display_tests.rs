use atc_router::parser::parse;

#[test]
fn ast_expr_op_and_prec() {
    let tests = vec![
        ("a > 0", "(a > 0)"),
        ("a in \"abc\"", "(a in \"abc\")"),
        ("a == 1 && b != 2", "((a == 1) && (b != 2))"),
        (
            "a ^= \"1\" && b =^ \"2\" || c >= 3",
            "((a ^= \"1\") && ((b =^ \"2\") || (c >= 3)))",
        ),
        (
            "a == 1 && b != 2 || c >= 3",
            "((a == 1) && ((b != 2) || (c >= 3)))",
        ),
        (
            "a > 1 || b < 2 && c <= 3 || d not in \"foo\"",
            "(((a > 1) || (b < 2)) && ((c <= 3) || (d not in \"foo\")))",
        ),
        (
            "a > 1 || ((b < 2) && (c <= 3)) || d not in \"foo\"",
            "(((a > 1) || ((b < 2) && (c <= 3))) || (d not in \"foo\"))",
        ),
    ];
    for (input, expected) in tests {
        let result = parse(input).unwrap();
        assert_eq!(result.to_string(), expected);
    }
}

#[test]
fn ast_expr_var_name_and_ip() {
    let tests = vec![
        ("kong.foo in 1.1.1.1", "(kong.foo in 1.1.1.1)"),
        (
            "kong.foo.foo2 in 10.0.0.0/24",
            "(kong.foo.foo2 in 10.0.0.0/24)",
        ),
        (
            "kong.foo.foo3 in 2001:db8::/32",
            "(kong.foo.foo3 in 2001:db8::/32)",
        ),
        (
            "kong.foo.foo4 in 2001:db8::/32",
            "(kong.foo.foo4 in 2001:db8::/32)",
        ),
    ];
    for (input, expected) in tests {
        let result = parse(input).unwrap();
        assert_eq!(result.to_string(), expected);
    }
}

#[test]
fn ast_expr_regex() {
    let tests = vec![
        (
            "kong.foo.foo5 ~ \"^foo.*$\"",
            "(kong.foo.foo5 ~ \"^foo.*$\")",
        ),
        (
            "kong.foo.foo6 ~ \"^foo.*$\"",
            "(kong.foo.foo6 ~ \"^foo.*$\")",
        ),
    ];
    for (input, expected) in tests {
        let result = parse(input).unwrap();
        assert_eq!(result.to_string(), expected);
    }
}

#[test]
fn ast_expr_digits() {
    let tests = vec![
        ("kong.foo.foo7 == 123", "(kong.foo.foo7 == 123)"),
        ("kong.foo.foo8 == 0x123", "(kong.foo.foo8 == 291)"),
        ("kong.foo.foo9 == 0123", "(kong.foo.foo9 == 83)"),
        ("kong.foo.foo10 == -123", "(kong.foo.foo10 == -123)"),
        ("kong.foo.foo11 == -0x123", "(kong.foo.foo11 == -291)"),
        ("kong.foo.foo12 == -0123", "(kong.foo.foo12 == -83)"),
    ];
    for (input, expected) in tests {
        let result = parse(input).unwrap();
        assert_eq!(result.to_string(), expected);
    }
}

#[test]
fn ast_expr_transformations() {
    let tests = vec![
        (
            "lower(kong.foo.foo13) == \"foo\"",
            "(lower(kong.foo.foo13) == \"foo\")",
        ),
        (
            "any(kong.foo.foo14) == \"foo\"",
            "(any(kong.foo.foo14) == \"foo\")",
        ),
    ];
    for (input, expected) in tests {
        let result = parse(input).unwrap();
        assert_eq!(result.to_string(), expected);
    }
}

#[test]
fn ast_expr_transformations_nested() {
    let tests = vec![
        (
            "lower(lower(kong.foo.foo15)) == \"foo\"",
            "(lower(lower(kong.foo.foo15)) == \"foo\")",
        ),
        (
            "lower(any(kong.foo.foo16)) == \"foo\"",
            "(lower(any(kong.foo.foo16)) == \"foo\")",
        ),
        (
            "any(lower(kong.foo.foo17)) == \"foo\"",
            "(any(lower(kong.foo.foo17)) == \"foo\")",
        ),
        (
            "any(any(kong.foo.foo18)) == \"foo\"",
            "(any(any(kong.foo.foo18)) == \"foo\")",
        ),
    ];
    for (input, expected) in tests {
        let result = parse(input).unwrap();
        assert_eq!(result.to_string(), expected);
    }
}

#[test]
fn tests_expr_op_and_prec() {
    let tests = vec![
        ("a > 0", "(a > 0)"),
        ("a in \"abc\"", "(a in \"abc\")"),
        ("a == 1 && b != 2", "((a == 1) && (b != 2))"),
        (
            "a ^= \"1\" && b =^ \"2\" || c >= 3",
            "((a ^= \"1\") && ((b =^ \"2\") || (c >= 3)))",
        ),
        (
            "a == 1 && b != 2 || c >= 3",
            "((a == 1) && ((b != 2) || (c >= 3)))",
        ),
        (
            "a > 1 || b < 2 && c <= 3 || d not in \"foo\"",
            "(((a > 1) || (b < 2)) && ((c <= 3) || (d not in \"foo\")))",
        ),
        (
            "a > 1 || ((b < 2) && (c <= 3)) || d not in \"foo\"",
            "(((a > 1) || ((b < 2) && (c <= 3))) || (d not in \"foo\"))",
        ),
    ];
    for (input, expected) in tests {
        let result = parse(input).unwrap();
        assert_eq!(result.to_string(), expected);
    }
}

#[test]
fn tests_expr_var_name_and_ip() {
    let tests = vec![
        ("kong.foo in 1.1.1.1", "(kong.foo in 1.1.1.1)"),
        (
            "kong.foo.foo2 in 10.0.0.0/24",
            "(kong.foo.foo2 in 10.0.0.0/24)",
        ),
        (
            "kong.foo.foo3 in 2001:db8::/32",
            "(kong.foo.foo3 in 2001:db8::/32)",
        ),
        (
            "kong.foo.foo4 in 2001:db8::/32",
            "(kong.foo.foo4 in 2001:db8::/32)",
        ),
    ];
    for (input, expected) in tests {
        let result = parse(input).unwrap();
        assert_eq!(result.to_string(), expected);
    }
}

#[test]
fn tests_expr_regex() {
    let tests = vec![
        (
            "kong.foo.foo5 ~ \"^foo.*$\"",
            "(kong.foo.foo5 ~ \"^foo.*$\")",
        ),
        (
            "kong.foo.foo6 ~ \"^foo.*$\"",
            "(kong.foo.foo6 ~ \"^foo.*$\")",
        ),
    ];
    for (input, expected) in tests {
        let result = parse(input).unwrap();
        assert_eq!(result.to_string(), expected);
    }
}

#[test]
fn tests_expr_digits() {
    let tests = vec![
        ("kong.foo.foo7 == 123", "(kong.foo.foo7 == 123)"),
        ("kong.foo.foo8 == 0x123", "(kong.foo.foo8 == 291)"),
        ("kong.foo.foo9 == 0123", "(kong.foo.foo9 == 83)"),
        ("kong.foo.foo10 == -123", "(kong.foo.foo10 == -123)"),
        ("kong.foo.foo11 == -0x123", "(kong.foo.foo11 == -291)"),
        ("kong.foo.foo12 == -0123", "(kong.foo.foo12 == -83)"),
    ];
    for (input, expected) in tests {
        let result = parse(input).unwrap();
        assert_eq!(result.to_string(), expected);
    }
}

#[test]
fn tests_expr_transformations() {
    let tests = vec![
        (
            "lower(kong.foo.foo13) == \"foo\"",
            "(lower(kong.foo.foo13) == \"foo\")",
        ),
        (
            "any(kong.foo.foo14) == \"foo\"",
            "(any(kong.foo.foo14) == \"foo\")",
        ),
    ];
    for (input, expected) in tests {
        let result = parse(input).unwrap();
        assert_eq!(result.to_string(), expected);
    }
}

#[test]
fn tests_expr_transformations_nested() {
    let tests = vec![
        (
            "lower(lower(kong.foo.foo15)) == \"foo\"",
            "(lower(lower(kong.foo.foo15)) == \"foo\")",
        ),
        (
            "lower(any(kong.foo.foo16)) == \"foo\"",
            "(lower(any(kong.foo.foo16)) == \"foo\")",
        ),
        (
            "any(lower(kong.foo.foo17)) == \"foo\"",
            "(any(lower(kong.foo.foo17)) == \"foo\")",
        ),
        (
            "any(any(kong.foo.foo18)) == \"foo\"",
            "(any(any(kong.foo.foo18)) == \"foo\")",
        ),
    ];
    for (input, expected) in tests {
        let result = parse(input).unwrap();
        assert_eq!(result.to_string(), expected);
    }
}

#[test]
fn str_unicode_test() {
    let tests = vec![
        // cjk chars
        ("t_msg in \"你好\"", "(t_msg in \"你好\")"),
        // 0xXXX unicode
        ("t_msg in \"\u{4f60}\u{597d}\"", "(t_msg in \"你好\")"),
    ];
    for (input, expected) in tests {
        let result = parse(input).unwrap();
        assert_eq!(result.to_string(), expected);
    }
}

#[test]
fn rawstr_test() {
    let tests = vec![
        // invalid escape sequence
        (r##"a == r#"/path/to/\d+"#"##, r#"(a == "/path/to/\d+")"#),
        // valid escape sequence
        (r##"a == r#"/path/to/\n+"#"##, r#"(a == "/path/to/\n+")"#),
    ];
    for (input, expected) in tests {
        let result = parse(input).unwrap();
        assert_eq!(result.to_string(), expected);
    }
}

#[test]
fn negation_and_contains_are_written_back() {
    let e = parse("!(a contains \"x\") || b == fd00::1").unwrap();
    assert_eq!(e.to_string(), "(!(a contains \"x\") || (b == fd00::1))");
}

#[test]
fn escapes_are_resolved_when_read() {
    let e = parse("a == \"x\\ty\\\"\"").unwrap();
    assert_eq!(e.to_string(), "(a == \"x\ty\"\")");
}
