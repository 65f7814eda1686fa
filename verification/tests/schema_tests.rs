use atc_router::ast::Type;
use atc_router::schema::Schema;

#[test]
fn normail_fields() {
    let mut s = Schema::default();

    s.add_field("str", Type::String);
    s.add_field("ip", Type::IpAddr);
    s.add_field("cidr", Type::IpCidr);
    s.add_field("r", Type::Regex);
    s.add_field("i", Type::Int);

    assert_eq!(s.type_of("str"), Some(Type::String));
    assert_eq!(s.type_of("ip"), Some(Type::IpAddr));
    assert_eq!(s.type_of("cidr"), Some(Type::IpCidr));
    assert_eq!(s.type_of("r"), Some(Type::Regex));
    assert_eq!(s.type_of("i"), Some(Type::Int));

    assert_eq!(s.type_of("unknown"), None);
}

#[test]
fn wildcard_fields() {
    let mut s = Schema::default();

    s.add_field("a.*", Type::String);

    assert_eq!(s.type_of("a.b"), Some(Type::String));
    assert_eq!(s.type_of("a.xxx"), Some(Type::String));

    assert_eq!(s.type_of("a.x.y"), None);
}

#[test]
fn declared_field_shadows_wildcard() {
    let mut s = Schema::default();
    s.add_field("a.*", Type::String);
    s.add_field("a.n", Type::Int);
    assert_eq!(s.type_of("a.n"), Some(Type::Int));
    assert_eq!(s.type_of("a.m"), Some(Type::String));
    s.add_field("a.n", Type::IpAddr);
    assert_eq!(s.type_of("a.n"), Some(Type::IpAddr));
    assert_eq!(s.len(), 2);
}

#[test]
fn field_without_dot_has_no_wildcard() {
    let mut s = Schema::default();
    s.add_field("*", Type::String);
    assert_eq!(s.type_of("plain"), None);
}
