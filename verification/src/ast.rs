use vstd::prelude::*;
use vstd::arithmetic::power2::pow2;
use crate::schema::Schema;

verus! {

/// A transformation applied to the field on the left-hand side of a predicate.
#[derive(Debug, Clone, Copy, PartialEq, Eq, Structural)]
pub enum LhsTransformations {
    Lower,
    Any,
}

/// The comparison a predicate performs.
#[derive(Debug, Clone, Copy, PartialEq, Eq, Structural)]
pub enum BinaryOperator {
    Equals,          // ==
    NotEquals,       // !=
    Regex,           // ~
    Prefix,          // ^=
    Postfix,         // =^
    Greater,         // >
    GreaterOrEqual,  // >=
    Less,            // <
    LessOrEqual,     // <=
    In,              // in
    NotIn,           // not in
    Contains,        // contains
}

impl View for BinaryOperator {
    type V = BinaryOperator;

    open spec fn view(&self) -> BinaryOperator {
        *self
    }
}

/// The type of a field or of a value.
#[derive(Debug, Clone, Copy, PartialEq, Eq, Structural)]
pub enum Type {
    String,
    IpCidr,
    IpAddr,
    Int,
    Regex,
}

/// An IP address: IPv4 as a 32-bit number, IPv6 as a 128-bit number.
#[derive(Debug, Clone, Copy, PartialEq, Eq, Structural)]
pub enum IpAddr {
    V4(u32),
    V6(u128),
}

/// An IP network: a first address and a network length.
#[derive(Debug, Clone, Copy, PartialEq, Eq, Structural)]
pub struct IpCidr {
    addr: IpAddr,
    len: u8,
}

/// Number of bits in an address of this family.
pub open spec fn addr_width(a: IpAddr) -> nat {
    match a {
        IpAddr::V4(_) => 32,
        IpAddr::V6(_) => 128,
    }
}

/// The address as a number.
pub open spec fn addr_bits(a: IpAddr) -> nat {
    match a {
        IpAddr::V4(x) => x as nat,
        IpAddr::V6(x) => x as nat,
    }
}

/// Both addresses belong to the same family.
pub open spec fn same_family(a: IpAddr, b: IpAddr) -> bool {
    (a is V4 && b is V4) || (a is V6 && b is V6)
}

/// A network of length `len` may start at `addr`: the length fits the family and
/// all bits after the first `len` are zero.
pub open spec fn cidr_valid(addr: IpAddr, len: u8) -> bool {
    &&& len <= addr_width(addr)
    &&& addr_bits(addr) % pow2((addr_width(addr) - len) as nat) == 0
}

/// `addr` lies in the network that starts at `net` and has length `len`: same family,
/// and the first `len` bits agree.
pub open spec fn cidr_holds(net: IpAddr, len: u8, addr: IpAddr) -> bool {
    &&& same_family(net, addr)
    &&& addr_bits(addr) / pow2((addr_width(net) - len) as nat) == addr_bits(net) / pow2(
        (addr_width(net) - len) as nat,
    )
}

impl IpCidr {
    #[verifier::type_invariant]
    spec fn inv(self) -> bool {
        cidr_valid(self.addr, self.len)
    }

    /// The first address of the network.
    pub closed spec fn spec_addr(self) -> IpAddr {
        self.addr
    }

    /// The network length.
    pub closed spec fn spec_len(self) -> u8 {
        self.len
    }

    /// The network that starts at `addr` and has length `len`.
    pub closed spec fn spec_new(addr: IpAddr, len: u8) -> IpCidr {
        IpCidr { addr, len }
    }

    /// A network is known by its first address and its length.
    pub proof fn lemma_spec_new(addr: IpAddr, len: u8)
        ensures
            IpCidr::spec_new(addr, len).spec_addr() == addr,
            IpCidr::spec_new(addr, len).spec_len() == len,
    {
    }

    /// Builds a network from its first address and its length, if they are valid.
    pub fn from_parts(addr: IpAddr, len: u8) -> (r: Option<IpCidr>)
        ensures
            r is Some <==> cidr_valid(addr, len),
            r matches Some(c) ==> c.spec_addr() == addr && c.spec_len() == len,
            r matches Some(c) ==> c == IpCidr::spec_new(addr, len),
    {
        if crate::net::cidr_check(addr, len) {
            Some(IpCidr { addr, len })
        } else {
            None
        }
    }

    /// The network as `cidr::IpCidr` displays it.
    pub fn to_string(&self) -> (r: String)
        ensures
            r@ == crate::net::cidr_text(self.spec_addr(), self.spec_len()),
    {
        proof {
            use_type_invariant(self);
        }
        crate::net::format_cidr(self.addr, self.len)
    }

    /// The first address of the network.
    pub fn address(&self) -> (r: IpAddr)
        ensures
            r == self.spec_addr(),
    {
        self.addr
    }

    /// The network length.
    pub fn network_length(&self) -> (r: u8)
        ensures
            r == self.spec_len(),
    {
        self.len
    }

    /// Whether `addr` lies in this network.
    pub fn contains(&self, addr: &IpAddr) -> (r: bool)
        ensures
            r == cidr_holds(self.spec_addr(), self.spec_len(), *addr),
    {
        proof {
            use_type_invariant(self);
        }
        crate::net::cidr_contains(self.addr, self.len, *addr)
    }
}

/// A value appearing on the right-hand side of a predicate, or provided by a context.
/// A regular expression is held as its pattern text.
#[derive(Debug, Clone, PartialEq)]
pub enum Value {
    String(String),
    IpCidr(IpCidr),
    IpAddr(IpAddr),
    Int(i64),
    Regex(String),
}

/// The mathematical form of a [`Value`].
pub enum ValueV {
    String(Seq<char>),
    IpCidr(IpCidr),
    IpAddr(IpAddr),
    Int(i64),
    Regex(Seq<char>),
}

impl View for Value {
    type V = ValueV;

    open spec fn view(&self) -> ValueV {
        match self {
            Value::String(s) => ValueV::String(s@),
            Value::IpCidr(c) => ValueV::IpCidr(*c),
            Value::IpAddr(a) => ValueV::IpAddr(*a),
            Value::Int(i) => ValueV::Int(*i),
            Value::Regex(r) => ValueV::Regex(r@),
        }
    }
}

/// The type of a value.
pub open spec fn type_of_value(v: ValueV) -> Type {
    match v {
        ValueV::String(_) => Type::String,
        ValueV::IpCidr(_) => Type::IpCidr,
        ValueV::IpAddr(_) => Type::IpAddr,
        ValueV::Int(_) => Type::Int,
        ValueV::Regex(_) => Type::Regex,
    }
}

/// Equality of values. Regular expressions are never equal to anything.
pub open spec fn value_equal(a: ValueV, b: ValueV) -> bool {
    match (a, b) {
        (ValueV::String(x), ValueV::String(y)) => x == y,
        (ValueV::IpCidr(x), ValueV::IpCidr(y)) => x == y,
        (ValueV::IpAddr(x), ValueV::IpAddr(y)) => x == y,
        (ValueV::Int(x), ValueV::Int(y)) => x == y,
        _ => false,
    }
}

impl Value {
    /// The type of this value.
    pub fn my_type(&self) -> (t: Type)
        ensures
            t == type_of_value(self@),
    {
        match self {
            Value::String(_) => Type::String,
            Value::IpCidr(_) => Type::IpCidr,
            Value::IpAddr(_) => Type::IpAddr,
            Value::Int(_) => Type::Int,
            Value::Regex(_) => Type::Regex,
        }
    }

    /// Whether two values are equal; a regular expression equals nothing.
    pub fn equals(&self, other: &Value) -> (r: bool)
        ensures
            r == value_equal(self@, other@),
    {
        match (self, other) {
            (Value::String(x), Value::String(y)) => crate::text::str_eq(x.as_str(), y.as_str()),
            (Value::IpCidr(x), Value::IpCidr(y)) => x == y,
            (Value::IpAddr(x), Value::IpAddr(y)) => x == y,
            (Value::Int(x), Value::Int(y)) => x == y,
            _ => false,
        }
    }

    /// The string held, if this is a string.
    pub fn as_str(&self) -> (r: Option<&String>)
        ensures
            match self@ {
                ValueV::String(s) => r is Some && r->0@ == s,
                _ => r is None,
            },
    {
        match self {
            Value::String(s) => Some(s),
            _ => None,
        }
    }

    /// The integer held, if this is an integer.
    pub fn as_int(&self) -> (r: Option<i64>)
        ensures
            match self@ {
                ValueV::Int(i) => r == Some(i),
                _ => r is None,
            },
    {
        match self {
            Value::Int(i) => Some(*i),
            _ => None,
        }
    }

    /// The address held, if this is an address.
    pub fn as_ipaddr(&self) -> (r: Option<IpAddr>)
        ensures
            match self@ {
                ValueV::IpAddr(a) => r == Some(a),
                _ => r is None,
            },
    {
        match self {
            Value::IpAddr(a) => Some(*a),
            _ => None,
        }
    }

    /// The network held, if this is a network.
    pub fn as_ipcidr(&self) -> (r: Option<IpCidr>)
        ensures
            match self@ {
                ValueV::IpCidr(c) => r == Some(c),
                _ => r is None,
            },
    {
        match self {
            Value::IpCidr(c) => Some(*c),
            _ => None,
        }
    }

    /// The pattern held, if this is a regular expression.
    pub fn as_regex(&self) -> (r: Option<&String>)
        ensures
            match self@ {
                ValueV::Regex(p) => r is Some && r->0@ == p,
                _ => r is None,
            },
    {
        match self {
            Value::Regex(p) => Some(p),
            _ => None,
        }
    }

    /// A copy of this value.
    pub fn duplicate(&self) -> (r: Value)
        ensures
            r@ == self@,
    {
        match self {
            Value::String(s) => Value::String(s.clone()),
            Value::IpCidr(c) => Value::IpCidr(*c),
            Value::IpAddr(a) => Value::IpAddr(*a),
            Value::Int(i) => Value::Int(*i),
            Value::Regex(p) => Value::Regex(p.clone()),
        }
    }
}

impl From<String> for Value {
    fn from(v: String) -> (r: Value) {
        Value::String(v)
    }
}

impl vstd::std_specs::convert::FromSpecImpl<String> for Value {
    open spec fn obeys_from_spec() -> bool {
        true
    }

    open spec fn from_spec(v: String) -> Value {
        Value::String(v)
    }
}

/// The left-hand side of a predicate: a field and the transformations applied to it,
/// innermost first.
#[derive(Debug, Clone)]
pub struct Lhs {
    pub var_name: String,
    pub transformations: Vec<LhsTransformations>,
}

/// The mathematical form of an [`Lhs`].
pub struct LhsV {
    pub var_name: Seq<char>,
    pub transformations: Seq<LhsTransformations>,
}

impl View for Lhs {
    type V = LhsV;

    open spec fn view(&self) -> LhsV {
        LhsV { var_name: self.var_name@, transformations: self.transformations@ }
    }
}

/// Whether the transformation list holds `t`.
pub open spec fn has_transformation(ts: Seq<LhsTransformations>, t: LhsTransformations) -> bool {
    exists|i: int| 0 <= i < ts.len() && ts[i] == t
}

impl Lhs {
    /// The type that the schema gives to this field.
    pub fn my_type(&self, schema: &Schema) -> (r: Option<Type>)
        ensures
            r == schema.spec_type_of(self.var_name@),
    {
        schema.type_of(self.var_name.as_str())
    }

    /// Whether `lower` and whether `any` is among the transformations.
    pub fn get_transformations(&self) -> (r: (bool, bool))
        ensures
            r.0 == has_transformation(self.transformations@, LhsTransformations::Lower),
            r.1 == has_transformation(self.transformations@, LhsTransformations::Any),
    {
        let mut lower = false;
        let mut any = false;
        let mut i: usize = 0;
        while i < self.transformations.len()
            invariant
                i <= self.transformations@.len(),
                lower == exists|j: int|
                    0 <= j < i && self.transformations@[j] == LhsTransformations::Lower,
                any == exists|j: int|
                    0 <= j < i && self.transformations@[j] == LhsTransformations::Any,
            decreases self.transformations@.len() - i,
        {
            match self.transformations[i] {
                LhsTransformations::Any => any = true,
                LhsTransformations::Lower => lower = true,
            }
            i = i + 1;
        }
        (lower, any)
    }

    /// A copy of this left-hand side.
    pub fn duplicate(&self) -> (r: Lhs)
        ensures
            r@ == self@,
    {
        Lhs { var_name: self.var_name.clone(), transformations: self.transformations.clone() }
    }
}

/// What a predicate that matched records for its field.
#[derive(Debug, Clone, PartialEq)]
pub enum MatchedValue {
    /// The value on the right-hand side of the predicate.
    Plain(Value),
    /// The text that a regular expression matched, and its pattern.
    Regex(Box<RegexMatchedValue>),
}

/// The text that a regular expression matched and the pattern it matched with.
#[derive(Debug, Clone, PartialEq)]
pub struct RegexMatchedValue {
    pub captured: Value,
    pub expr: Value,
}

/// The mathematical form of a [`MatchedValue`]: a plain value, or the matched text and
/// the pattern.
pub enum MatchedValueV {
    Plain(ValueV),
    Regex(ValueV, ValueV),
}

impl View for MatchedValue {
    type V = MatchedValueV;

    open spec fn view(&self) -> MatchedValueV {
        match self {
            MatchedValue::Plain(v) => MatchedValueV::Plain(v@),
            MatchedValue::Regex(r) => MatchedValueV::Regex(r.captured@, r.expr@),
        }
    }
}

/// The expression side of a matched value: the value itself, or the pattern.
pub open spec fn matched_expression(m: MatchedValueV) -> ValueV {
    match m {
        MatchedValueV::Plain(v) => v,
        MatchedValueV::Regex(_, e) => e,
    }
}

/// The value side of a matched value: the value itself, or the matched text.
pub open spec fn matched_value(m: MatchedValueV) -> ValueV {
    match m {
        MatchedValueV::Plain(v) => v,
        MatchedValueV::Regex(c, _) => c,
    }
}

impl MatchedValue {
    /// What the expression said: the value compared with, or the pattern.
    pub fn expression(&self) -> (r: &Value)
        ensures
            r@ == matched_expression(self@),
    {
        match self {
            MatchedValue::Plain(v) => v,
            MatchedValue::Regex(r) => &r.expr,
        }
    }

    /// What the request held: the value compared with, or the text the pattern matched.
    pub fn value(&self) -> (r: &Value)
        ensures
            r@ == matched_value(self@),
    {
        match self {
            MatchedValue::Plain(v) => v,
            MatchedValue::Regex(r) => &r.captured,
        }
    }
}

/// A comparison between a field and a value.
#[derive(Debug, Clone)]
pub struct Predicate {
    pub lhs: Lhs,
    pub rhs: Value,
    pub op: BinaryOperator,
}

/// The mathematical form of a [`Predicate`].
pub struct PredicateV {
    pub lhs: LhsV,
    pub rhs: ValueV,
    pub op: BinaryOperator,
}

impl View for Predicate {
    type V = PredicateV;

    open spec fn view(&self) -> PredicateV {
        PredicateV { lhs: self.lhs@, rhs: self.rhs@, op: self.op }
    }
}

impl Predicate {
    /// A copy of this predicate.
    pub fn duplicate(&self) -> (r: Predicate)
        ensures
            r@ == self@,
    {
        Predicate { lhs: self.lhs.duplicate(), rhs: self.rhs.duplicate(), op: self.op }
    }
}

/// A matcher expression.
#[derive(Debug)]
pub enum Expression {
    Logical(Box<LogicalExpression>),
    Predicate(Predicate),
}

/// A logical combination of expressions.
#[derive(Debug)]
pub enum LogicalExpression {
    And(Expression, Expression),
    Or(Expression, Expression),
    Not(Expression),
}

/// The mathematical form of an [`Expression`].
pub enum ExprV {
    And(Box<ExprV>, Box<ExprV>),
    Or(Box<ExprV>, Box<ExprV>),
    Not(Box<ExprV>),
    Pred(PredicateV),
}

/// The mathematical form of an expression.
pub open spec fn expr_view(e: Expression) -> ExprV
    decreases e,
{
    match e {
        Expression::Logical(l) => match *l {
            LogicalExpression::And(a, b) => ExprV::And(Box::new(expr_view(a)), Box::new(expr_view(b))),
            LogicalExpression::Or(a, b) => ExprV::Or(Box::new(expr_view(a)), Box::new(expr_view(b))),
            LogicalExpression::Not(a) => ExprV::Not(Box::new(expr_view(a))),
        },
        Expression::Predicate(p) => ExprV::Pred(p@),
    }
}

impl View for Expression {
    type V = ExprV;

    open spec fn view(&self) -> ExprV {
        expr_view(*self)
    }
}

impl Expression {
    /// A copy of this expression.
    pub fn duplicate(&self) -> (r: Expression)
        ensures
            r@ == self@,
        decreases self,
    {
        match self {
            Expression::Logical(l) => {
                let inner = match &**l {
                    LogicalExpression::And(a, b) => LogicalExpression::And(a.duplicate(), b.duplicate()),
                    LogicalExpression::Or(a, b) => LogicalExpression::Or(a.duplicate(), b.duplicate()),
                    LogicalExpression::Not(a) => LogicalExpression::Not(a.duplicate()),
                };
                Expression::Logical(Box::new(inner))
            },
            Expression::Predicate(p) => Expression::Predicate(p.duplicate()),
        }
    }
}

} // verus!
