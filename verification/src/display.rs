use vstd::prelude::*;
use crate::ast::{
    BinaryOperator, ExprV, Expression, Lhs, LhsTransformations, LhsV, LogicalExpression,
    Predicate, PredicateV, Value, ValueV,
};
use crate::net::{cidr_text, format_ip, ip_text};
use crate::text::{decimal_string, decimal_text, push_str};

verus! {

/// The name of a transformation.
pub open spec fn transformation_text(t: LhsTransformations) -> Seq<char> {
    match t {
        LhsTransformations::Lower => "lower"@,
        LhsTransformations::Any => "any"@,
    }
}

/// How an operator is written.
pub open spec fn operator_text(op: BinaryOperator) -> Seq<char> {
    match op {
        BinaryOperator::Equals => "=="@,
        BinaryOperator::NotEquals => "!="@,
        BinaryOperator::Regex => "~"@,
        BinaryOperator::Prefix => "^="@,
        BinaryOperator::Postfix => "=^"@,
        BinaryOperator::Greater => ">"@,
        BinaryOperator::GreaterOrEqual => ">="@,
        BinaryOperator::Less => "<"@,
        BinaryOperator::LessOrEqual => "<="@,
        BinaryOperator::In => "in"@,
        BinaryOperator::NotIn => "not in"@,
        BinaryOperator::Contains => "contains"@,
    }
}

/// A field name inside calls of its transformations, the first one innermost.
pub open spec fn wrapped_text(name: Seq<char>, ts: Seq<LhsTransformations>) -> Seq<char>
    decreases ts.len(),
{
    if ts.len() == 0 {
        name
    } else {
        transformation_text(ts.last()) + seq!['('] + wrapped_text(name, ts.drop_last()) + seq![')']
    }
}

/// How a left-hand side is written.
pub open spec fn lhs_text(l: LhsV) -> Seq<char> {
    wrapped_text(l.var_name, l.transformations)
}

/// How an integer is written in decimal.
pub open spec fn int_text(i: i64) -> Seq<char> {
    if i < 0 {
        seq!['-'] + decimal_text((-i) as nat)
    } else {
        decimal_text(i as nat)
    }
}

/// How a value is written: strings and patterns in double quotes, as they are; addresses
/// and networks as `core::net::IpAddr` and `cidr::IpCidr` display them.
pub open spec fn value_text(v: ValueV) -> Seq<char> {
    match v {
        ValueV::String(s) => seq!['"'] + s + seq!['"'],
        ValueV::IpCidr(c) => cidr_text(c.spec_addr(), c.spec_len()),
        ValueV::IpAddr(a) => ip_text(a),
        ValueV::Int(i) => int_text(i),
        ValueV::Regex(p) => seq!['"'] + p + seq!['"'],
    }
}

/// How a predicate is written: in parentheses, its parts apart.
pub open spec fn predicate_text(p: PredicateV) -> Seq<char> {
    seq!['('] + lhs_text(p.lhs) + seq![' '] + operator_text(p.op) + seq![' '] + value_text(p.rhs)
        + seq![')']
}

/// How an expression is written: every operation in parentheses, a negation as `!`
/// before its operand.
pub open spec fn expr_text(e: ExprV) -> Seq<char>
    decreases e,
{
    match e {
        ExprV::And(a, b) => seq!['('] + expr_text(*a) + " && "@ + expr_text(*b) + seq![')'],
        ExprV::Or(a, b) => seq!['('] + expr_text(*a) + " || "@ + expr_text(*b) + seq![')'],
        ExprV::Not(a) => seq!['!'] + expr_text(*a),
        ExprV::Pred(p) => predicate_text(p),
    }
}

impl LhsTransformations {
    /// The name of this transformation.
    pub fn to_string(&self) -> (r: String)
        ensures
            r@ == transformation_text(*self),
    {
        match self {
            LhsTransformations::Lower => "lower".to_owned(),
            LhsTransformations::Any => "any".to_owned(),
        }
    }
}

impl BinaryOperator {
    /// How this operator is written.
    pub fn to_string(&self) -> (r: String)
        ensures
            r@ == operator_text(*self),
    {
        match self {
            BinaryOperator::Equals => "==",
            BinaryOperator::NotEquals => "!=",
            BinaryOperator::Regex => "~",
            BinaryOperator::Prefix => "^=",
            BinaryOperator::Postfix => "=^",
            BinaryOperator::Greater => ">",
            BinaryOperator::GreaterOrEqual => ">=",
            BinaryOperator::Less => "<",
            BinaryOperator::LessOrEqual => "<=",
            BinaryOperator::In => "in",
            BinaryOperator::NotIn => "not in",
            BinaryOperator::Contains => "contains",
        }.to_owned()
    }
}

impl Lhs {
    /// How this left-hand side is written.
    pub fn to_string(&self) -> (r: String)
        ensures
            r@ == lhs_text(self@),
    {
        let ts = &self.transformations;
        let mut s = self.var_name.clone();
        let mut i: usize = 0;
        while i < ts.len()
            invariant
                i <= ts@.len(),
                ts@ == self.transformations@,
                s@ == wrapped_text(self.var_name@, ts@.take(i as int)),
            decreases ts@.len() - i,
        {
            assert(ts@.take(i + 1).drop_last() =~= ts@.take(i as int));
            let mut w = ts[i].to_string();
            w.push('(');
            push_str(&mut w, s.as_str());
            w.push(')');
            s = w;
            i = i + 1;
            assert(s@ =~= wrapped_text(self.var_name@, ts@.take(i as int)));
        }
        assert(ts@.take(ts@.len() as int) =~= ts@);
        s
    }
}

impl Value {
    /// How this value is written.
    pub fn to_string(&self) -> (r: String)
        ensures
            r@ == value_text(self@),
    {
        match self {
            Value::String(s) | Value::Regex(s) => {
                let mut r = String::new();
                r.push('"');
                push_str(&mut r, s.as_str());
                r.push('"');
                assert(r@ =~= value_text(self@));
                r
            },
            Value::IpCidr(c) => c.to_string(),
            Value::IpAddr(a) => format_ip(*a),
            Value::Int(i) => {
                if *i < 0 {
                    let mut r = String::new();
                    r.push('-');
                    let m = decimal_string((-(*i as i128)) as u128);
                    push_str(&mut r, m.as_str());
                    assert(r@ =~= value_text(self@));
                    r
                } else {
                    decimal_string(*i as u128)
                }
            },
        }
    }
}

impl Predicate {
    /// How this predicate is written.
    pub fn to_string(&self) -> (r: String)
        ensures
            r@ == predicate_text(self@),
    {
        let mut r = String::new();
        r.push('(');
        push_str(&mut r, self.lhs.to_string().as_str());
        r.push(' ');
        push_str(&mut r, self.op.to_string().as_str());
        r.push(' ');
        push_str(&mut r, self.rhs.to_string().as_str());
        r.push(')');
        assert(r@ =~= predicate_text(self@));
        r
    }
}

impl LogicalExpression {
    /// How this combination is written.
    pub fn to_string(&self) -> (r: String)
        ensures
            r@ == expr_text(Expression::Logical(Box::new(*self))@),
        decreases self,
    {
        let mut r = String::new();
        match self {
            LogicalExpression::And(a, b) | LogicalExpression::Or(a, b) => {
                r.push('(');
                push_str(&mut r, a.to_string().as_str());
                match self {
                    LogicalExpression::And(_, _) => push_str(&mut r, " && "),
                    _ => push_str(&mut r, " || "),
                }
                push_str(&mut r, b.to_string().as_str());
                r.push(')');
            },
            LogicalExpression::Not(a) => {
                r.push('!');
                push_str(&mut r, a.to_string().as_str());
            },
        }
        assert(r@ =~= expr_text(Expression::Logical(Box::new(*self))@));
        r
    }
}

impl Expression {
    /// How this expression is written.
    pub fn to_string(&self) -> (r: String)
        ensures
            r@ == expr_text(self@),
        decreases self,
    {
        match self {
            Expression::Logical(l) => l.to_string(),
            Expression::Predicate(p) => p.to_string(),
        }
    }
}

} // verus!
