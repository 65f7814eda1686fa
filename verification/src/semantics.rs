use vstd::prelude::*;
use vstd::multiset::Multiset;
use crate::ast::{
    BinaryOperator, ExprV, Expression, LhsTransformations, LogicalExpression, Predicate,
    PredicateV, Type, Value, ValueV, has_transformation, type_of_value,
};
use crate::schema::{Schema, field_type};
use crate::strmap::StrMap;

verus! {

broadcast use vstd::multiset::group_multiset_axioms;

pub const MSG_UNKNOWN_LHS: &'static str = "Unknown LHS field";

pub const MSG_TYPE_MISMATCH_LHS_RHS: &'static str =
    "Type mismatch between the LHS and RHS values of predicate";

pub const MSG_LOWER_ONLY_FOR_STRING: &'static str =
    "lower-case transformation function only supported with String type fields";

pub const MSG_REGEX_ONLY_FOR_STRING: &'static str = "Regex operators only supports string operands";

pub const MSG_PREFFIX_POSTFIX_ONLY_FOR_STRING: &'static str =
    "Prefix/Postfix operators only supports string operands";

pub const MSG_ONLY_FOR_INT: &'static str =
    "Greater/GreaterOrEqual/Less/LessOrEqual operators only supports integer operands";

pub const MSG_ONLY_FOR_CIDR: &'static str = "In/NotIn operators only supports IP in CIDR";

pub const MSG_CONTAINS_ONLY_FOR_CIDR: &'static str = "Contains operator only supports string operands";

/// The reason a predicate does not fit a schema, if it does not.
pub open spec fn predicate_problem(p: PredicateV, fields: Map<Seq<char>, Type>) -> Option<
    Seq<char>,
> {
    match field_type(fields, p.lhs.var_name) {
        None => Some(MSG_UNKNOWN_LHS@),
        Some(lhs_type) => if p.op != BinaryOperator::Regex && p.op != BinaryOperator::In && p.op
            != BinaryOperator::NotIn && lhs_type != type_of_value(p.rhs) {
            Some(MSG_TYPE_MISMATCH_LHS_RHS@)
        } else if has_transformation(p.lhs.transformations, LhsTransformations::Lower) && lhs_type
            != Type::String {
            Some(MSG_LOWER_ONLY_FOR_STRING@)
        } else {
            match p.op {
                BinaryOperator::Equals | BinaryOperator::NotEquals => None,
                BinaryOperator::Regex => if lhs_type == Type::String {
                    None
                } else {
                    Some(MSG_REGEX_ONLY_FOR_STRING@)
                },
                BinaryOperator::Prefix | BinaryOperator::Postfix => if p.rhs is String {
                    None
                } else {
                    Some(MSG_PREFFIX_POSTFIX_ONLY_FOR_STRING@)
                },
                BinaryOperator::Greater | BinaryOperator::GreaterOrEqual | BinaryOperator::Less
                | BinaryOperator::LessOrEqual => if p.rhs is Int {
                    None
                } else {
                    Some(MSG_ONLY_FOR_INT@)
                },
                BinaryOperator::In | BinaryOperator::NotIn => if lhs_type == Type::IpAddr
                    && p.rhs is IpCidr {
                    None
                } else {
                    Some(MSG_ONLY_FOR_CIDR@)
                },
                BinaryOperator::Contains => if p.rhs is String {
                    None
                } else {
                    Some(MSG_CONTAINS_ONLY_FOR_CIDR@)
                },
            }
        },
    }
}

/// A predicate with the transformations of its field taken off.
pub open spec fn untransformed(p: PredicateV) -> PredicateV {
    PredicateV {
        lhs: crate::ast::LhsV { var_name: p.lhs.var_name, transformations: Seq::empty() },
        rhs: p.rhs,
        op: p.op,
    }
}

/// Whether `lower()` may be applied depends on the field's type alone: on a field declared
/// `String`, a predicate fits the schema exactly as it does without its transformations,
/// whatever its operator and right-hand value; on a field of another declared type, a
/// predicate with `lower()` never fits.
pub proof fn law_lower_depends_on_field_type(p: PredicateV, fields: Map<Seq<char>, Type>)
    ensures
        field_type(fields, p.lhs.var_name) == Some(Type::String) ==> predicate_problem(p, fields)
            == predicate_problem(untransformed(p), fields),
        field_type(fields, p.lhs.var_name) is Some && field_type(fields, p.lhs.var_name)
            != Some(Type::String) && has_transformation(
            p.lhs.transformations,
            LhsTransformations::Lower,
        ) ==> predicate_problem(p, fields) is Some,
{
    let q = untransformed(p);
    assert(!has_transformation(q.lhs.transformations, LhsTransformations::Lower));
}

/// The first problem met when checking an expression against a schema, left operand
/// before right, if there is one.
pub open spec fn expr_problem(e: ExprV, fields: Map<Seq<char>, Type>) -> Option<Seq<char>>
    decreases e,
{
    match e {
        ExprV::And(a, b) | ExprV::Or(a, b) => match expr_problem(*a, fields) {
            Some(m) => Some(m),
            None => expr_problem(*b, fields),
        },
        ExprV::Not(a) => expr_problem(*a, fields),
        ExprV::Pred(p) => predicate_problem(p, fields),
    }
}

/// Checking an expression against a schema.
pub trait Validate {
    /// The problem that checking finds, if any.
    spec fn spec_problem(&self, fields: Map<Seq<char>, Type>) -> Option<Seq<char>>;

    /// Checks that every field is declared and that every operator fits the types of its
    /// operands; fails with the first problem met.
    fn validate(&self, schema: &Schema) -> (r: Result<(), String>)
        ensures
            r is Ok <==> self.spec_problem(schema@) is None,
            r matches Err(m) ==> self.spec_problem(schema@) == Some(m@),
    ;
}

/// An error carrying a message.
fn raise_err(msg: &str) -> (r: Result<(), String>)
    ensures
        r matches Err(m) && m@ == msg@,
{
    Err(msg.to_owned())
}

fn validate_predicate(p: &Predicate, schema: &Schema) -> (r: Result<(), String>)
    ensures
        r is Ok <==> predicate_problem(p@, schema@) is None,
        r matches Err(m) ==> predicate_problem(p@, schema@) == Some(m@),
{
    let lhs_type = match p.lhs.my_type(schema) {
        Some(t) => t,
        None => return raise_err(MSG_UNKNOWN_LHS),
    };
    if p.op != BinaryOperator::Regex && p.op != BinaryOperator::In && p.op != BinaryOperator::NotIn
        && lhs_type != p.rhs.my_type() {
        return raise_err(MSG_TYPE_MISMATCH_LHS_RHS);
    }
    let (lower, _any) = p.lhs.get_transformations();
    if lower && lhs_type != Type::String {
        return raise_err(MSG_LOWER_ONLY_FOR_STRING);
    }
    match p.op {
        BinaryOperator::Equals | BinaryOperator::NotEquals => Ok(()),
        BinaryOperator::Regex => match lhs_type {
            Type::String => Ok(()),
            _ => raise_err(MSG_REGEX_ONLY_FOR_STRING),
        },
        BinaryOperator::Prefix | BinaryOperator::Postfix => match p.rhs {
            Value::String(_) => Ok(()),
            _ => raise_err(MSG_PREFFIX_POSTFIX_ONLY_FOR_STRING),
        },
        BinaryOperator::Greater | BinaryOperator::GreaterOrEqual | BinaryOperator::Less
        | BinaryOperator::LessOrEqual => match p.rhs {
            Value::Int(_) => Ok(()),
            _ => raise_err(MSG_ONLY_FOR_INT),
        },
        BinaryOperator::In | BinaryOperator::NotIn => match (lhs_type, &p.rhs) {
            (Type::IpAddr, Value::IpCidr(_)) => Ok(()),
            _ => raise_err(MSG_ONLY_FOR_CIDR),
        },
        BinaryOperator::Contains => match p.rhs {
            Value::String(_) => Ok(()),
            _ => raise_err(MSG_CONTAINS_ONLY_FOR_CIDR),
        },
    }
}

impl Validate for Expression {
    open spec fn spec_problem(&self, fields: Map<Seq<char>, Type>) -> Option<Seq<char>> {
        expr_problem(self@, fields)
    }

    fn validate(&self, schema: &Schema) -> (r: Result<(), String>)
        decreases self,
    {
        match self {
            Expression::Logical(l) => match &**l {
                LogicalExpression::And(a, b) | LogicalExpression::Or(a, b) => {
                    a.validate(schema)?;
                    b.validate(schema)
                },
                LogicalExpression::Not(a) => a.validate(schema),
            },
            Expression::Predicate(p) => validate_predicate(p, schema),
        }
    }
}

/// The fields that an expression reads, each counted once per predicate on it.
pub open spec fn expr_fields(e: ExprV) -> Multiset<Seq<char>>
    decreases e,
{
    match e {
        ExprV::And(a, b) | ExprV::Or(a, b) => expr_fields(*a).add(expr_fields(*b)),
        ExprV::Not(a) => expr_fields(*a),
        ExprV::Pred(p) => Multiset::singleton(p.lhs.var_name),
    }
}

/// How often a counter map counts a key; an absent key counts zero.
pub open spec fn count_in(m: Map<Seq<char>, usize>, k: Seq<char>) -> nat {
    if m.contains_key(k) {
        m[k] as nat
    } else {
        0
    }
}

/// A counter map holds only keys with a positive count.
pub open spec fn counts_positive(m: Map<Seq<char>, usize>) -> bool {
    forall|k: Seq<char>| m.contains_key(k) ==> m[k] > 0
}

/// Counting the fields that expressions read.
pub trait FieldCounter {
    /// The fields counted, with their multiplicities.
    spec fn spec_fields(&self) -> Multiset<Seq<char>>;

    /// Adds one count per predicate to the predicate's field.
    fn add_to_counter(&self, map: &mut StrMap<usize>)
        requires
            counts_positive(old(map)@),
            forall|k: Seq<char>| count_in(old(map)@, k) + self.spec_fields().count(k) <= usize::MAX,
        ensures
            counts_positive(final(map)@),
            forall|k: Seq<char>| count_in(final(map)@, k) == count_in(old(map)@, k)
                + self.spec_fields().count(k),
    ;

    /// Takes away one count per predicate from the predicate's field; a field whose count
    /// drops to zero leaves the map.
    fn remove_from_counter(&self, map: &mut StrMap<usize>)
        requires
            counts_positive(old(map)@),
            forall|k: Seq<char>| self.spec_fields().count(k) <= count_in(old(map)@, k),
        ensures
            counts_positive(final(map)@),
            forall|k: Seq<char>| count_in(final(map)@, k) == count_in(old(map)@, k)
                - self.spec_fields().count(k),
    ;
}

/// Adds one count to a field.
pub fn count_one(map: &mut StrMap<usize>, field: &String)
    requires
        counts_positive(old(map)@),
        count_in(old(map)@, field@) < usize::MAX,
    ensures
        counts_positive(final(map)@),
        forall|k: Seq<char>| count_in(final(map)@, k) == count_in(old(map)@, k) + (if k == field@ {
            1nat
        } else {
            0nat
        }),
{
    let n: usize = match map.get(field.as_str()) {
        Some(c) => *c,
        None => 0,
    };
    map.insert(field.clone(), n + 1);
}

/// Takes one count away from a field; the field leaves when its count reaches zero.
pub fn uncount_one(map: &mut StrMap<usize>, field: &String)
    requires
        counts_positive(old(map)@),
        count_in(old(map)@, field@) > 0,
    ensures
        counts_positive(final(map)@),
        forall|k: Seq<char>| count_in(final(map)@, k) == count_in(old(map)@, k) - (if k == field@ {
            1int
        } else {
            0int
        }),
{
    let n: usize = match map.get(field.as_str()) {
        Some(c) => *c,
        None => 0,
    };
    if n <= 1 {
        let key = crate::text::chars_of(field.as_str());
        map.remove(key.as_slice());
    } else {
        map.insert(field.clone(), n - 1);
    }
}

impl FieldCounter for Predicate {
    open spec fn spec_fields(&self) -> Multiset<Seq<char>> {
        Multiset::singleton(self.lhs.var_name@)
    }

    fn add_to_counter(&self, map: &mut StrMap<usize>) {
        proof {
            let f = self.lhs.var_name@;
            assert(count_in(map@, f) + self.spec_fields().count(f) <= usize::MAX);
        }
        count_one(map, &self.lhs.var_name);
    }

    fn remove_from_counter(&self, map: &mut StrMap<usize>) {
        proof {
            let f = self.lhs.var_name@;
            assert(self.spec_fields().count(f) <= count_in(map@, f));
        }
        uncount_one(map, &self.lhs.var_name);
    }
}

impl FieldCounter for Expression {
    open spec fn spec_fields(&self) -> Multiset<Seq<char>> {
        expr_fields(self@)
    }

    fn add_to_counter(&self, map: &mut StrMap<usize>)
        decreases self,
    {
        match self {
            Expression::Logical(l) => match &**l {
                LogicalExpression::And(a, b) | LogicalExpression::Or(a, b) => {
                    proof {
                        assert forall|k: Seq<char>|
                            count_in(map@, k) + a.spec_fields().count(k) <= usize::MAX by {
                            assert(count_in(map@, k) + self.spec_fields().count(k) <= usize::MAX);
                        }
                    }
                    a.add_to_counter(map);
                    proof {
                        assert forall|k: Seq<char>|
                            count_in(map@, k) + b.spec_fields().count(k) <= usize::MAX by {
                            assert(count_in(old(map)@, k) + self.spec_fields().count(k)
                                <= usize::MAX);
                        }
                    }
                    b.add_to_counter(map);
                },
                LogicalExpression::Not(a) => {
                    assert(a.spec_fields() == self.spec_fields());
                    a.add_to_counter(map)
                },
            },
            Expression::Predicate(p) => {
                assert(p.spec_fields() == self.spec_fields());
                p.add_to_counter(map)
            },
        }
    }

    fn remove_from_counter(&self, map: &mut StrMap<usize>)
        decreases self,
    {
        match self {
            Expression::Logical(l) => match &**l {
                LogicalExpression::And(a, b) | LogicalExpression::Or(a, b) => {
                    proof {
                        assert forall|k: Seq<char>|
                            a.spec_fields().count(k) <= count_in(map@, k) by {
                            assert(self.spec_fields().count(k) <= count_in(map@, k));
                        }
                    }
                    a.remove_from_counter(map);
                    proof {
                        assert forall|k: Seq<char>|
                            b.spec_fields().count(k) <= count_in(map@, k) by {
                            assert(self.spec_fields().count(k) <= count_in(old(map)@, k));
                        }
                    }
                    b.remove_from_counter(map);
                },
                LogicalExpression::Not(a) => {
                    assert(a.spec_fields() == self.spec_fields());
                    a.remove_from_counter(map)
                },
            },
            Expression::Predicate(p) => {
                assert(p.spec_fields() == self.spec_fields());
                p.remove_from_counter(map)
            },
        }
    }
}

} // verus!
