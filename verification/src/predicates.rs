use vstd::prelude::*;
use vstd::arithmetic::power2::{pow2, lemma2_to64};
use crate::ast::{BinaryOperator, ExprV, Expression, LogicalExpression, Predicate, PredicateV, Type};
use crate::parser::{parse, render, spec_parse};
use crate::schema::Schema;
use crate::semantics::{Validate, expr_problem};
use crate::text::str_eq;
use vstd::string::StringSliceAdditionalSpecFns;
use vstd::utf8::encode_utf8;

verus! {

/// The predicates of an expression in the order a depth-first walk with a stack meets
/// them: of a binary node, the right operand's before the left's.
pub open spec fn expr_predicates(e: ExprV) -> Seq<PredicateV>
    decreases e,
{
    match e {
        ExprV::And(a, b) | ExprV::Or(a, b) => expr_predicates(*b) + expr_predicates(*a),
        ExprV::Not(a) => expr_predicates(*a),
        ExprV::Pred(p) => seq![p],
    }
}

/// The predicates still to be met when the walk's stack holds `st` (top last).
pub open spec fn stack_predicates(st: Seq<ExprV>) -> Seq<PredicateV>
    decreases st.len(),
{
    if st.len() == 0 {
        Seq::empty()
    } else {
        expr_predicates(st.last()) + stack_predicates(st.drop_last())
    }
}

/// The number of nodes of an expression.
pub open spec fn expr_size(e: ExprV) -> nat
    decreases e,
{
    match e {
        ExprV::And(a, b) | ExprV::Or(a, b) => 1 + expr_size(*a) + expr_size(*b),
        ExprV::Not(a) => 1 + expr_size(*a),
        ExprV::Pred(_) => 1,
    }
}

/// The number of nodes on a walk's stack.
pub open spec fn stack_size(st: Seq<ExprV>) -> nat
    decreases st.len(),
{
    if st.len() == 0 {
        0
    } else {
        expr_size(st.last()) + stack_size(st.drop_last())
    }
}

/// The mathematical form of a stack of expressions.
pub open spec fn stack_view(st: Seq<&Expression>) -> Seq<ExprV> {
    st.map_values(|e: &Expression| e@)
}

/// Walks the predicates of an expression, as [`expr_predicates`] orders them.
#[derive(Debug)]
pub struct PredicateIterator<'a> {
    stack: Vec<&'a Expression>,
}

impl<'a> PredicateIterator<'a> {
    /// The predicates not yet given out.
    pub closed spec fn remaining(&self) -> Seq<PredicateV> {
        stack_predicates(stack_view(self.stack@))
    }

    /// A walk over the predicates of `expr`.
    pub fn new(expr: &'a Expression) -> (r: PredicateIterator<'a>)
        ensures
            r.remaining() == expr_predicates(expr@),
    {
        let mut stack: Vec<&'a Expression> = Vec::new();
        stack.push(expr);
        let r = PredicateIterator { stack };
        assert(stack_view(r.stack@).drop_last() =~= Seq::<ExprV>::empty());
        assert(stack_view(r.stack@).last() == expr@);
        assert(stack_predicates(Seq::<ExprV>::empty()) =~= Seq::<PredicateV>::empty());
        assert(expr_predicates(expr@) + Seq::<PredicateV>::empty() =~= expr_predicates(expr@));
        r
    }

    /// The next predicate, if any is left.
    pub fn next(&mut self) -> (r: Option<&'a Predicate>)
        ensures
            match r {
                None => old(self).remaining().len() == 0 && final(self).remaining().len() == 0,
                Some(p) => old(self).remaining().len() > 0 && p@ == old(self).remaining()[0]
                    && final(self).remaining() == old(self).remaining().drop_first(),
            },
    {
        loop
            invariant
                self.remaining() == old(self).remaining(),
            decreases stack_size(stack_view(self.stack@)),
        {
            let ghost st = stack_view(self.stack@);
            match self.stack.pop() {
                None => {
                    return None;
                },
                Some(expr) => {
                    let ghost rest = stack_view(self.stack@);
                    assert(rest =~= st.drop_last());
                    assert(st.last() == expr@);
                    assert(stack_size(st) == expr_size(expr@) + stack_size(rest));
                    assert(stack_predicates(st) == expr_predicates(expr@) + stack_predicates(
                        rest,
                    ));
                    match expr {
                        Expression::Logical(l) => match &**l {
                            LogicalExpression::And(a, b) | LogicalExpression::Or(a, b) => {
                                self.stack.push(a);
                                self.stack.push(b);
                                let ghost st2 = stack_view(self.stack@);
                                assert(st2.drop_last() =~= rest.push(a@));
                                assert(st2.drop_last().drop_last() =~= rest);
                                assert(st2.last() == b@);
                                assert(st2.drop_last().last() == a@);
                                assert(stack_predicates(st2.drop_last()) == expr_predicates(
                                    a@,
                                ) + stack_predicates(rest));
                                assert(stack_predicates(st2) == expr_predicates(b@)
                                    + stack_predicates(st2.drop_last()));
                                assert(stack_predicates(st2) =~= expr_predicates(b@) + (
                                expr_predicates(a@) + stack_predicates(rest)));
                                assert(stack_size(st2.drop_last()) == expr_size(a@) + stack_size(
                                    rest,
                                ));
                                assert(stack_size(st2) == expr_size(b@) + stack_size(
                                    st2.drop_last(),
                                ));
                            },
                            LogicalExpression::Not(a) => {
                                self.stack.push(a);
                                let ghost st2 = stack_view(self.stack@);
                                assert(st2.drop_last() =~= rest);
                                assert(st2.last() == a@);
                                assert(stack_predicates(st2) == expr_predicates(a@)
                                    + stack_predicates(rest));
                                assert(stack_size(st2) == expr_size(a@) + stack_size(rest));
                            },
                        },
                        Expression::Predicate(p) => {
                            assert(old(self).remaining() =~= seq![p@] + stack_predicates(rest));
                            assert(self.remaining() =~= old(self).remaining().drop_first());
                            return Some(p);
                        },
                    }
                },
            }
        }
    }
}

impl Expression {
    /// A walk over this expression's predicates.
    pub fn iter_predicates(&self) -> (r: PredicateIterator<'_>)
        ensures
            r.remaining() == expr_predicates(self@),
    {
        PredicateIterator::new(self)
    }
}

/// The place of an operator in the order the operators are declared in, from `Equals` at 0
/// to `Contains` at 11.
pub open spec fn operator_position(op: BinaryOperator) -> nat {
    match op {
        BinaryOperator::Equals => 0,
        BinaryOperator::NotEquals => 1,
        BinaryOperator::Regex => 2,
        BinaryOperator::Prefix => 3,
        BinaryOperator::Postfix => 4,
        BinaryOperator::Greater => 5,
        BinaryOperator::GreaterOrEqual => 6,
        BinaryOperator::Less => 7,
        BinaryOperator::LessOrEqual => 8,
        BinaryOperator::In => 9,
        BinaryOperator::NotIn => 10,
        BinaryOperator::Contains => 11,
    }
}

/// Each operator has a bit of its own: the bit of an operator is two to the power of its
/// place among the operators, so two different operators never share a bit.
pub proof fn law_each_operator_has_its_own_bit(a: BinaryOperator, b: BinaryOperator)
    ensures
        operator_bit(a) == pow2(operator_position(a)),
        a != b ==> operator_bit(a) != operator_bit(b),
{
    lemma2_to64();
}

/// The bit that stands for an operator in a set of operators.
pub open spec fn operator_bit(op: BinaryOperator) -> u64 {
    match op {
        BinaryOperator::Equals => 0x1,
        BinaryOperator::NotEquals => 0x2,
        BinaryOperator::Regex => 0x4,
        BinaryOperator::Prefix => 0x8,
        BinaryOperator::Postfix => 0x10,
        BinaryOperator::Greater => 0x20,
        BinaryOperator::GreaterOrEqual => 0x40,
        BinaryOperator::Less => 0x80,
        BinaryOperator::LessOrEqual => 0x100,
        BinaryOperator::In => 0x200,
        BinaryOperator::NotIn => 0x400,
        BinaryOperator::Contains => 0x800,
    }
}

/// A set of operators, one bit each.
#[derive(Clone, Copy, Debug, PartialEq, Eq, Structural)]
pub struct BinaryOperatorFlags {
    bits: u64,
}

impl BinaryOperatorFlags {
    /// The bits of the set.
    pub closed spec fn spec_bits(&self) -> u64 {
        self.bits
    }

    /// The empty set.
    pub fn empty() -> (r: BinaryOperatorFlags)
        ensures
            r.spec_bits() == 0,
    {
        BinaryOperatorFlags { bits: 0 }
    }

    /// The set that holds `op` alone.
    pub fn from_operator(op: &BinaryOperator) -> (r: BinaryOperatorFlags)
        ensures
            r.spec_bits() == operator_bit(*op),
    {
        let bits: u64 = match op {
            BinaryOperator::Equals => 0x1,
            BinaryOperator::NotEquals => 0x2,
            BinaryOperator::Regex => 0x4,
            BinaryOperator::Prefix => 0x8,
            BinaryOperator::Postfix => 0x10,
            BinaryOperator::Greater => 0x20,
            BinaryOperator::GreaterOrEqual => 0x40,
            BinaryOperator::Less => 0x80,
            BinaryOperator::LessOrEqual => 0x100,
            BinaryOperator::In => 0x200,
            BinaryOperator::NotIn => 0x400,
            BinaryOperator::Contains => 0x800,
        };
        BinaryOperatorFlags { bits }
    }

    /// The operators of either set.
    pub fn union(self, other: BinaryOperatorFlags) -> (r: BinaryOperatorFlags)
        ensures
            r.spec_bits() == self.spec_bits() | other.spec_bits(),
    {
        BinaryOperatorFlags { bits: self.bits | other.bits }
    }

    /// The bits of the set.
    pub fn bits(&self) -> (r: u64)
        ensures
            r == self.spec_bits(),
    {
        self.bits
    }
}

/// The bits of the operators that a list of predicates uses.
pub open spec fn operator_bits(ps: Seq<PredicateV>) -> u64
    decreases ps.len(),
{
    if ps.len() == 0 {
        0
    } else {
        operator_bits(ps.drop_last()) | operator_bit(ps.last().op)
    }
}

/// A list without its repetitions, each item where it first occurs.
pub open spec fn first_occurrences(s: Seq<Seq<char>>) -> Seq<Seq<char>>
    decreases s.len(),
{
    if s.len() == 0 {
        Seq::empty()
    } else {
        let d = first_occurrences(s.drop_last());
        if d.contains(s.last()) {
            d
        } else {
            d.push(s.last())
        }
    }
}

/// The fields that a list of predicates reads, in order.
pub open spec fn predicate_fields(ps: Seq<PredicateV>) -> Seq<Seq<char>> {
    ps.map_values(|p: PredicateV| p.lhs.var_name)
}

fn holds_text(v: &Vec<String>, t: &String) -> (r: bool)
    ensures
        r == v@.map_values(|s: String| s@).contains(t@),
{
    let ghost vs = v@.map_values(|s: String| s@);
    let mut i: usize = 0;
    while i < v.len()
        invariant
            i <= v@.len(),
            vs == v@.map_values(|s: String| s@),
            forall|j: int| 0 <= j < i ==> vs[j] != t@,
        decreases v@.len() - i,
    {
        if str_eq(v[i].as_str(), t.as_str()) {
            assert(vs[i as int] == t@);
            return true;
        }
        i = i + 1;
    }
    false
}

/// The fields that an expression reads, each once, in the order its predicates are walked,
/// and the operators it uses.
pub fn used_fields_and_operators(expr: &Expression) -> (r: (Vec<String>, BinaryOperatorFlags))
    ensures
        r.0@.map_values(|s: String| s@) == first_occurrences(
            predicate_fields(expr_predicates(expr@)),
        ),
        r.1.spec_bits() == operator_bits(expr_predicates(expr@)),
{
    let ghost all = expr_predicates(expr@);
    let mut iter = expr.iter_predicates();
    let mut fields: Vec<String> = Vec::new();
    let mut ops = BinaryOperatorFlags::empty();
    let ghost mut k: int = 0;
    assert(all.take(0) =~= Seq::<PredicateV>::empty());
    assert(predicate_fields(all.take(0)) =~= Seq::<Seq<char>>::empty());
    assert(fields@.map_values(|s: String| s@) =~= Seq::<Seq<char>>::empty());
    loop
        invariant
            all == expr_predicates(expr@),
            0 <= k <= all.len(),
            iter.remaining() == all.skip(k),
            fields@.map_values(|s: String| s@) == first_occurrences(
                predicate_fields(all.take(k)),
            ),
            ops.spec_bits() == operator_bits(all.take(k)),
        decreases all.len() - k,
    {
        let ghost before = iter.remaining();
        match iter.next() {
            None => {
                assert(all.take(k) =~= all);
                return (fields, ops);
            },
            Some(pred) => {
                proof {
                    assert(pred@ == all[k]);
                    assert(all.take(k + 1).drop_last() =~= all.take(k));
                    assert(predicate_fields(all.take(k + 1)).drop_last() =~= predicate_fields(
                        all.take(k),
                    ));
                }
                ops = ops.union(BinaryOperatorFlags::from_operator(&pred.op));
                if !holds_text(&fields, &pred.lhs.var_name) {
                    fields.push(pred.lhs.var_name.clone());
                    assert(fields@.map_values(|s: String| s@) =~= first_occurrences(
                        predicate_fields(all.take(k)),
                    ).push(pred.lhs.var_name@));
                }
                proof {
                    assert(iter.remaining() =~= all.skip(k + 1));
                    k = k + 1;
                }
            },
        }
    }
}

/// The result code of an expression that checks out and whose fields fit the buffer.
pub const ATC_ROUTER_EXPRESSION_VALIDATE_OK: i64 = 0;

/// The result code of an expression that does not parse or does not fit the schema.
pub const ATC_ROUTER_EXPRESSION_VALIDATE_FAILED: i64 = 1;

/// The result code of an expression whose fields do not fit the buffer.
pub const ATC_ROUTER_EXPRESSION_VALIDATE_BUF_TOO_SMALL: i64 = 2;

/// The bytes that a list of fields takes when each is written in UTF-8 and ended by a zero
/// byte.
pub open spec fn fields_bytes(fs: Seq<Seq<char>>) -> nat
    decreases fs.len(),
{
    if fs.len() == 0 {
        0
    } else {
        fields_bytes(fs.drop_last()) + encode_utf8(fs.last()).len() + 1
    }
}

/// What checking an expression against a schema gives, for a field buffer of `buf_len`
/// bytes: the parse error's message, or the schema problem, with the failure code; the
/// buffer code when the fields do not fit; else the fields, each once, the bytes they take,
/// and the bits of the operators used.
pub open spec fn validation(atc: Seq<char>, fields: Map<Seq<char>, Type>, buf_len: nat) -> Result<
    (Seq<Seq<char>>, nat, u64),
    (i64, Seq<char>),
> {
    match spec_parse(atc) {
        Err(f) => Err((ATC_ROUTER_EXPRESSION_VALIDATE_FAILED, render(atc, f))),
        Ok(e) => match expr_problem(e, fields) {
            Some(m) => Err((ATC_ROUTER_EXPRESSION_VALIDATE_FAILED, m)),
            None => {
                let fs = first_occurrences(predicate_fields(expr_predicates(e)));
                if fields_bytes(fs) > buf_len {
                    Err((ATC_ROUTER_EXPRESSION_VALIDATE_BUF_TOO_SMALL, Seq::empty()))
                } else {
                    Ok((fs, fields_bytes(fs), operator_bits(expr_predicates(e))))
                }
            },
        },
    }
}

proof fn lemma_fields_bytes_grow(fs: Seq<Seq<char>>, j: int)
    requires
        0 <= j <= fs.len(),
    ensures
        fields_bytes(fs.take(j)) <= fields_bytes(fs),
    decreases fs.len() - j,
{
    if j < fs.len() {
        lemma_fields_bytes_grow(fs, j + 1);
        assert(fs.take(j + 1).drop_last() =~= fs.take(j));
    } else {
        assert(fs.take(j) =~= fs);
    }
}

/// Checks an expression against a schema and lists the fields it reads, each once, for a
/// buffer of `fields_buf_len` bytes that holds them ended by zero bytes; gives the fields,
/// the bytes they take and the bits of the operators used, or a result code and a message.
pub fn validate_expression(atc: &str, schema: &Schema, fields_buf_len: usize) -> (r: Result<
    (Vec<String>, usize, u64),
    (i64, String),
>)
    ensures
        match (r, validation(atc@, schema@, fields_buf_len as nat)) {
            (Ok((fs, n, ops)), Ok((sfs, sn, sops))) => fs@.map_values(|s: String| s@) == sfs && n
                == sn && ops == sops,
            (Err((c, m)), Err((sc, sm))) => c == sc && m@ == sm,
            _ => false,
        },
{
    let ast = match parse(atc) {
        Ok(a) => a,
        Err(e) => {
            return Err((ATC_ROUTER_EXPRESSION_VALIDATE_FAILED, e.to_string()));
        },
    };
    if let Err(e) = ast.validate(schema) {
        return Err((ATC_ROUTER_EXPRESSION_VALIDATE_FAILED, e));
    }
    let (fields, ops) = used_fields_and_operators(&ast);
    let ghost fs = fields@.map_values(|s: String| s@);
    let mut total: usize = 0;
    let mut i: usize = 0;
    assert(fs.take(0) =~= Seq::<Seq<char>>::empty());
    while i < fields.len()
        invariant
            i <= fields@.len(),
            fs == fields@.map_values(|s: String| s@),
            spec_parse(atc@) == Ok::<ExprV, crate::parser::FailureV>(ast@),
            expr_problem(ast@, schema@) is None,
            fs == first_occurrences(predicate_fields(expr_predicates(ast@))),
            total == fields_bytes(fs.take(i as int)),
            total <= fields_buf_len,
        decreases fields@.len() - i,
    {
        let name: &str = fields[i].as_str();
        let n: usize = name.as_bytes().len();
        proof {
            assert(fs.take(i + 1).drop_last() =~= fs.take(i as int));
            assert(fs[i as int] == fields@[i as int]@);
            assert(fs.take(i + 1).last() == fs[i as int]);
            assert(name@ == fs[i as int]);
            assert(n == name.spec_bytes().len());
            assert(n == encode_utf8(fs[i as int]).len());
        }
        if n >= fields_buf_len - total {
            proof {
                lemma_fields_bytes_grow(fs, i + 1);
            }
            return Err((ATC_ROUTER_EXPRESSION_VALIDATE_BUF_TOO_SMALL, String::new()));
        }
        total = total + n + 1;
        i = i + 1;
    }
    assert(fs.take(fields@.len() as int) =~= fs);
    Ok((fields, total, ops.bits()))
}

} // verus!
