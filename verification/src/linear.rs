use vstd::prelude::*;
use crate::ast::{ExprV, Expression, LogicalExpression, Predicate, PredicateV};

verus! {

/// A linear program written operands first.
#[derive(Debug)]
pub struct Lir {
    pub codes: Vec<LirCode>,
}

/// One entry of a [`Lir`].
#[derive(Debug)]
pub enum LirCode {
    LogicalOperator(LirLogicalOperators),
    Predicate(Predicate),
}

/// A logical operator of a [`Lir`].
#[derive(Debug, Clone, Copy, PartialEq, Eq, Structural)]
pub enum LirLogicalOperators {
    And,
    Or,
    Not,
}

/// The mathematical form of a [`LirCode`].
pub enum LirCodeV {
    Operator(LirLogicalOperators),
    Pred(PredicateV),
}

impl View for LirCode {
    type V = LirCodeV;

    open spec fn view(&self) -> LirCodeV {
        match self {
            LirCode::LogicalOperator(op) => LirCodeV::Operator(*op),
            LirCode::Predicate(p) => LirCodeV::Pred(p@),
        }
    }
}

/// The mathematical form of a list of entries.
pub open spec fn codes_view(v: Seq<LirCode>) -> Seq<LirCodeV> {
    v.map_values(|c: LirCode| c@)
}

/// An expression written operands first: its operands, then its operator.
pub open spec fn postfix_code(e: ExprV) -> Seq<LirCodeV>
    decreases e,
{
    match e {
        ExprV::And(a, b) => postfix_code(*a) + postfix_code(*b) + seq![
            LirCodeV::Operator(LirLogicalOperators::And),
        ],
        ExprV::Or(a, b) => postfix_code(*a) + postfix_code(*b) + seq![
            LirCodeV::Operator(LirLogicalOperators::Or),
        ],
        ExprV::Not(a) => postfix_code(*a) + seq![LirCodeV::Operator(LirLogicalOperators::Not)],
        ExprV::Pred(p) => seq![LirCodeV::Pred(p)],
    }
}

impl Lir {
    /// An empty program.
    pub fn new() -> (l: Lir)
        ensures
            l.codes@.len() == 0,
    {
        Lir { codes: Vec::new() }
    }
}

/// Appending an expression to a linear program.
pub trait Translate {
    /// Appends this expression, written operands first.
    fn translate(&self, route: &mut Lir);
}

impl Translate for Expression {
    fn translate(&self, route: &mut Lir)
        ensures
            codes_view(final(route).codes@) == codes_view(old(route).codes@) + postfix_code(self@),
    {
        append_postfix(self, route)
    }
}

fn append_postfix(e: &Expression, route: &mut Lir)
    ensures
        codes_view(final(route).codes@) == codes_view(old(route).codes@) + postfix_code(e@),
    decreases e,
{
    let ghost start = codes_view(route.codes@);
    match e {
        Expression::Logical(logic_exp) => match &**logic_exp {
            LogicalExpression::And(l, r) | LogicalExpression::Or(l, r) => {
                append_postfix(l, route);
                append_postfix(r, route);
                let ghost mid = codes_view(route.codes@);
                assert(mid =~= start + postfix_code(l@) + postfix_code(r@));
                let op = match &**logic_exp {
                    LogicalExpression::And(_, _) => LirLogicalOperators::And,
                    _ => LirLogicalOperators::Or,
                };
                route.codes.push(LirCode::LogicalOperator(op));
                assert(codes_view(route.codes@) =~= mid.push(LirCodeV::Operator(op)));
                assert(postfix_code(e@) =~= postfix_code(l@) + postfix_code(r@) + seq![
                    LirCodeV::Operator(op),
                ]);
                assert(codes_view(route.codes@) =~= start + postfix_code(e@));
            },
            LogicalExpression::Not(r) => {
                append_postfix(r, route);
                let ghost mid = codes_view(route.codes@);
                route.codes.push(LirCode::LogicalOperator(LirLogicalOperators::Not));
                assert(codes_view(route.codes@) =~= mid.push(
                    LirCodeV::Operator(LirLogicalOperators::Not),
                ));
                assert(codes_view(route.codes@) =~= start + postfix_code(e@));
            },
        },
        Expression::Predicate(p) => {
            route.codes.push(LirCode::Predicate(p.duplicate()));
            assert(codes_view(route.codes@) =~= start + postfix_code(e@));
        },
    }
}

} // verus!
