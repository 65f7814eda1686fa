use vstd::prelude::*;
use crate::ast::{ExprV, Expression, LogicalExpression, Predicate, PredicateV};

verus! {

/// A linear program: an expression written operator first.
#[derive(Debug)]
pub struct LirProgram {
    pub instructions: Vec<LirInstruction>,
}

/// One entry of a linear program.
#[derive(Debug)]
pub enum LirInstruction {
    LogicalOperator(LirLogicalOperator),
    Predicate(Predicate),
}

/// A logical operator of a linear program.
#[derive(Debug, Clone, Copy, PartialEq, Eq, Structural)]
pub enum LirLogicalOperator {
    And,
    Or,
    Not,
}

/// The mathematical form of a [`LirInstruction`].
pub enum LirInstructionV {
    Operator(LirLogicalOperator),
    Pred(PredicateV),
}

impl View for LirInstruction {
    type V = LirInstructionV;

    open spec fn view(&self) -> LirInstructionV {
        match self {
            LirInstruction::LogicalOperator(op) => LirInstructionV::Operator(*op),
            LirInstruction::Predicate(p) => LirInstructionV::Pred(p@),
        }
    }
}

/// The mathematical form of a list of entries.
pub open spec fn lir_view(v: Seq<LirInstruction>) -> Seq<LirInstructionV> {
    v.map_values(|i: LirInstruction| i@)
}

/// An expression written operator first: an operator, then its operands.
pub open spec fn prefix_code(e: ExprV) -> Seq<LirInstructionV>
    decreases e,
{
    match e {
        ExprV::And(a, b) => seq![LirInstructionV::Operator(LirLogicalOperator::And)] + prefix_code(*a)
            + prefix_code(*b),
        ExprV::Or(a, b) => seq![LirInstructionV::Operator(LirLogicalOperator::Or)] + prefix_code(*a)
            + prefix_code(*b),
        ExprV::Not(a) => seq![LirInstructionV::Operator(LirLogicalOperator::Not)] + prefix_code(*a),
        ExprV::Pred(p) => seq![LirInstructionV::Pred(p)],
    }
}

impl LirProgram {
    /// An empty program.
    pub fn new() -> (p: LirProgram)
        ensures
            p.instructions@.len() == 0,
    {
        LirProgram { instructions: Vec::new() }
    }
}

impl Default for LirProgram {
    fn default() -> (p: LirProgram)
        ensures
            p.instructions@.len() == 0,
    {
        LirProgram::new()
    }
}

impl LirInstruction {
    /// The predicate of a predicate entry.
    pub fn as_predicate(&self) -> (p: &Predicate)
        requires
            self is Predicate,
        ensures
            self@ == LirInstructionV::Pred(p@),
    {
        match self {
            LirInstruction::Predicate(p) => p,
            LirInstruction::LogicalOperator(_) => vstd::pervasive::unreached(),
        }
    }
}

/// Whether an entry is an operator.
pub fn is_operator(instruction: &LirInstruction) -> (r: bool)
    ensures
        r == (instruction is LogicalOperator),
{
    match instruction {
        LirInstruction::LogicalOperator(_) => true,
        LirInstruction::Predicate(_) => false,
    }
}

/// Translation into a linear program.
pub trait Translate {
    type Output;

    fn translate(&self) -> Self::Output;
}

impl Translate for Expression {
    type Output = LirProgram;

    /// The expression written operator first.
    fn translate(&self) -> (r: LirProgram)
        ensures
            lir_view(r.instructions@) == prefix_code(self@),
    {
        let mut lir = LirProgram::new();
        assert(lir_view(lir.instructions@) =~= Seq::<LirInstructionV>::empty());
        lir_translate_helper(self, &mut lir);
        assert(Seq::<LirInstructionV>::empty() + prefix_code(self@) =~= prefix_code(self@));
        lir
    }
}

fn lir_translate_helper(exp: &Expression, lir: &mut LirProgram)
    ensures
        lir_view(final(lir).instructions@) == lir_view(old(lir).instructions@) + prefix_code(exp@),
    decreases exp,
{
    let ghost start = lir_view(lir.instructions@);
    match exp {
        Expression::Logical(logic_exp) => match &**logic_exp {
            LogicalExpression::And(l, r) | LogicalExpression::Or(l, r) => {
                let op = match &**logic_exp {
                    LogicalExpression::And(_, _) => LirLogicalOperator::And,
                    _ => LirLogicalOperator::Or,
                };
                lir.instructions.push(LirInstruction::LogicalOperator(op));
                assert(lir_view(lir.instructions@) =~= start + seq![LirInstructionV::Operator(op)]);
                lir_translate_helper(l, lir);
                lir_translate_helper(r, lir);
                assert(lir_view(lir.instructions@) =~= start + prefix_code(exp@));
            },
            LogicalExpression::Not(r) => {
                lir.instructions.push(LirInstruction::LogicalOperator(LirLogicalOperator::Not));
                assert(lir_view(lir.instructions@) =~= start + seq![
                    LirInstructionV::Operator(LirLogicalOperator::Not),
                ]);
                lir_translate_helper(r, lir);
                assert(lir_view(lir.instructions@) =~= start + prefix_code(exp@));
            },
        },
        Expression::Predicate(p) => {
            lir.instructions.push(LirInstruction::Predicate(p.duplicate()));
            assert(lir_view(lir.instructions@) =~= start + prefix_code(exp@));
        },
    }
}

} // verus!
