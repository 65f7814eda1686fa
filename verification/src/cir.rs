use vstd::prelude::*;
use vstd::multiset::Multiset;
use crate::ast::{ExprV, Expression, LogicalExpression, Predicate, PredicateV};
use crate::context::{Context, Match, MatchV};
use crate::interpreter::{Execute, Note, apply_notes, eval_expr, expr_holds};
use crate::semantics::{FieldCounter, count_in, counts_positive};
use crate::strmap::StrMap;

verus! {

broadcast use vstd::multiset::group_multiset_axioms;

/// A compact program: a list of instructions whose last one gives the result, or a lone
/// predicate.
#[derive(Debug)]
pub enum CirProgram {
    Instructions(Vec<CirInstruction>),
    Predicate(Predicate),
}

/// One instruction of a compact program.
#[derive(Debug)]
pub enum CirInstruction {
    And(CirOperand, CirOperand),
    Or(CirOperand, CirOperand),
    Not(CirOperand),
    Predicate(Predicate),
}

/// An operand: the result of an earlier instruction, or a predicate.
#[derive(Debug)]
pub enum CirOperand {
    Index(usize),
    Predicate(Predicate),
}

/// The mathematical form of a [`CirOperand`].
pub enum OperandV {
    Index(usize),
    Pred(PredicateV),
}

/// The mathematical form of a [`CirInstruction`].
pub enum InstructionV {
    And(OperandV, OperandV),
    Or(OperandV, OperandV),
    Not(OperandV),
    Pred(PredicateV),
}

/// The mathematical form of a [`CirProgram`].
pub enum ProgramV {
    Instructions(Seq<InstructionV>),
    Pred(PredicateV),
}

impl View for CirOperand {
    type V = OperandV;

    open spec fn view(&self) -> OperandV {
        match self {
            CirOperand::Index(i) => OperandV::Index(*i),
            CirOperand::Predicate(p) => OperandV::Pred(p@),
        }
    }
}

impl View for CirInstruction {
    type V = InstructionV;

    open spec fn view(&self) -> InstructionV {
        match self {
            CirInstruction::And(a, b) => InstructionV::And(a@, b@),
            CirInstruction::Or(a, b) => InstructionV::Or(a@, b@),
            CirInstruction::Not(a) => InstructionV::Not(a@),
            CirInstruction::Predicate(p) => InstructionV::Pred(p@),
        }
    }
}

/// The mathematical form of a list of instructions.
pub open spec fn instructions_view(v: Seq<CirInstruction>) -> Seq<InstructionV> {
    v.map_values(|i: CirInstruction| i@)
}

impl View for CirProgram {
    type V = ProgramV;

    open spec fn view(&self) -> ProgramV {
        match self {
            CirProgram::Instructions(v) => ProgramV::Instructions(instructions_view(v@)),
            CirProgram::Predicate(p) => ProgramV::Pred(p@),
        }
    }
}

/// Runs instruction `k`: whether it holds and what its predicates note, in the order they
/// run. `&&` and `||` stop at a deciding left operand; nothing noted is taken back.
pub open spec fn run_instruction(
    is: Seq<InstructionV>,
    k: int,
    values: Map<Seq<char>, Seq<crate::ast::ValueV>>,
) -> (bool, Seq<Note>)
    decreases k, 1int,
{
    if !(0 <= k < is.len()) {
        (false, Seq::empty())
    } else {
        match is[k] {
            InstructionV::And(a, b) => {
                let (x, n1) = run_operand(is, a, k, values);
                if !x {
                    (false, n1)
                } else {
                    let (y, n2) = run_operand(is, b, k, values);
                    (y, n1 + n2)
                }
            },
            InstructionV::Or(a, b) => {
                let (x, n1) = run_operand(is, a, k, values);
                if x {
                    (true, n1)
                } else {
                    let (y, n2) = run_operand(is, b, k, values);
                    (y, n1 + n2)
                }
            },
            InstructionV::Not(a) => {
                let (x, n) = run_operand(is, a, k, values);
                (!x, n)
            },
            InstructionV::Pred(p) => eval_expr(ExprV::Pred(p), values),
        }
    }
}

/// Runs an operand of instruction `k`; an index must name an earlier instruction.
pub open spec fn run_operand(
    is: Seq<InstructionV>,
    op: OperandV,
    k: int,
    values: Map<Seq<char>, Seq<crate::ast::ValueV>>,
) -> (bool, Seq<Note>)
    decreases k, 0int,
{
    match op {
        OperandV::Index(i) => if 0 <= i < k {
            run_instruction(is, i as int, values)
        } else {
            (false, Seq::empty())
        },
        OperandV::Pred(p) => eval_expr(ExprV::Pred(p), values),
    }
}

/// Runs a program: its last instruction, or its lone predicate.
pub open spec fn run_program(p: ProgramV, values: Map<Seq<char>, Seq<crate::ast::ValueV>>) -> (
    bool,
    Seq<Note>,
) {
    match p {
        ProgramV::Instructions(is) => run_instruction(is, is.len() - 1, values),
        ProgramV::Pred(q) => eval_expr(ExprV::Pred(q), values),
    }
}

/// An operand of instruction `k` names an earlier instruction, if any.
pub open spec fn operand_ok(op: OperandV, k: int) -> bool {
    match op {
        OperandV::Index(i) => i < k,
        OperandV::Pred(_) => true,
    }
}

/// Every operand of instruction `k` names an earlier instruction, if any.
pub open spec fn instruction_ok(ins: InstructionV, k: int) -> bool {
    match ins {
        InstructionV::And(a, b) | InstructionV::Or(a, b) => operand_ok(a, k) && operand_ok(b, k),
        InstructionV::Not(a) => operand_ok(a, k),
        InstructionV::Pred(_) => true,
    }
}

/// Every instruction refers only to earlier ones.
pub open spec fn instructions_ok(is: Seq<InstructionV>) -> bool {
    forall|k: int| 0 <= k < is.len() ==> instruction_ok(#[trigger] is[k], k)
}

/// A program that can run: a non-empty list of instructions that refer only to earlier
/// ones, or a predicate.
pub open spec fn program_ok(p: ProgramV) -> bool {
    match p {
        ProgramV::Instructions(is) => is.len() >= 1 && instructions_ok(is),
        ProgramV::Pred(_) => true,
    }
}

/// Instructions added after instruction `k` do not change what it gives.
proof fn lemma_run_extend(
    s: Seq<InstructionV>,
    t: Seq<InstructionV>,
    k: int,
    values: Map<Seq<char>, Seq<crate::ast::ValueV>>,
)
    requires
        0 <= k < s.len(),
    ensures
        run_instruction(s + t, k, values) == run_instruction(s, k, values),
    decreases k, 1int,
{
    let u = s + t;
    assert(u[k] == s[k]);
    match s[k] {
        InstructionV::And(a, b) | InstructionV::Or(a, b) => {
            lemma_operand_extend(s, t, a, k, values);
            lemma_operand_extend(s, t, b, k, values);
        },
        InstructionV::Not(a) => {
            lemma_operand_extend(s, t, a, k, values);
        },
        InstructionV::Pred(_) => {},
    }
}

proof fn lemma_operand_extend(
    s: Seq<InstructionV>,
    t: Seq<InstructionV>,
    op: OperandV,
    k: int,
    values: Map<Seq<char>, Seq<crate::ast::ValueV>>,
)
    requires
        0 <= k < s.len(),
    ensures
        run_operand(s + t, op, k, values) == run_operand(s, op, k, values),
    decreases k, 0int,
{
    match op {
        OperandV::Index(i) => {
            if 0 <= i < k {
                lemma_run_extend(s, t, i as int, values);
            }
        },
        OperandV::Pred(_) => {},
    }
}

/// What running an expression's compact program gives: whether it holds, and the notes of
/// every predicate that held on the way, in order, also those of an operand of a failed
/// `and` or `or` and of a negated expression.
pub open spec fn eval_kept(e: ExprV, values: Map<Seq<char>, Seq<crate::ast::ValueV>>) -> (
    bool,
    Seq<Note>,
)
    decreases e,
{
    match e {
        ExprV::And(a, b) => {
            let (x, n1) = eval_kept(*a, values);
            if !x {
                (false, n1)
            } else {
                let (y, n2) = eval_kept(*b, values);
                (y, n1 + n2)
            }
        },
        ExprV::Or(a, b) => {
            let (x, n1) = eval_kept(*a, values);
            if x {
                (true, n1)
            } else {
                let (y, n2) = eval_kept(*b, values);
                (y, n1 + n2)
            }
        },
        ExprV::Not(a) => {
            let (x, n) = eval_kept(*a, values);
            (!x, n)
        },
        ExprV::Pred(p) => eval_expr(ExprV::Pred(p), values),
    }
}

/// Whether an expression holds does not depend on which notes are kept.
pub proof fn lemma_kept_holds(e: ExprV, values: Map<Seq<char>, Seq<crate::ast::ValueV>>)
    ensures
        eval_kept(e, values).0 == expr_holds(e, values),
    decreases e,
{
    match e {
        ExprV::And(a, b) | ExprV::Or(a, b) => {
            lemma_kept_holds(*a, values);
            lemma_kept_holds(*b, values);
        },
        ExprV::Not(a) => {
            lemma_kept_holds(*a, values);
        },
        ExprV::Pred(_) => {},
    }
}

/// Turns a sub-expression into an operand: a predicate stays one; anything else is
/// translated and named by its index.
fn translate_to_operand(exp: &Expression, cir: &mut Vec<CirInstruction>) -> (r: CirOperand)
    requires
        instructions_ok(instructions_view(old(cir)@)),
    ensures
        instructions_ok(instructions_view(final(cir)@)),
        instructions_view(final(cir)@).take(old(cir)@.len() as int) == instructions_view(
            old(cir)@,
        ),
        old(cir)@.len() <= final(cir)@.len(),
        operand_ok(r@, final(cir)@.len() as int),
        forall|values: Map<Seq<char>, Seq<crate::ast::ValueV>>|
            #[trigger] run_operand(instructions_view(final(cir)@), r@, final(cir)@.len() as int, values)
                == eval_kept(exp@, values),
    decreases exp, 1int,
{
    match exp {
        Expression::Logical(_) => {
            let i = translate_helper(exp, cir);
            let r = CirOperand::Index(i);
            proof {
                let fin = instructions_view(cir@);
                assert forall|values: Map<Seq<char>, Seq<crate::ast::ValueV>>|
                    #[trigger] run_operand(fin, r@, fin.len() as int, values) == eval_kept(
                        exp@,
                        values,
                    ) by {
                    assert(run_operand(fin, r@, fin.len() as int, values) == run_instruction(
                        fin,
                        i as int,
                        values,
                    ));
                }
            }
            r
        },
        Expression::Predicate(p) => CirOperand::Predicate(p.duplicate()),
    }
}

/// Appends the instructions of an expression; gives the index of the one that gives its
/// result.
fn translate_helper(exp: &Expression, cir: &mut Vec<CirInstruction>) -> (idx: usize)
    requires
        instructions_ok(instructions_view(old(cir)@)),
    ensures
        instructions_ok(instructions_view(final(cir)@)),
        instructions_view(final(cir)@).take(old(cir)@.len() as int) == instructions_view(
            old(cir)@,
        ),
        old(cir)@.len() < final(cir)@.len(),
        idx == final(cir)@.len() - 1,
        forall|values: Map<Seq<char>, Seq<crate::ast::ValueV>>|
            #[trigger] run_instruction(instructions_view(final(cir)@), idx as int, values)
                == eval_kept(exp@, values),
    decreases exp, 0int,
{
    let ghost start = instructions_view(cir@);
    match exp {
        Expression::Logical(l) => match &**l {
            LogicalExpression::And(a, b) | LogicalExpression::Or(a, b) => {
                let left = translate_to_operand(a, cir);
                let ghost mid = instructions_view(cir@);
                let ghost mid_len = cir@.len() as int;
                let right = translate_to_operand(b, cir);
                let ghost before = instructions_view(cir@);
                let is_and = match &**l {
                    LogicalExpression::And(_, _) => true,
                    _ => false,
                };
                if is_and {
                    cir.push(CirInstruction::And(left, right));
                } else {
                    cir.push(CirInstruction::Or(left, right));
                }
                proof {
                    let fin = instructions_view(cir@);
                    let k = before.len() as int;
                    assert(fin =~= before.push(fin[k]));
                    assert(fin.take(k) =~= before);
                    assert(fin.take(start.len() as int) =~= start) by {
                        assert(before.take(start.len() as int) =~= start) by {
                            assert(mid.take(start.len() as int) =~= start);
                            assert(before.take(mid_len) =~= mid);
                        }
                    }
                    assert forall|j: int| 0 <= j < fin.len() implies instruction_ok(
                        #[trigger] fin[j],
                        j,
                    ) by {
                        if j < k {
                            assert(fin[j] == before[j]);
                        }
                    }
                    assert forall|values: Map<Seq<char>, Seq<crate::ast::ValueV>>|
                        #[trigger] run_instruction(fin, k, values) == eval_kept(
                            exp@,
                            values,
                        ) by {
                        assert(before =~= before.take(k)) by {}
                        assert(fin =~= before + seq![fin[k]]);
                        match left@ {
                            OperandV::Index(i) => {
                                lemma_run_extend(mid, before.skip(mid_len), i as int, values);
                                assert(before =~= mid + before.skip(mid_len)) by {
                                    assert(before.take(mid_len) =~= mid);
                                }
                                lemma_run_extend(before, seq![fin[k]], i as int, values);
                                assert(run_operand(mid, left@, mid_len, values) == eval_kept(
                                    a@,
                                    values,
                                ));
                            },
                            OperandV::Pred(_) => {
                                assert(run_operand(mid, left@, mid_len, values) == eval_kept(
                                    a@,
                                    values,
                                ));
                            },
                        }
                        match right@ {
                            OperandV::Index(i) => {
                                lemma_run_extend(before, seq![fin[k]], i as int, values);
                                assert(run_operand(before, right@, k, values) == eval_kept(
                                    b@,
                                    values,
                                ));
                            },
                            OperandV::Pred(_) => {
                                assert(run_operand(before, right@, k, values) == eval_kept(
                                    b@,
                                    values,
                                ));
                            },
                        }
                    }
                }
                cir.len() - 1
            },
            LogicalExpression::Not(a) => {
                let right = translate_to_operand(a, cir);
                let ghost before = instructions_view(cir@);
                cir.push(CirInstruction::Not(right));
                proof {
                    let fin = instructions_view(cir@);
                    let k = before.len() as int;
                    assert(fin =~= before + seq![fin[k]]);
                    assert(fin.take(k) =~= before);
                    assert(fin.take(start.len() as int) =~= start) by {
                        assert(before.take(start.len() as int) =~= start);
                    }
                    assert forall|j: int| 0 <= j < fin.len() implies instruction_ok(
                        #[trigger] fin[j],
                        j,
                    ) by {
                        if j < k {
                            assert(fin[j] == before[j]);
                        }
                    }
                    assert forall|values: Map<Seq<char>, Seq<crate::ast::ValueV>>|
                        #[trigger] run_instruction(fin, k, values) == eval_kept(
                            exp@,
                            values,
                        ) by {
                        match right@ {
                            OperandV::Index(i) => {
                                lemma_run_extend(before, seq![fin[k]], i as int, values);
                                assert(run_operand(before, right@, k, values) == eval_kept(
                                    a@,
                                    values,
                                ));
                            },
                            OperandV::Pred(_) => {
                                assert(run_operand(before, right@, k, values) == eval_kept(
                                    a@,
                                    values,
                                ));
                            },
                        }
                    }
                }
                cir.len() - 1
            },
        },
        Expression::Predicate(p) => {
            cir.push(CirInstruction::Predicate(p.duplicate()));
            proof {
                let fin = instructions_view(cir@);
                let k = start.len() as int;
                assert(fin =~= start + seq![fin[k]]);
                assert(fin.take(k) =~= start);
                assert forall|j: int| 0 <= j < fin.len() implies instruction_ok(
                    #[trigger] fin[j],
                    j,
                ) by {
                    if j < k {
                        assert(fin[j] == start[j]);
                    }
                }
            }
            cir.len() - 1
        },
    }
}

/// Translation into a compact program.
pub trait Translate {
    type Output;

    fn translate(&self) -> Self::Output;
}

impl Translate for Expression {
    type Output = CirProgram;

    /// A program that can run, that holds on exactly the values on which the expression
    /// holds, and that notes what [`eval_kept`] gives.
    fn translate(&self) -> (r: CirProgram)
        ensures
            program_ok(r@),
            forall|values: Map<Seq<char>, Seq<crate::ast::ValueV>>|
                #[trigger] run_program(r@, values).0 == expr_holds(self@, values),
            forall|values: Map<Seq<char>, Seq<crate::ast::ValueV>>|
                #[trigger] run_program(r@, values) == eval_kept(self@, values),
    {
        let r = compile(self);
        proof {
            assert forall|values: Map<Seq<char>, Seq<crate::ast::ValueV>>|
                #[trigger] run_program(r@, values).0 == expr_holds(self@, values) by {
                lemma_kept_holds(self@, values);
            }
        }
        r
    }
}

/// The compact program of an expression.
fn compile(e: &Expression) -> (r: CirProgram)
    ensures
        program_ok(r@),
        forall|values: Map<Seq<char>, Seq<crate::ast::ValueV>>|
            #[trigger] run_program(r@, values) == eval_kept(e@, values),
{
    let mut instructions: Vec<CirInstruction> = Vec::new();
    assert(instructions_view(instructions@) =~= Seq::<InstructionV>::empty());
    let len = translate_helper(e, &mut instructions);
    if len > 0 {
        return CirProgram::Instructions(instructions);
    }
    let ghost is0 = instructions_view(instructions@);
    let ghost v0 = instructions@;
    match instructions.pop() {
        Some(CirInstruction::Predicate(p)) => {
            proof {
                assert(is0 =~= seq![InstructionV::Pred(p@)]) by {
                    assert(is0[0] == v0[0]@);
                }
                assert forall|values: Map<Seq<char>, Seq<crate::ast::ValueV>>|
                    #[trigger] eval_expr(ExprV::Pred(p@), values) == eval_kept(
                        e@,
                        values,
                    ) by {
                    assert(run_instruction(seq![InstructionV::Pred(p@)], 0, values)
                        == eval_kept(e@, values));
                }
            }
            CirProgram::Predicate(p)
        },
        Some(other) => {
            instructions.push(other);
            assert(instructions@ =~= v0);
            CirProgram::Instructions(instructions)
        },
        None => CirProgram::Instructions(instructions),
    }
}

proof fn lemma_apply_notes_concat(m: MatchV, a: Seq<Note>, b: Seq<Note>)
    ensures
        apply_notes(apply_notes(m, a), b) == apply_notes(m, a + b),
    decreases b.len(),
{
    if b.len() == 0 {
        assert(a + b =~= a);
    } else {
        lemma_apply_notes_concat(m, a, b.drop_last());
        assert((a + b).drop_last() =~= a + b.drop_last());
    }
}

fn operand_execute_helper(
    op: &CirOperand,
    k: usize,
    instructions: &[CirInstruction],
    ctx: &Context,
    m: &mut Match,
) -> (r: bool)
    requires
        instructions_ok(instructions_view(instructions@)),
        k < instructions@.len(),
        operand_ok(op@, k as int),
    ensures
        r == run_operand(instructions_view(instructions@), op@, k as int, ctx.spec_values()).0,
        final(m)@ == apply_notes(
            old(m)@,
            run_operand(instructions_view(instructions@), op@, k as int, ctx.spec_values()).1,
        ),
    decreases k, 0int,
{
    match op {
        CirOperand::Index(index) => execute_helper(instructions, *index, ctx, m),
        CirOperand::Predicate(p) => p.execute(ctx, m),
    }
}

fn execute_helper(instructions: &[CirInstruction], index: usize, ctx: &Context, m: &mut Match) -> (r:
    bool)
    requires
        instructions_ok(instructions_view(instructions@)),
        index < instructions@.len(),
    ensures
        r == run_instruction(instructions_view(instructions@), index as int, ctx.spec_values()).0,
        final(m)@ == apply_notes(
            old(m)@,
            run_instruction(instructions_view(instructions@), index as int, ctx.spec_values()).1,
        ),
    decreases index, 1int,
{
    let ghost is = instructions_view(instructions@);
    let ghost values = ctx.spec_values();
    assert(is[index as int] == instructions@[index as int]@);
    assert(instruction_ok(is[index as int], index as int));
    match &instructions[index] {
        CirInstruction::And(left, right) => {
            let ghost m0 = m@;
            let x = operand_execute_helper(left, index, instructions, ctx, m);
            if !x {
                return false;
            }
            let y = operand_execute_helper(right, index, instructions, ctx, m);
            proof {
                lemma_apply_notes_concat(
                    m0,
                    run_operand(is, left@, index as int, values).1,
                    run_operand(is, right@, index as int, values).1,
                );
            }
            y
        },
        CirInstruction::Or(left, right) => {
            let ghost m0 = m@;
            let x = operand_execute_helper(left, index, instructions, ctx, m);
            if x {
                return true;
            }
            let y = operand_execute_helper(right, index, instructions, ctx, m);
            proof {
                lemma_apply_notes_concat(
                    m0,
                    run_operand(is, left@, index as int, values).1,
                    run_operand(is, right@, index as int, values).1,
                );
            }
            y
        },
        CirInstruction::Not(right) => !operand_execute_helper(right, index, instructions, ctx, m),
        CirInstruction::Predicate(p) => p.execute(ctx, m),
    }
}

impl CirProgram {
    /// The program can run.
    pub open spec fn wf(&self) -> bool {
        program_ok(self@)
    }

    /// Runs the program on the values of a context, recording into `m` what every
    /// predicate that held noted; gives its result.
    pub fn execute(&self, ctx: &Context, m: &mut Match) -> (r: bool)
        requires
            self.wf(),
        ensures
            r == run_program(self@, ctx.spec_values()).0,
            final(m)@ == apply_notes(old(m)@, run_program(self@, ctx.spec_values()).1),
    {
        match self {
            CirProgram::Instructions(instructions) => {
                execute_helper(instructions.as_slice(), instructions.len() - 1, ctx, m)
            },
            CirProgram::Predicate(p) => p.execute(ctx, m),
        }
    }
}

impl Default for CirProgram {
    fn default() -> (p: CirProgram)
        ensures
            p@ == ProgramV::Instructions(Seq::empty()),
    {
        let v: Vec<CirInstruction> = Vec::new();
        let p = CirProgram::Instructions(v);
        assert(instructions_view(v@) =~= Seq::<InstructionV>::empty());
        p
    }
}

/// The fields that an operand reads directly.
pub open spec fn operand_fields(op: OperandV) -> Multiset<Seq<char>> {
    match op {
        OperandV::Index(_) => Multiset::empty(),
        OperandV::Pred(p) => Multiset::singleton(p.lhs.var_name),
    }
}

/// The fields that an instruction reads directly.
pub open spec fn instruction_fields(ins: InstructionV) -> Multiset<Seq<char>> {
    match ins {
        InstructionV::And(a, b) | InstructionV::Or(a, b) => operand_fields(a).add(
            operand_fields(b),
        ),
        InstructionV::Not(a) => operand_fields(a),
        InstructionV::Pred(p) => Multiset::singleton(p.lhs.var_name),
    }
}

/// The fields that a list of instructions reads.
pub open spec fn instructions_fields(is: Seq<InstructionV>) -> Multiset<Seq<char>>
    decreases is.len(),
{
    if is.len() == 0 {
        Multiset::empty()
    } else {
        instructions_fields(is.drop_last()).add(instruction_fields(is.last()))
    }
}

impl FieldCounter for CirOperand {
    open spec fn spec_fields(&self) -> Multiset<Seq<char>> {
        operand_fields(self@)
    }

    fn add_to_counter(&self, map: &mut StrMap<usize>) {
        if let CirOperand::Predicate(p) = self {
            p.add_to_counter(map);
        } else {
            assert(forall|k: Seq<char>| count_in(map@, k) == count_in(old(map)@, k));
        }
    }

    fn remove_from_counter(&self, map: &mut StrMap<usize>) {
        if let CirOperand::Predicate(p) = self {
            p.remove_from_counter(map);
        }
    }
}

impl FieldCounter for CirInstruction {
    open spec fn spec_fields(&self) -> Multiset<Seq<char>> {
        instruction_fields(self@)
    }

    fn add_to_counter(&self, map: &mut StrMap<usize>) {
        match self {
            CirInstruction::And(left, right) | CirInstruction::Or(left, right) => {
                proof {
                    assert forall|k: Seq<char>|
                        count_in(map@, k) + left.spec_fields().count(k) <= usize::MAX by {
                        assert(count_in(map@, k) + self.spec_fields().count(k) <= usize::MAX);
                    }
                }
                left.add_to_counter(map);
                proof {
                    assert forall|k: Seq<char>|
                        count_in(map@, k) + right.spec_fields().count(k) <= usize::MAX by {
                        assert(count_in(old(map)@, k) + self.spec_fields().count(k)
                            <= usize::MAX);
                    }
                }
                right.add_to_counter(map);
            },
            CirInstruction::Not(right) => {
                assert(right.spec_fields() == self.spec_fields());
                right.add_to_counter(map);
            },
            CirInstruction::Predicate(p) => {
                assert(p.spec_fields() == self.spec_fields());
                p.add_to_counter(map);
            },
        }
    }

    fn remove_from_counter(&self, map: &mut StrMap<usize>) {
        match self {
            CirInstruction::And(left, right) | CirInstruction::Or(left, right) => {
                proof {
                    assert forall|k: Seq<char>|
                        left.spec_fields().count(k) <= count_in(map@, k) by {
                        assert(self.spec_fields().count(k) <= count_in(map@, k));
                    }
                }
                left.remove_from_counter(map);
                proof {
                    assert forall|k: Seq<char>|
                        right.spec_fields().count(k) <= count_in(map@, k) by {
                        assert(self.spec_fields().count(k) <= count_in(old(map)@, k));
                    }
                }
                right.remove_from_counter(map);
            },
            CirInstruction::Not(right) => {
                assert(right.spec_fields() == self.spec_fields());
                right.remove_from_counter(map);
            },
            CirInstruction::Predicate(p) => {
                assert(p.spec_fields() == self.spec_fields());
                p.remove_from_counter(map);
            },
        }
    }
}

impl FieldCounter for CirProgram {
    open spec fn spec_fields(&self) -> Multiset<Seq<char>> {
        match self@ {
            ProgramV::Instructions(is) => instructions_fields(is),
            ProgramV::Pred(p) => Multiset::singleton(p.lhs.var_name),
        }
    }

    fn add_to_counter(&self, map: &mut StrMap<usize>) {
        match self {
            CirProgram::Instructions(instructions) => {
                let ghost is = instructions_view(instructions@);
                assert(self.spec_fields() == instructions_fields(is));
                let mut i: usize = 0;
                assert(is.take(0) =~= Seq::<InstructionV>::empty());
                while i < instructions.len()
                    invariant
                        i <= instructions@.len(),
                        is == instructions_view(instructions@),
                        counts_positive(map@),
                        forall|k: Seq<char>|
                            count_in(old(map)@, k) + instructions_fields(is).count(k) <= usize::MAX,
                        forall|k: Seq<char>|
                            count_in(map@, k) == count_in(old(map)@, k) + #[trigger] instructions_fields(
                                is.take(i as int),
                            ).count(k),
                    decreases instructions@.len() - i,
                {
                    proof {
                        assert(is.take(i + 1).drop_last() =~= is.take(i as int));
                        assert(is.take(i + 1).last() == is[i as int]);
                        assert(is[i as int] == instructions@[i as int]@);
                        assert(instructions_fields(is.take(i + 1)) == instructions_fields(
                            is.take(i as int),
                        ).add(instruction_fields(is[i as int])));
                        assert(instructions@[i as int].spec_fields() == instruction_fields(
                            is[i as int],
                        ));
                        lemma_fields_prefix(is, i + 1);
                        assert forall|k: Seq<char>|
                            count_in(map@, k) + instructions@[i as int].spec_fields().count(k)
                                <= usize::MAX by {
                            assert(instructions_fields(is.take(i + 1)).count(k)
                                <= instructions_fields(is).count(k));
                        }
                    }
                    instructions[i].add_to_counter(map);
                    i = i + 1;
                }
                assert(is.take(is.len() as int) =~= is);
            },
            CirProgram::Predicate(p) => {
                assert(p.spec_fields() == self.spec_fields());
                p.add_to_counter(map);
            },
        }
    }

    fn remove_from_counter(&self, map: &mut StrMap<usize>) {
        match self {
            CirProgram::Instructions(instructions) => {
                let ghost is = instructions_view(instructions@);
                assert(self.spec_fields() == instructions_fields(is));
                let mut i: usize = 0;
                assert(is.take(0) =~= Seq::<InstructionV>::empty());
                while i < instructions.len()
                    invariant
                        i <= instructions@.len(),
                        is == instructions_view(instructions@),
                        counts_positive(map@),
                        forall|k: Seq<char>|
                            instructions_fields(is).count(k) <= count_in(old(map)@, k),
                        forall|k: Seq<char>|
                            count_in(map@, k) == count_in(old(map)@, k) - #[trigger] instructions_fields(
                                is.take(i as int),
                            ).count(k),
                    decreases instructions@.len() - i,
                {
                    proof {
                        assert(is.take(i + 1).drop_last() =~= is.take(i as int));
                        assert(is.take(i + 1).last() == is[i as int]);
                        assert(is[i as int] == instructions@[i as int]@);
                        assert(instructions_fields(is.take(i + 1)) == instructions_fields(
                            is.take(i as int),
                        ).add(instruction_fields(is[i as int])));
                        assert(instructions@[i as int].spec_fields() == instruction_fields(
                            is[i as int],
                        ));
                        lemma_fields_prefix(is, i + 1);
                        assert forall|k: Seq<char>|
                            instructions@[i as int].spec_fields().count(k) <= count_in(map@, k) by {
                            assert(instructions_fields(is.take(i + 1)).count(k)
                                <= instructions_fields(is).count(k));
                        }
                    }
                    instructions[i].remove_from_counter(map);
                    i = i + 1;
                }
                assert(is.take(is.len() as int) =~= is);
            },
            CirProgram::Predicate(p) => {
                assert(p.spec_fields() == self.spec_fields());
                p.remove_from_counter(map);
            },
        }
    }
}

proof fn lemma_fields_prefix(is: Seq<InstructionV>, n: int)
    requires
        0 <= n <= is.len(),
    ensures
        forall|k: Seq<char>|
            #[trigger] instructions_fields(is.take(n)).count(k) <= instructions_fields(is).count(k),
    decreases is.len(),
{
    if n == is.len() {
        assert(is.take(n) =~= is);
    } else {
        lemma_fields_prefix(is.drop_last(), n);
        assert(is.drop_last().take(n) =~= is.take(n));
    }
}

} // verus!
