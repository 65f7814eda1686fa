use vstd::prelude::*;
use crate::ast::{
    BinaryOperator, ExprV, Expression, LhsTransformations, LogicalExpression, MatchedValue,
    MatchedValueV, Predicate, PredicateV, RegexMatchedValue, Value, ValueV, cidr_holds,
    has_transformation, value_equal,
};
use crate::context::{Context, Match, MatchV, values_view};
use crate::pattern::{
    opt_strings, regex_captures, regex_compiles, regex_find, regex_group_names, regex_group_texts,
    regex_matches, regex_names,
};
use crate::text::{
    chars_of, contains, decimal_string, decimal_text, ends_with, is_prefix, is_suffix, lowercase,
    occurs_in, starts_with, to_lowercase,
};

verus! {

/// A predicate that matched, noted while evaluating: plainly, or as a regular expression
/// together with the text it matched against.
pub enum Note {
    Plain(PredicateV),
    Regex(PredicateV, Seq<char>),
}

/// The value a predicate compares: the field's value, or its lower-case form under
/// `lower`. A `lower` on anything but a string gives nothing.
pub open spec fn lhs_value(v: ValueV, lower: bool) -> Option<ValueV> {
    if lower {
        match v {
            ValueV::String(s) => Some(ValueV::String(lowercase(s))),
            _ => None,
        }
    } else {
        Some(v)
    }
}

/// Whether an operator holds between two values. Operands of the wrong types never match.
pub open spec fn op_holds(op: BinaryOperator, l: ValueV, r: ValueV) -> bool {
    match op {
        BinaryOperator::Equals => value_equal(l, r),
        BinaryOperator::NotEquals => !value_equal(l, r),
        BinaryOperator::Regex => match (l, r) {
            (ValueV::String(s), ValueV::Regex(p)) => regex_compiles(p) && regex_matches(p, s),
            _ => false,
        },
        BinaryOperator::Prefix => match (l, r) {
            (ValueV::String(s), ValueV::String(p)) => is_prefix(p, s),
            _ => false,
        },
        BinaryOperator::Postfix => match (l, r) {
            (ValueV::String(s), ValueV::String(p)) => is_suffix(p, s),
            _ => false,
        },
        BinaryOperator::Greater => match (l, r) {
            (ValueV::Int(a), ValueV::Int(b)) => a > b,
            _ => false,
        },
        BinaryOperator::GreaterOrEqual => match (l, r) {
            (ValueV::Int(a), ValueV::Int(b)) => a >= b,
            _ => false,
        },
        BinaryOperator::Less => match (l, r) {
            (ValueV::Int(a), ValueV::Int(b)) => a < b,
            _ => false,
        },
        BinaryOperator::LessOrEqual => match (l, r) {
            (ValueV::Int(a), ValueV::Int(b)) => a <= b,
            _ => false,
        },
        BinaryOperator::In => match (l, r) {
            (ValueV::IpAddr(a), ValueV::IpCidr(c)) => cidr_holds(c.spec_addr(), c.spec_len(), a),
            _ => false,
        },
        BinaryOperator::NotIn => match (l, r) {
            (ValueV::IpAddr(a), ValueV::IpCidr(c)) => !cidr_holds(c.spec_addr(), c.spec_len(), a),
            _ => false,
        },
        BinaryOperator::Contains => match (l, r) {
            (ValueV::String(s), ValueV::String(p)) => occurs_in(p, s),
            _ => false,
        },
    }
}

/// The predicate uses `lower`.
pub open spec fn uses_lower(p: PredicateV) -> bool {
    has_transformation(p.lhs.transformations, LhsTransformations::Lower)
}

/// The predicate uses `any`.
pub open spec fn uses_any(p: PredicateV) -> bool {
    has_transformation(p.lhs.transformations, LhsTransformations::Any)
}

/// Whether one value of the field satisfies the predicate.
pub open spec fn value_holds(p: PredicateV, v: ValueV) -> bool {
    match lhs_value(v, uses_lower(p)) {
        Some(l) => op_holds(p.op, l, p.rhs),
        None => false,
    }
}

/// The operators whose matches are recorded.
pub open spec fn op_notes(op: BinaryOperator) -> bool {
    op == BinaryOperator::Equals || op == BinaryOperator::Regex || op == BinaryOperator::Prefix
        || op == BinaryOperator::Postfix
}

/// What is noted when a value satisfies the predicate.
pub open spec fn note_for(p: PredicateV, v: ValueV) -> Note {
    if p.op == BinaryOperator::Regex {
        match lhs_value(v, uses_lower(p)) {
            Some(ValueV::String(s)) => Note::Regex(p, s),
            _ => Note::Plain(p),
        }
    } else {
        Note::Plain(p)
    }
}

/// Whether a predicate holds on the values of its field: under `any` some value must
/// satisfy it, otherwise there must be values and all of them must.
pub open spec fn pred_holds(p: PredicateV, vals: Seq<ValueV>) -> bool {
    if uses_any(p) {
        exists|i: int| 0 <= i < vals.len() && value_holds(p, vals[i])
    } else {
        vals.len() > 0 && forall|i: int| 0 <= i < vals.len() ==> value_holds(p, vals[i])
    }
}

/// The first value that satisfies the predicate.
pub open spec fn first_holding(p: PredicateV, vals: Seq<ValueV>) -> int {
    choose|i: int|
        0 <= i < vals.len() && value_holds(p, vals[i]) && forall|j: int|
            0 <= j < i ==> !value_holds(p, vals[j])
}

/// What a predicate that holds notes: under `any` the first satisfying value, otherwise
/// every value; nothing for operators whose matches are not recorded.
pub open spec fn pred_notes(p: PredicateV, vals: Seq<ValueV>) -> Seq<Note> {
    if !pred_holds(p, vals) || !op_notes(p.op) {
        Seq::empty()
    } else if uses_any(p) {
        seq![note_for(p, vals[first_holding(p, vals)])]
    } else {
        vals.map_values(|v: ValueV| note_for(p, v))
    }
}

/// Evaluation of an expression against the values of a context: whether it holds, and
/// what the parts that made it hold noted. A part that fails notes nothing, and neither
/// does a negation.
pub open spec fn eval_expr(e: ExprV, values: Map<Seq<char>, Seq<ValueV>>) -> (bool, Seq<Note>)
    decreases e,
{
    match e {
        ExprV::And(a, b) => {
            let (ra, na) = eval_expr(*a, values);
            if !ra {
                (false, Seq::empty())
            } else {
                let (rb, nb) = eval_expr(*b, values);
                if rb {
                    (true, na + nb)
                } else {
                    (false, Seq::empty())
                }
            }
        },
        ExprV::Or(a, b) => {
            let (ra, na) = eval_expr(*a, values);
            if ra {
                (true, na)
            } else {
                eval_expr(*b, values)
            }
        },
        ExprV::Not(a) => (!eval_expr(*a, values).0, Seq::empty()),
        ExprV::Pred(p) => if values.contains_key(p.lhs.var_name) {
            let vals = values[p.lhs.var_name];
            (pred_holds(p, vals), pred_notes(p, vals))
        } else {
            (false, Seq::empty())
        },
    }
}

/// Whether an expression holds on the values of a context.
pub open spec fn expr_holds(e: ExprV, values: Map<Seq<char>, Seq<ValueV>>) -> bool {
    eval_expr(e, values).0
}

/// A regular-expression note is about a compiled pattern that matches the noted text.
pub open spec fn note_valid(n: Note) -> bool {
    match n {
        Note::Plain(_) => true,
        Note::Regex(p, s) => match p.rhs {
            ValueV::Regex(pat) => regex_compiles(pat) && regex_matches(pat, s),
            _ => false,
        },
    }
}

/// Every note is valid.
pub open spec fn notes_valid(ns: Seq<Note>) -> bool {
    forall|i: int| 0 <= i < ns.len() ==> note_valid(ns[i])
}

/// Records the groups `0..n` under their numbers.
pub open spec fn add_groups(
    c: Map<Seq<char>, Seq<char>>,
    g: Seq<Option<Seq<char>>>,
    n: nat,
) -> Map<Seq<char>, Seq<char>>
    decreases n,
{
    if n == 0 {
        c
    } else {
        let c2 = add_groups(c, g, (n - 1) as nat);
        match g[n - 1] {
            Some(t) => c2.insert(decimal_text((n - 1) as nat), t),
            None => c2,
        }
    }
}

/// Recording the groups `0..n` keeps, under the decimal number of each group below `n`
/// that matched, the text it matched, the last one included; the keys already there stay.
pub proof fn law_every_matched_group_is_recorded(
    c: Map<Seq<char>, Seq<char>>,
    g: Seq<Option<Seq<char>>>,
    n: nat,
    i: nat,
)
    requires
        n <= g.len(),
    ensures
        i < n && g[i as int] is Some ==> add_groups(c, g, n).contains_key(decimal_text(i))
            && add_groups(c, g, n)[decimal_text(i)] == g[i as int]->Some_0,
        c.dom().subset_of(add_groups(c, g, n).dom()),
    decreases n,
{
    if n > 0 {
        law_every_matched_group_is_recorded(c, g, (n - 1) as nat, i);
        crate::text::law_decimal_text_injective(i, (n - 1) as nat);
    }
}

/// Records the named groups among `0..n` under their names.
pub open spec fn add_names(
    c: Map<Seq<char>, Seq<char>>,
    names: Seq<Option<Seq<char>>>,
    g: Seq<Option<Seq<char>>>,
    n: nat,
) -> Map<Seq<char>, Seq<char>>
    decreases n,
{
    if n == 0 {
        c
    } else {
        let c2 = add_names(c, names, g, (n - 1) as nat);
        if n - 1 < g.len() && names[n - 1] is Some && g[n - 1] is Some {
            c2.insert(names[n - 1]->0, g[n - 1]->0)
        } else {
            c2
        }
    }
}

/// What one note adds to a match record: the field's matched value and, for a regular
/// expression, its groups by number and by name.
pub open spec fn apply_note(m: MatchV, n: Note) -> MatchV {
    match n {
        Note::Plain(p) => MatchV {
            matches: m.matches.insert(p.lhs.var_name, MatchedValueV::Plain(p.rhs)),
            ..m
        },
        Note::Regex(p, s) => {
            let pat = p.rhs->Regex_0;
            let g = regex_group_texts(pat, s);
            let names = regex_group_names(pat);
            MatchV {
                matches: m.matches.insert(
                    p.lhs.var_name,
                    MatchedValueV::Regex(ValueV::String(g[0]->0), ValueV::String(pat)),
                ),
                captures: add_names(add_groups(m.captures, g, g.len()), names, g, names.len()),
                ..m
            }
        },
    }
}

/// What a run of notes adds to a match record, in order.
pub open spec fn apply_notes(m: MatchV, ns: Seq<Note>) -> MatchV
    decreases ns.len(),
{
    if ns.len() == 0 {
        m
    } else {
        apply_note(apply_notes(m, ns.drop_last()), ns.last())
    }
}

/// A predicate that matched, noted during evaluation.
pub enum Matched<'a> {
    Plain(&'a Predicate),
    Regex(&'a Predicate, String),
}

impl<'a> View for Matched<'a> {
    type V = Note;

    open spec fn view(&self) -> Note {
        match self {
            Matched::Plain(p) => Note::Plain(p@),
            Matched::Regex(p, s) => Note::Regex(p@, s@),
        }
    }
}

/// The notes of a list of noted predicates.
pub open spec fn notes_view<'a>(v: Seq<Matched<'a>>) -> Seq<Note> {
    v.map_values(|m: Matched<'a>| m@)
}

/// Checks one comparison on a value already transformed.
fn check_op<'a>(p: &'a Predicate, lhs: &Value) -> (r: (bool, Option<Matched<'a>>))
    ensures
        r.0 == op_holds(p.op, lhs@, p.rhs@),
        r.0 && op_notes(p.op) ==> r.1 is Some,
        r.1 matches Some(n) ==> r.0 && op_notes(p.op) && n@ == (if p.op == BinaryOperator::Regex {
            Note::Regex(p@, lhs@->String_0)
        } else {
            Note::Plain(p@)
        }),
{
    match p.op {
        BinaryOperator::Equals => {
            let h = lhs.equals(&p.rhs);
            (h, if h { Some(Matched::Plain(p)) } else { None })
        },
        BinaryOperator::NotEquals => (!lhs.equals(&p.rhs), None),
        BinaryOperator::Regex => match (lhs, &p.rhs) {
            (Value::String(s), Value::Regex(pat)) => match regex_find(pat.as_str(), s.as_str()) {
                Some(true) => (true, Some(Matched::Regex(p, s.clone()))),
                _ => (false, None),
            },
            _ => (false, None),
        },
        BinaryOperator::Prefix => match (lhs, &p.rhs) {
            (Value::String(s), Value::String(q)) => {
                let sc = chars_of(s.as_str());
                let qc = chars_of(q.as_str());
                let h = starts_with(sc.as_slice(), qc.as_slice());
                (h, if h { Some(Matched::Plain(p)) } else { None })
            },
            _ => (false, None),
        },
        BinaryOperator::Postfix => match (lhs, &p.rhs) {
            (Value::String(s), Value::String(q)) => {
                let sc = chars_of(s.as_str());
                let qc = chars_of(q.as_str());
                let h = ends_with(sc.as_slice(), qc.as_slice());
                (h, if h { Some(Matched::Plain(p)) } else { None })
            },
            _ => (false, None),
        },
        BinaryOperator::Greater => match (lhs, &p.rhs) {
            (Value::Int(a), Value::Int(b)) => (*a > *b, None),
            _ => (false, None),
        },
        BinaryOperator::GreaterOrEqual => match (lhs, &p.rhs) {
            (Value::Int(a), Value::Int(b)) => (*a >= *b, None),
            _ => (false, None),
        },
        BinaryOperator::Less => match (lhs, &p.rhs) {
            (Value::Int(a), Value::Int(b)) => (*a < *b, None),
            _ => (false, None),
        },
        BinaryOperator::LessOrEqual => match (lhs, &p.rhs) {
            (Value::Int(a), Value::Int(b)) => (*a <= *b, None),
            _ => (false, None),
        },
        BinaryOperator::In => match (lhs, &p.rhs) {
            (Value::IpAddr(a), Value::IpCidr(c)) => (c.contains(a), None),
            _ => (false, None),
        },
        BinaryOperator::NotIn => match (lhs, &p.rhs) {
            (Value::IpAddr(a), Value::IpCidr(c)) => (!c.contains(a), None),
            _ => (false, None),
        },
        BinaryOperator::Contains => match (lhs, &p.rhs) {
            (Value::String(s), Value::String(q)) => {
                let sc = chars_of(s.as_str());
                let qc = chars_of(q.as_str());
                (contains(sc.as_slice(), qc.as_slice()), None)
            },
            _ => (false, None),
        },
    }
}

/// Checks one value of the field against the predicate.
fn check_value<'a>(p: &'a Predicate, original: &Value, lower: bool) -> (r: (bool, Option<Matched<'a>>))
    requires
        lower == uses_lower(p@),
    ensures
        r.0 == value_holds(p@, original@),
        r.0 && op_notes(p.op) ==> r.1 is Some,
        r.1 matches Some(n) ==> r.0 && op_notes(p.op) && n@ == note_for(p@, original@),
{
    if lower {
        match original {
            Value::String(s) => {
                let low = Value::String(to_lowercase(s.as_str()));
                check_op(p, &low)
            },
            _ => (false, None),
        }
    } else {
        check_op(p, original)
    }
}

/// Evaluating an expression that fails notes nothing.
pub proof fn lemma_failure_notes_nothing(e: ExprV, values: Map<Seq<char>, Seq<ValueV>>)
    ensures
        !eval_expr(e, values).0 ==> eval_expr(e, values).1 == Seq::<Note>::empty(),
    decreases e,
{
    match e {
        ExprV::Or(a, b) => {
            lemma_failure_notes_nothing(*b, values);
        },
        _ => {},
    }
}

proof fn lemma_notes_take<'a>(s: Seq<Matched<'a>>, n: int)
    requires
        0 <= n <= s.len(),
    ensures
        notes_view(s.take(n)) == notes_view(s).take(n),
{
    assert(notes_view(s.take(n)) =~= notes_view(s).take(n));
}

proof fn lemma_notes_push<'a>(s: Seq<Matched<'a>>, x: Matched<'a>)
    ensures
        notes_view(s.push(x)) == notes_view(s).push(x@),
{
    assert(notes_view(s.push(x)) =~= notes_view(s).push(x@));
}

/// Evaluates a predicate, noting what matched when it holds.
fn eval_predicate<'a>(p: &'a Predicate, ctx: &Context, out: &mut Vec<Matched<'a>>) -> (r: bool)
    ensures
        r == eval_expr(ExprV::Pred(p@), ctx.spec_values()).0,
        notes_view(final(out)@) == notes_view(old(out)@) + eval_expr(
            ExprV::Pred(p@),
            ctx.spec_values(),
        ).1,
{
    let ghost start = notes_view(out@);
    let vals = match ctx.value_of(p.lhs.var_name.as_str()) {
        None => {
            assert(notes_view(out@) == start + Seq::<Note>::empty());
            return false;
        },
        Some(v) => v,
    };
    let ghost vv = values_view(vals@);
    assert(vv == ctx.spec_values()[p@.lhs.var_name]);
    assert(eval_expr(ExprV::Pred(p@), ctx.spec_values()) == (pred_holds(p@, vv), pred_notes(p@, vv)));
    let (lower, any) = p.lhs.get_transformations();
    let mark: usize = out.len();
    let mut i: usize = 0;
    while i < vals.len()
        invariant
            i <= vals@.len(),
            vv == values_view(vals@),
            lower == uses_lower(p@),
            any == uses_any(p@),
            mark == start.len(),
            start == notes_view(old(out)@),
            eval_expr(ExprV::Pred(p@), ctx.spec_values()) == (pred_holds(p@, vv), pred_notes(p@, vv)),
            notes_view(out@).take(mark as int) == start,
            out@.len() >= mark,
            any ==> out@.len() == mark && forall|j: int| 0 <= j < i ==> !value_holds(p@, vv[j]),
            !any ==> forall|j: int| 0 <= j < i ==> value_holds(p@, vv[j]),
            !any && op_notes(p.op) ==> notes_view(out@).skip(mark as int) == vv.take(
                i as int,
            ).map_values(|v: ValueV| note_for(p@, v)),
            !any && !op_notes(p.op) ==> out@.len() == mark,
        decreases vals@.len() - i,
    {
        let (holds, note) = check_value(p, &vals[i], lower);
        assert(vals@[i as int]@ == vv[i as int]);
        if holds {
            let ghost before = out@;
            let ghost has_note = note is Some;
            if let Some(n) = note {
                out.push(n);
                proof {
                    lemma_notes_push(before, n);
                }
            }
            if any {
                proof {
                    assert(value_holds(p@, vv[i as int]));
                    assert(0 <= i < vv.len() && value_holds(p@, vv[i as int]) && forall|j: int|
                        0 <= j < i ==> !value_holds(p@, vv[j]));
                    let f = first_holding(p@, vv);
                    assert(f == i) by {
                        if f < i {
                            assert(!value_holds(p@, vv[f]));
                        } else if f > i {
                            assert(!value_holds(p@, vv[i as int]));
                        }
                    }
                    assert(before.len() == mark);
                    assert(notes_view(before) =~= start);
                    assert(pred_holds(p@, vv));
                    if op_notes(p.op) {
                        assert(notes_view(out@) =~= start + seq![note_for(p@, vv[i as int])]);
                    } else {
                        assert(notes_view(out@) =~= start + Seq::<Note>::empty());
                    }
                }
                return true;
            }
            proof {
                if op_notes(p.op) {
                    let f = |v: ValueV| note_for(p@, v);
                    assert(vv.take(i + 1) =~= vv.take(i as int).push(vv[i as int]));
                    assert(vv.take(i + 1).map_values(f) =~= vv.take(i as int).map_values(f).push(
                        f(vv[i as int]),
                    ));
                    assert(notes_view(out@).skip(mark as int) =~= notes_view(before).skip(
                        mark as int,
                    ).push(note_for(p@, vv[i as int])));
                }
                assert(notes_view(out@).take(mark as int) =~= notes_view(before).take(mark as int));
            }
        } else if !any {
            let ghost before = out@;
            out.truncate(mark);
            proof {
                lemma_notes_take(before, mark as int);
                assert(!value_holds(p@, vv[i as int]));
                assert(!pred_holds(p@, vv));
                assert(notes_view(out@) =~= start + Seq::<Note>::empty());
            }
            return false;
        }
        i = i + 1;
    }
    if any || vals.len() == 0 {
        proof {
            assert(notes_view(out@) =~= notes_view(out@).take(mark as int));
            assert(notes_view(out@) =~= start + Seq::<Note>::empty());
            if any {
                assert(!pred_holds(p@, vv));
            }
        }
        return false;
    }
    proof {
        assert(vv.take(vv.len() as int) == vv);
        assert(pred_holds(p@, vv));
        if op_notes(p.op) {
            assert(notes_view(out@) =~= notes_view(out@).take(mark as int) + notes_view(out@).skip(
                mark as int,
            ));
        } else {
            assert(notes_view(out@) =~= notes_view(out@).take(mark as int));
            assert(notes_view(out@) =~= start + Seq::<Note>::empty());
        }
    }
    true
}

/// Some value satisfies the predicate, so there is a first one.
pub proof fn lemma_first_holding(p: PredicateV, vals: Seq<ValueV>)
    requires
        exists|i: int| 0 <= i < vals.len() && value_holds(p, vals[i]),
    ensures
        0 <= first_holding(p, vals) < vals.len(),
        value_holds(p, vals[first_holding(p, vals)]),
        forall|j: int| 0 <= j < first_holding(p, vals) ==> !value_holds(p, vals[j]),
{
    let w = choose|i: int| 0 <= i < vals.len() && value_holds(p, vals[i]);
    lemma_minimal_below(p, vals, w);
}

proof fn lemma_minimal_below(p: PredicateV, vals: Seq<ValueV>, w: int)
    requires
        0 <= w < vals.len(),
        value_holds(p, vals[w]),
    ensures
        exists|i: int|
            0 <= i < vals.len() && value_holds(p, vals[i]) && forall|j: int|
                0 <= j < i ==> !value_holds(p, vals[j]),
    decreases w,
{
    if exists|j: int| 0 <= j < w && value_holds(p, vals[j]) {
        let j = choose|j: int| 0 <= j < w && value_holds(p, vals[j]);
        lemma_minimal_below(p, vals, j);
    } else {
        assert(0 <= w < vals.len() && value_holds(p, vals[w]) && forall|j: int|
            0 <= j < w ==> !value_holds(p, vals[j]));
    }
}

/// A value that satisfies a predicate gives a valid note.
proof fn lemma_note_for_valid(p: PredicateV, v: ValueV)
    requires
        value_holds(p, v),
    ensures
        note_valid(note_for(p, v)),
{
}

/// Evaluation only notes valid notes.
pub proof fn lemma_eval_notes_valid(e: ExprV, values: Map<Seq<char>, Seq<ValueV>>)
    ensures
        notes_valid(eval_expr(e, values).1),
    decreases e,
{
    match e {
        ExprV::And(a, b) => {
            lemma_eval_notes_valid(*a, values);
            lemma_eval_notes_valid(*b, values);
            let na = eval_expr(*a, values).1;
            let nb = eval_expr(*b, values).1;
            assert forall|i: int| 0 <= i < (na + nb).len() implies note_valid((na + nb)[i]) by {
                if i < na.len() {
                    assert((na + nb)[i] == na[i]);
                } else {
                    assert((na + nb)[i] == nb[i - na.len()]);
                }
            }
        },
        ExprV::Or(a, b) => {
            lemma_eval_notes_valid(*a, values);
            lemma_eval_notes_valid(*b, values);
        },
        ExprV::Not(a) => {},
        ExprV::Pred(p) => {
            if values.contains_key(p.lhs.var_name) {
                let vals = values[p.lhs.var_name];
                if pred_holds(p, vals) && op_notes(p.op) {
                    if uses_any(p) {
                        lemma_first_holding(p, vals);
                        lemma_note_for_valid(p, vals[first_holding(p, vals)]);
                    } else {
                        let ns = pred_notes(p, vals);
                        assert forall|i: int| 0 <= i < ns.len() implies note_valid(ns[i]) by {
                            lemma_note_for_valid(p, vals[i]);
                        }
                    }
                }
            }
        },
    }
}

/// Records the groups of a regular expression match under their numbers and names.
fn record_groups(
    captures: &mut crate::strmap::StrMap<String>,
    groups: &Vec<Option<String>>,
    names: &Vec<Option<String>>,
)
    ensures
        final(captures)@.map_values(|s: String| s@) == add_names(
            add_groups(old(captures)@.map_values(|s: String| s@), opt_strings(groups@), groups@.len()),
            opt_strings(names@),
            opt_strings(groups@),
            names@.len(),
        ),
{
    let ghost g = opt_strings(groups@);
    let ghost nm = opt_strings(names@);
    let ghost c0 = old(captures)@.map_values(|s: String| s@);
    let mut i: usize = 0;
    while i < groups.len()
        invariant
            i <= groups@.len(),
            g == opt_strings(groups@),
            captures@.map_values(|s: String| s@) == add_groups(c0, g, i as nat),
        decreases groups@.len() - i,
    {
        let ghost before = captures@;
        match &groups[i] {
            Some(t) => {
                let key = decimal_string(i as u128);
                captures.insert(key, t.clone());
                assert(captures@.map_values(|s: String| s@) =~= before.map_values(|s: String| s@).insert(
                    decimal_text(i as nat),
                    t@,
                ));
            },
            None => {},
        }
        i = i + 1;
    }
    let ghost c1 = add_groups(c0, g, groups@.len());
    let mut j: usize = 0;
    while j < names.len()
        invariant
            j <= names@.len(),
            g == opt_strings(groups@),
            nm == opt_strings(names@),
            captures@.map_values(|s: String| s@) == add_names(c1, nm, g, j as nat),
        decreases names@.len() - j,
    {
        let ghost before = captures@;
        if j < groups.len() {
            match (&names[j], &groups[j]) {
                (Some(n), Some(t)) => {
                    captures.insert(n.clone(), t.clone());
                    assert(captures@.map_values(|s: String| s@) =~= before.map_values(
                        |s: String| s@,
                    ).insert(n@, t@));
                },
                _ => {},
            }
        }
        j = j + 1;
    }
}

/// Records one noted predicate into a match.
fn record_note(n: &Matched, m: &mut Match)
    requires
        note_valid(n@),
    ensures
        final(m)@ == apply_note(old(m)@, n@),
{
    match n {
        Matched::Plain(pred) => {
            let ghost before = m.matches@;
            m.matches.insert(pred.lhs.var_name.clone(), MatchedValue::Plain(pred.rhs.duplicate()));
            assert(m@.matches =~= before.map_values(|x: MatchedValue| x@).insert(
                pred.lhs.var_name@,
                MatchedValueV::Plain(pred.rhs@),
            ));
        },
        Matched::Regex(pred, subject) => {
            let pat = match &pred.rhs {
                Value::Regex(p) => p,
                _ => {
                    assert(false);
                    return;
                },
            };
            let groups = match regex_captures(pat.as_str(), subject.as_str()) {
                Some(g) => g,
                None => {
                    assert(false);
                    return;
                },
            };
            let names = regex_names(pat.as_str());
            let captured = match &groups[0] {
                Some(t) => t.clone(),
                None => {
                    assert(false);
                    return;
                },
            };
            assert(opt_strings(groups@)[0] == Some(captured@));
            let ghost before = m.matches@;
            m.matches.insert(
                pred.lhs.var_name.clone(),
                MatchedValue::Regex(
                    Box::new(
                        RegexMatchedValue {
                            captured: Value::String(captured),
                            expr: Value::String(pat.clone()),
                        },
                    ),
                ),
            );
            assert(m@.matches =~= before.map_values(|x: MatchedValue| x@).insert(
                pred.lhs.var_name@,
                MatchedValueV::Regex(ValueV::String(captured@), ValueV::String(pat@)),
            ));
            record_groups(&mut m.captures, &groups, &names);
        },
    }
}

/// Records the noted predicates into a match, in order.
pub fn collect_into(matched: &[Matched], m: &mut Match)
    requires
        notes_valid(notes_view(matched@)),
    ensures
        final(m)@ == apply_notes(old(m)@, notes_view(matched@)),
{
    let ghost ns = notes_view(matched@);
    let mut i: usize = 0;
    while i < matched.len()
        invariant
            i <= matched@.len(),
            ns == notes_view(matched@),
            notes_valid(ns),
            m@ == apply_notes(old(m)@, ns.take(i as int)),
        decreases matched@.len() - i,
    {
        assert(ns[i as int] == matched@[i as int]@);
        record_note(&matched[i], m);
        assert(ns.take(i + 1).drop_last() =~= ns.take(i as int));
        i = i + 1;
    }
    assert(ns.take(ns.len() as int) =~= ns);
}

/// Running an expression or predicate against a context.
pub trait Execute {
    /// Whether it holds on the values of a context, and what it notes.
    spec fn spec_eval(&self, values: Map<Seq<char>, Seq<ValueV>>) -> (bool, Seq<Note>);

    /// Evaluates, and records into `m` what made it hold.
    fn execute(&self, ctx: &Context, m: &mut Match) -> (r: bool)
        ensures
            r == self.spec_eval(ctx.spec_values()).0,
            final(m)@ == apply_notes(old(m)@, self.spec_eval(ctx.spec_values()).1),
    ;
}

impl Execute for Expression {
    open spec fn spec_eval(&self, values: Map<Seq<char>, Seq<ValueV>>) -> (bool, Seq<Note>) {
        eval_expr(self@, values)
    }

    fn execute(&self, ctx: &Context, m: &mut Match) -> (r: bool) {
        let mut out: Vec<Matched> = Vec::new();
        let matched = self.eval(ctx, &mut out);
        proof {
            lemma_eval_notes_valid(self@, ctx.spec_values());
            assert(notes_view(out@) =~= eval_expr(self@, ctx.spec_values()).1);
        }
        collect_into(out.as_slice(), m);
        matched
    }
}

impl Execute for Predicate {
    open spec fn spec_eval(&self, values: Map<Seq<char>, Seq<ValueV>>) -> (bool, Seq<Note>) {
        eval_expr(ExprV::Pred(self@), values)
    }

    fn execute(&self, ctx: &Context, m: &mut Match) -> (r: bool) {
        let mut out: Vec<Matched> = Vec::new();
        let matched = eval_predicate(self, ctx, &mut out);
        proof {
            lemma_eval_notes_valid(ExprV::Pred(self@), ctx.spec_values());
            assert(notes_view(out@) =~= eval_expr(ExprV::Pred(self@), ctx.spec_values()).1);
        }
        collect_into(out.as_slice(), m);
        matched
    }
}

impl Expression {
    /// Evaluates the expression against a context, noting what made it hold. A part that
    /// fails leaves no note behind.
    pub fn eval<'a>(&'a self, ctx: &Context, out: &mut Vec<Matched<'a>>) -> (r: bool)
        ensures
            r == eval_expr(self@, ctx.spec_values()).0,
            notes_view(final(out)@) == notes_view(old(out)@) + eval_expr(
                self@,
                ctx.spec_values(),
            ).1,
        decreases self,
    {
        let ghost start = notes_view(out@);
        match self {
            Expression::Logical(l) => match &**l {
                LogicalExpression::And(a, b) => {
                    let mark: usize = out.len();
                    proof {
                        lemma_failure_notes_nothing(a@, ctx.spec_values());
                        lemma_failure_notes_nothing(b@, ctx.spec_values());
                    }
                    if !a.eval(ctx, out) {
                        assert(notes_view(out@) =~= start + Seq::<Note>::empty());
                        return false;
                    }
                    let ghost mid = notes_view(out@);
                    if b.eval(ctx, out) {
                        assert(notes_view(out@) =~= start + eval_expr(self@, ctx.spec_values()).1);
                        true
                    } else {
                        let ghost before = out@;
                        out.truncate(mark);
                        proof {
                            lemma_notes_take(before, mark as int);
                            assert(notes_view(before).take(mark as int) =~= start);
                        }
                        assert(notes_view(out@) =~= start + Seq::<Note>::empty());
                        false
                    }
                },
                LogicalExpression::Or(a, b) => {
                    proof {
                        lemma_failure_notes_nothing(a@, ctx.spec_values());
                    }
                    if a.eval(ctx, out) {
                        true
                    } else {
                        assert(notes_view(out@) =~= start);
                        b.eval(ctx, out)
                    }
                },
                LogicalExpression::Not(a) => {
                    let mark: usize = out.len();
                    let r = a.eval(ctx, out);
                    let ghost before = out@;
                    out.truncate(mark);
                    proof {
                        lemma_notes_take(before, mark as int);
                        assert(notes_view(before).take(mark as int) =~= start);
                    }
                    assert(notes_view(out@) =~= start + Seq::<Note>::empty());
                    !r
                },
            },
            Expression::Predicate(p) => eval_predicate(p, ctx, out),
        }
    }
}

} // verus!
