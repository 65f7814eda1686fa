use vstd::prelude::*;
use vstd::multiset::Multiset;
use crate::ast::{BinaryOperator, ExprV, Expression, LogicalExpression, Type, Value, ValueV};
use crate::context::{Context, Match, MatchV, empty_match};
use crate::interpreter::{Execute, apply_notes, eval_expr, expr_holds};
use crate::schema::{Schema, field_type};
use crate::semantics::{
    FieldCounter, Validate, count_in, count_one, counts_positive, expr_fields, expr_problem,
};
use crate::parser::{parse, render, spec_parse};
use crate::strmap::StrMap;
use crate::prefilter::{InnerPrefilter, bytes_list, copy_prefixes, possible_keys};
use crate::matchers::{
    regex_leading_literals,
    FrameV, Matcher, MatcherVisitor, intersection, law_intersection_keeps_common_starts,
    lemma_sorted_list, lemma_sorted_list_of_set, list_set, merge_expansions, regex_prefix_set,
    sorted_list, sorted_opt, sorted_strings, starts, union_limited, well_kept, prefix_set,
    strings_view,
};
use crate::text::is_prefix;
use crate::text::str_eq;
use vstd::utf8::encode_utf8;

verus! {

broadcast use vstd::multiset::group_multiset_axioms;

/// Something that holds or refers to a schema, for a router to use.
pub trait SchemaSource {
    /// The fields of the schema.
    spec fn spec_fields(&self) -> Map<Seq<char>, Type>;

    /// The schema.
    fn get_schema(&self) -> (r: &Schema)
        ensures
            r@ == self.spec_fields(),
    ;
}

impl SchemaSource for Schema {
    open spec fn spec_fields(&self) -> Map<Seq<char>, Type> {
        self@
    }

    fn get_schema(&self) -> (r: &Schema) {
        self
    }
}

impl<'a> SchemaSource for &'a Schema {
    open spec fn spec_fields(&self) -> Map<Seq<char>, Type> {
        (**self)@
    }

    fn get_schema(&self) -> (r: &Schema) {
        *self
    }
}

impl SchemaSource for Box<Schema> {
    open spec fn spec_fields(&self) -> Map<Seq<char>, Type> {
        (**self)@
    }

    fn get_schema(&self) -> (r: &Schema) {
        &**self
    }
}

impl SchemaSource for std::sync::Arc<Schema> {
    open spec fn spec_fields(&self) -> Map<Seq<char>, Type> {
        (**self)@
    }

    fn get_schema(&self) -> (r: &Schema) {
        &**self
    }
}

/// The key of a matcher: its priority, then its id.
#[derive(Debug, Clone, Copy, PartialEq, Eq, Structural)]
pub struct MatcherKey {
    pub priority: usize,
    pub uuid: u128,
}

/// Keys are ordered by priority, then by id.
pub open spec fn key_lt(a: MatcherKey, b: MatcherKey) -> bool {
    a.priority < b.priority || (a.priority == b.priority && a.uuid < b.uuid)
}

fn key_less(a: MatcherKey, b: MatcherKey) -> (r: bool)
    ensures
        r == key_lt(a, b),
{
    a.priority < b.priority || (a.priority == b.priority && a.uuid < b.uuid)
}

/// Matchers sorted by strictly increasing key.
pub open spec fn sorted_keys(ms: Seq<(MatcherKey, ExprV)>) -> bool {
    forall|i: int, j: int| 0 <= i < j < ms.len() ==> key_lt(#[trigger] ms[i].0, #[trigger] ms[j].0)
}

/// A list of keyed matchers read as a map from key to expression.
pub open spec fn matcher_map(ms: Seq<(MatcherKey, ExprV)>) -> Map<MatcherKey, ExprV> {
    Map::new(
        |k: MatcherKey| exists|i: int| 0 <= i < ms.len() && #[trigger] ms[i].0 == k,
        |k: MatcherKey| ms[choose|i: int| 0 <= i < ms.len() && #[trigger] ms[i].0 == k].1,
    )
}

/// The fields that a list of matchers reads, with multiplicities.
pub open spec fn matcher_fields(ms: Seq<(MatcherKey, ExprV)>) -> Multiset<Seq<char>>
    decreases ms.len(),
{
    if ms.len() == 0 {
        Multiset::empty()
    } else {
        matcher_fields(ms.drop_last()).add(expr_fields(ms.last().1))
    }
}

/// The matcher under `k` holds on `values`, and no matcher under a greater key does.
pub open spec fn wins(
    m: Map<MatcherKey, ExprV>,
    k: MatcherKey,
    values: Map<Seq<char>, Seq<ValueV>>,
) -> bool {
    &&& m.contains_key(k)
    &&& expr_holds(m[k], values)
    &&& forall|k2: MatcherKey|
        #[trigger] m.contains_key(k2) && key_lt(k, k2) ==> !expr_holds(m[k2], values)
}

/// No matcher holds on `values`.
pub open spec fn none_holds(m: Map<MatcherKey, ExprV>, values: Map<Seq<char>, Seq<ValueV>>) -> bool {
    forall|k: MatcherKey| #[trigger] m.contains_key(k) ==> !expr_holds(m[k], values)
}

/// What a router reports when the matcher under `k` wins: its id, and what its
/// expression notes on `values`.
pub open spec fn match_for(
    m: Map<MatcherKey, ExprV>,
    k: MatcherKey,
    values: Map<Seq<char>, Seq<ValueV>>,
) -> MatchV {
    MatchV { uuid: k.uuid, ..apply_notes(empty_match(), eval_expr(m[k], values).1) }
}

/// A counter map can take the fields `fs` without any count passing `usize::MAX`.
pub open spec fn counts_fit(m: Map<Seq<char>, usize>, fs: Multiset<Seq<char>>) -> bool {
    forall|k: Seq<char>| count_in(m, k) + #[trigger] fs.count(k) <= usize::MAX
}

/// The message of a refused key.
pub const MSG_DUPLICATE_KEY: &'static str = "UUID already exists";

/// The message of a matcher whose fields would overflow a counter.
pub const MSG_COUNTER_OVERFLOW: &'static str = "Too many predicates on a field";

/// What adding the matcher `e` under `key` to `old` does: it fails, changing nothing,
/// when the key is taken, when `e` does not fit the schema (with the first problem), or
/// when a field count would pass `usize::MAX`; otherwise it adds `e` and counts its fields.
pub open spec fn add_outcome<S: SchemaSource>(
    old: Router<S>,
    new: Router<S>,
    key: MatcherKey,
    e: ExprV,
    r: Result<(), String>,
) -> bool {
    let old_m = old.spec_matchers();
    let problem = expr_problem(e, old.spec_schema());
    let fits = counts_fit(old.spec_field_counts(), expr_fields(e));
    &&& old_m.contains_key(key) ==> (r matches Err(m) && m@ == MSG_DUPLICATE_KEY@)
    &&& !old_m.contains_key(key) && problem is Some ==> (r matches Err(m) && Some(m@) == problem)
    &&& !old_m.contains_key(key) && problem is None && !fits ==> (r matches Err(m) && m@
        == MSG_COUNTER_OVERFLOW@)
    &&& r is Ok <==> !old_m.contains_key(key) && problem is None && fits
    &&& r is Ok ==> new.spec_matchers() == old_m.insert(key, e)
    &&& r is Ok ==> forall|k: Seq<char>|
        count_in(new.spec_field_counts(), k) == count_in(old.spec_field_counts(), k)
            + #[trigger] expr_fields(e).count(k)
    &&& r is Err ==> new.spec_matcher_list() == old.spec_matcher_list()
    &&& r is Err ==> new.spec_field_counts() == old.spec_field_counts()
    &&& counts_positive(new.spec_field_counts())
    &&& new.spec_schema() == old.spec_schema()
    &&& new.spec_prefiltered() == old.spec_prefiltered()
}

/// What removing the matcher under `key` from `old` does: it tells whether there was one,
/// drops it, and takes its fields off the counts.
pub open spec fn remove_outcome<S: SchemaSource>(
    old: Router<S>,
    new: Router<S>,
    key: MatcherKey,
    r: bool,
) -> bool {
    let old_m = old.spec_matchers();
    &&& r == old_m.contains_key(key)
    &&& new.spec_matchers() == old_m.remove(key)
    &&& r ==> forall|k: Seq<char>|
        count_in(new.spec_field_counts(), k) == count_in(old.spec_field_counts(), k)
            - #[trigger] expr_fields(old_m[key]).count(k)
    &&& !r ==> new.spec_field_counts() == old.spec_field_counts()
    &&& counts_positive(new.spec_field_counts())
    &&& new.spec_schema() == old.spec_schema()
    &&& new.spec_prefiltered() == old.spec_prefiltered()
}

/// Adding a matcher under a key that is free, then removing the matcher under that key,
/// gives back the matchers and the field counts of before.
pub proof fn law_add_then_remove_restores<S: SchemaSource>(
    r0: Router<S>,
    r1: Router<S>,
    r2: Router<S>,
    key: MatcherKey,
    e: ExprV,
    added: Result<(), String>,
    removed: bool,
)
    requires
        counts_positive(r0.spec_field_counts()),
        add_outcome(r0, r1, key, e, added),
        added is Ok,
        remove_outcome(r1, r2, key, removed),
    ensures
        removed,
        r2.spec_matchers() == r0.spec_matchers(),
        r2.spec_field_counts() == r0.spec_field_counts(),
{
    assert(r2.spec_matchers() =~= r0.spec_matchers());
    assert forall|k: Seq<char>|
        count_in(r2.spec_field_counts(), k) == count_in(r0.spec_field_counts(), k) by {
        assert(r1.spec_matchers()[key] == e);
        assert(count_in(r1.spec_field_counts(), k) == count_in(r0.spec_field_counts(), k)
            + expr_fields(e).count(k));
    }
    lemma_counts_equal(r2.spec_field_counts(), r0.spec_field_counts());
}

/// At most one matcher wins on given values: the one with the greatest key among those
/// that hold.
pub proof fn law_one_winner(
    m: Map<MatcherKey, ExprV>,
    k1: MatcherKey,
    k2: MatcherKey,
    values: Map<Seq<char>, Seq<ValueV>>,
)
    requires
        wins(m, k1, values),
        wins(m, k2, values),
    ensures
        k1 == k2,
{
    lemma_key_order(k1, k2);
    if key_lt(k1, k2) {
        assert(m.contains_key(k2));
    } else if key_lt(k2, k1) {
        assert(m.contains_key(k1));
    }
}

/// The mathematical form of the matchers.
pub open spec fn matchers_view(v: Seq<(MatcherKey, Expression)>) -> Seq<(MatcherKey, ExprV)> {
    v.map_values(|e: (MatcherKey, Expression)| (e.0, e.1@))
}

/// The matchers of a router, by increasing key, and how often each field is read by them.
#[derive(Debug)]
struct MatcherTable {
    matchers: Vec<(MatcherKey, Expression)>,
    fields: StrMap<usize>,
}

spec fn table_inv(t: MatcherTable) -> bool {
    &&& sorted_keys(matchers_view(t.matchers@))
    &&& counts_positive(t.fields@)
    &&& forall|k: Seq<char>|
        count_in(t.fields@, k) == #[trigger] matcher_fields(matchers_view(t.matchers@)).count(k)
}

/// The prefix index of a prefiltered field: at each matcher's position, the prefixes one
/// of which the field's first value must start with for the matcher to be read (`None`:
/// the matcher is always read).
/// The trie `index` looks the lists up: it keeps each listed matcher under its position, and
/// is built anew when a matcher is added or removed, since the positions after it shift.
#[derive(Debug)]
struct PrefilteredField {
    field: String,
    prefixes: Vec<Option<Vec<Vec<u8>>>>,
    index: InnerPrefilter,
}

/// The routes that a trie index of prefix lists holds: each position with a list, under
/// that list.
spec fn index_routes(ps: Seq<Option<Vec<Vec<u8>>>>) -> Map<usize, Seq<Seq<u8>>> {
    Map::new(
        |k: usize| k < ps.len() && ps[k as int] is Some,
        |k: usize| bytes_list(ps[k as int]->Some_0@),
    )
}

spec fn index_inv(pf: PrefilteredField, t: MatcherTable) -> bool {
    &&& pf.prefixes@.len() == t.matchers@.len()
    &&& pf.index.spec_routes() == index_routes(pf.prefixes@)
    &&& forall|i: int|
        0 <= i < pf.prefixes@.len() ==> well_kept(#[trigger] pf.prefixes@[i]) && prefix_set(
            pf.prefixes@[i],
        ) == indexed_prefixes(t.matchers@[i].1@, pf.field@)
}

/// A set of matchers, each a checked expression under a key, and the schema they are
/// checked against.
#[derive(Debug)]
pub struct Router<S: SchemaSource> {
    schema: S,
    table: MatcherTable,
    prefiltered_field: Option<PrefilteredField>,
}

proof fn lemma_key_order(a: MatcherKey, b: MatcherKey)
    ensures
        !key_lt(a, a),
        key_lt(a, b) ==> !key_lt(b, a),
        a != b ==> key_lt(a, b) || key_lt(b, a),
{
}

proof fn lemma_map_at(ms: Seq<(MatcherKey, ExprV)>, i: int)
    requires
        sorted_keys(ms),
        0 <= i < ms.len(),
    ensures
        matcher_map(ms).contains_key(ms[i].0),
        matcher_map(ms)[ms[i].0] == ms[i].1,
{
    let k = ms[i].0;
    assert(exists|j: int| 0 <= j < ms.len() && #[trigger] ms[j].0 == k);
    let j = choose|j: int| 0 <= j < ms.len() && #[trigger] ms[j].0 == k;
    if j < i {
        assert(key_lt(ms[j].0, ms[i].0));
    } else if i < j {
        assert(key_lt(ms[i].0, ms[j].0));
    }
}

proof fn lemma_map_has(ms: Seq<(MatcherKey, ExprV)>, k: MatcherKey) -> (i: int)
    requires
        sorted_keys(ms),
        matcher_map(ms).contains_key(k),
    ensures
        0 <= i < ms.len(),
        ms[i].0 == k,
        matcher_map(ms)[k] == ms[i].1,
{
    let i = choose|i: int| 0 <= i < ms.len() && #[trigger] ms[i].0 == k;
    lemma_map_at(ms, i);
    i
}

proof fn lemma_fields_concat(a: Seq<(MatcherKey, ExprV)>, b: Seq<(MatcherKey, ExprV)>)
    ensures
        matcher_fields(a + b) == matcher_fields(a).add(matcher_fields(b)),
    decreases b.len(),
{
    if b.len() == 0 {
        assert(a + b =~= a);
        assert(matcher_fields(a).add(matcher_fields(b)) =~= matcher_fields(a));
    } else {
        lemma_fields_concat(a, b.drop_last());
        assert((a + b).drop_last() =~= a + b.drop_last());
        assert(matcher_fields(a + b) =~= matcher_fields(a).add(matcher_fields(b)));
    }
}

proof fn lemma_fields_single(x: (MatcherKey, ExprV))
    ensures
        matcher_fields(seq![x]) == expr_fields(x.1),
{
    let e = Seq::<(MatcherKey, ExprV)>::empty();
    assert(seq![x].drop_last() =~= e);
    assert(seq![x].last() == x);
    assert(matcher_fields(e) =~= Multiset::empty());
    assert(matcher_fields(seq![x]) =~= expr_fields(x.1));
}

proof fn lemma_fields_insert(ms: Seq<(MatcherKey, ExprV)>, p: int, x: (MatcherKey, ExprV))
    requires
        0 <= p <= ms.len(),
    ensures
        matcher_fields(ms.insert(p, x)) == matcher_fields(ms).add(expr_fields(x.1)),
{
    let a = ms.take(p);
    let b = ms.skip(p);
    assert(ms =~= a + b);
    assert(ms.insert(p, x) =~= (a + seq![x]) + b);
    lemma_fields_concat(a, b);
    lemma_fields_concat(a + seq![x], b);
    lemma_fields_concat(a, seq![x]);
    lemma_fields_single(x);
    assert(matcher_fields(ms.insert(p, x)) =~= matcher_fields(ms).add(expr_fields(x.1)));
}

proof fn lemma_fields_remove(ms: Seq<(MatcherKey, ExprV)>, p: int)
    requires
        0 <= p < ms.len(),
    ensures
        matcher_fields(ms) == matcher_fields(ms.remove(p)).add(expr_fields(ms[p].1)),
{
    let r = ms.remove(p);
    assert(ms =~= r.insert(p, ms[p]));
    lemma_fields_insert(r, p, ms[p]);
}

proof fn lemma_insert_sorted_map(ms: Seq<(MatcherKey, ExprV)>, p: int, x: (MatcherKey, ExprV))
    requires
        0 <= p <= ms.len(),
        sorted_keys(ms.insert(p, x)),
    ensures
        sorted_keys(ms),
        matcher_map(ms.insert(p, x)) == matcher_map(ms).insert(x.0, x.1),
{
    let n = ms.insert(p, x);
    assert forall|i: int, j: int| 0 <= i < j < ms.len() implies key_lt(
        #[trigger] ms[i].0,
        #[trigger] ms[j].0,
    ) by {
        let i2 = if i < p { i } else { i + 1 };
        let j2 = if j < p { j } else { j + 1 };
        assert(n[i2] == ms[i] && n[j2] == ms[j]);
    }
    let mo = matcher_map(ms);
    let mn = matcher_map(n);
    assert forall|q: MatcherKey| #[trigger] mn.contains_key(q) <==> mo.insert(x.0, x.1).contains_key(q) by {
        if mn.contains_key(q) {
            let j = lemma_map_has(n, q);
            if j < p {
                assert(ms[j] == n[j]);
                lemma_map_at(ms, j);
            } else if j > p {
                assert(ms[j - 1] == n[j]);
                lemma_map_at(ms, j - 1);
            }
        }
        if mo.contains_key(q) {
            let i = lemma_map_has(ms, q);
            let i2 = if i < p { i } else { i + 1 };
            assert(n[i2] == ms[i]);
            lemma_map_at(n, i2);
        }
        if q == x.0 {
            assert(n[p] == x);
            lemma_map_at(n, p);
        }
    }
    assert forall|q: MatcherKey| #[trigger] mn.contains_key(q) implies mn[q] == mo.insert(x.0, x.1)[q] by {
        if q == x.0 {
            assert(n[p] == x);
            lemma_map_at(n, p);
        } else {
            let j = lemma_map_has(n, q);
            if j < p {
                assert(ms[j] == n[j]);
                lemma_map_at(ms, j);
            } else {
                assert(j != p);
                assert(ms[j - 1] == n[j]);
                lemma_map_at(ms, j - 1);
            }
        }
    }
    assert(mn =~= mo.insert(x.0, x.1));
}

proof fn lemma_remove_sorted_map(ms: Seq<(MatcherKey, ExprV)>, p: int)
    requires
        0 <= p < ms.len(),
        sorted_keys(ms),
    ensures
        sorted_keys(ms.remove(p)),
        matcher_map(ms.remove(p)) == matcher_map(ms).remove(ms[p].0),
{
    let r = ms.remove(p);
    assert(ms =~= r.insert(p, ms[p]));
    assert forall|i: int, j: int| 0 <= i < j < r.len() implies key_lt(
        #[trigger] r[i].0,
        #[trigger] r[j].0,
    ) by {
        let i2 = if i < p { i } else { i + 1 };
        let j2 = if j < p { j } else { j + 1 };
        assert(ms[i2] == r[i] && ms[j2] == r[j]);
    }
    lemma_insert_sorted_map(r, p, ms[p]);
    let mr = matcher_map(r);
    assert(!mr.contains_key(ms[p].0)) by {
        if mr.contains_key(ms[p].0) {
            let i = lemma_map_has(r, ms[p].0);
            let i2 = if i < p { i } else { i + 1 };
            assert(ms[i2] == r[i]);
            assert(i2 != p);
            if i2 < p {
                assert(key_lt(ms[i2].0, ms[p].0));
            } else {
                assert(key_lt(ms[p].0, ms[i2].0));
            }
        }
    }
    assert(mr =~= mr.insert(ms[p].0, ms[p].1).remove(ms[p].0));
}

/// Two counter maps that count every key alike are equal.
proof fn lemma_counts_equal(a: Map<Seq<char>, usize>, b: Map<Seq<char>, usize>)
    requires
        counts_positive(a),
        counts_positive(b),
        forall|k: Seq<char>| count_in(a, k) == count_in(b, k),
    ensures
        a == b,
{
    assert forall|k: Seq<char>| #[trigger] a.contains_key(k) <==> b.contains_key(k) by {
        assert(count_in(a, k) == count_in(b, k));
    }
    assert forall|k: Seq<char>| #[trigger] a.contains_key(k) implies a[k] == b[k] by {
        assert(count_in(a, k) == count_in(b, k));
    }
    assert(a =~= b);
}

/// Counts the fields of `e` into `map` if no count would pass `usize::MAX`; otherwise
/// leaves `map` as it was.
fn try_count(e: &Expression, map: &mut StrMap<usize>) -> (r: bool)
    requires
        counts_positive(old(map)@),
    ensures
        r == counts_fit(old(map)@, expr_fields(e@)),
        counts_positive(final(map)@),
        r ==> forall|k: Seq<char>|
            count_in(final(map)@, k) == count_in(old(map)@, k) + #[trigger] expr_fields(e@).count(k),
        !r ==> final(map)@ == old(map)@,
    decreases e,
{
    match e {
        Expression::Logical(l) => match &**l {
            LogicalExpression::And(a, b) | LogicalExpression::Or(a, b) => {
                let ghost m0 = map@;
                assert(expr_fields(e@) == expr_fields(a@).add(expr_fields(b@)));
                if !try_count(a, map) {
                    proof {
                        if counts_fit(m0, expr_fields(e@)) {
                            assert forall|k: Seq<char>|
                                count_in(m0, k) + #[trigger] expr_fields(a@).count(k) <= usize::MAX by {
                                assert(count_in(m0, k) + expr_fields(e@).count(k) <= usize::MAX);
                            }
                        }
                    }
                    return false;
                }
                let ghost m1 = map@;
                if !try_count(b, map) {
                    proof {
                        if counts_fit(m0, expr_fields(e@)) {
                            assert forall|k: Seq<char>|
                                count_in(m1, k) + #[trigger] expr_fields(b@).count(k) <= usize::MAX by {
                                assert(count_in(m0, k) + expr_fields(e@).count(k) <= usize::MAX);
                            }
                        }
                        assert forall|k: Seq<char>| #[trigger] expr_fields(a@).count(k) <= count_in(map@, k) by {
                            assert(count_in(m1, k) == count_in(m0, k) + expr_fields(a@).count(k));
                        }
                    }
                    a.remove_from_counter(map);
                    proof {
                        assert forall|k: Seq<char>| count_in(map@, k) == count_in(m0, k) by {
                            assert(count_in(m1, k) == count_in(m0, k) + expr_fields(a@).count(k));
                        }
                        lemma_counts_equal(map@, m0);
                    }
                    return false;
                }
                proof {
                    assert forall|k: Seq<char>|
                        count_in(m0, k) + #[trigger] expr_fields(e@).count(k) <= usize::MAX by {
                        assert(count_in(m1, k) + expr_fields(b@).count(k) <= usize::MAX);
                        assert(count_in(m1, k) == count_in(m0, k) + expr_fields(a@).count(k));
                    }
                    assert forall|k: Seq<char>|
                        count_in(map@, k) == count_in(m0, k) + #[trigger] expr_fields(e@).count(k) by {
                        assert(count_in(m1, k) == count_in(m0, k) + expr_fields(a@).count(k));
                        assert(count_in(map@, k) == count_in(m1, k) + expr_fields(b@).count(k));
                    }
                }
                true
            },
            LogicalExpression::Not(a) => {
                assert(expr_fields(e@) == expr_fields(a@));
                try_count(a, map)
            },
        },
        Expression::Predicate(p) => {
            let f = &p.lhs.var_name;
            let n: usize = match map.get(f.as_str()) {
                Some(c) => *c,
                None => 0,
            };
            assert(n == count_in(map@, f@));
            assert(expr_fields(e@) == Multiset::singleton(f@));
            if n == usize::MAX {
                assert(count_in(map@, f@) + expr_fields(e@).count(f@) > usize::MAX);
                return false;
            }
            count_one(map, f);
            true
        },
    }
}

impl<S: SchemaSource> Router<S> {
    #[verifier::type_invariant]
    spec fn inv(self) -> bool {
        &&& table_inv(self.table)
        &&& self.prefiltered_field matches Some(pf) ==> index_inv(pf, self.table)
    }

    /// The matchers, by increasing key.
    pub closed spec fn spec_matcher_list(&self) -> Seq<(MatcherKey, ExprV)> {
        matchers_view(self.table.matchers@)
    }

    /// The matchers by key.
    pub open spec fn spec_matchers(&self) -> Map<MatcherKey, ExprV> {
        matcher_map(self.spec_matcher_list())
    }

    /// How often each field is read by the matchers.
    pub closed spec fn spec_field_counts(&self) -> Map<Seq<char>, usize> {
        self.table.fields@
    }

    /// The fields of the schema.
    pub closed spec fn spec_schema(&self) -> Map<Seq<char>, Type> {
        self.schema.spec_fields()
    }

    /// The field that prefiltering is enabled on, if any.
    pub closed spec fn spec_prefiltered(&self) -> Option<Seq<char>> {
        match self.prefiltered_field {
            Some(pf) => Some(pf.field@),
            None => None,
        }
    }

    /// A router with no matchers.
    pub fn new(schema: S) -> (r: Router<S>)
        ensures
            r.spec_matchers() == Map::<MatcherKey, ExprV>::empty(),
            r.spec_field_counts() == Map::<Seq<char>, usize>::empty(),
            r.spec_schema() == schema.spec_fields(),
            r.spec_prefiltered() is None,
    {
        let r = Router {
            schema,
            table: MatcherTable { matchers: Vec::new(), fields: StrMap::new() },
            prefiltered_field: None,
        };
        assert(matchers_view(r.table.matchers@) =~= Seq::<(MatcherKey, ExprV)>::empty());
        assert(r.spec_matchers() =~= Map::<MatcherKey, ExprV>::empty());
        r
    }

    /// The schema used by this router.
    pub fn schema(&self) -> (r: &Schema)
        ensures
            r@ == self.spec_schema(),
    {
        self.schema.get_schema()
    }

    /// How often each field is read by the matchers; the fields with a count are exactly
    /// those that some matcher reads.
    pub fn fields(&self) -> (r: &StrMap<usize>)
        ensures
            r@ == self.spec_field_counts(),
            counts_positive(r@),
            forall|k: Seq<char>|
                count_in(r@, k) == #[trigger] matcher_fields(self.spec_matcher_list()).count(k),
    {
        proof {
            use_type_invariant(self);
        }
        &self.table.fields
    }

    /// The position of the first matcher whose key is not below `key`.
    fn lower_bound(&self, key: MatcherKey) -> (p: usize)
        ensures
            p <= self.spec_matcher_list().len(),
            forall|i: int| 0 <= i < p ==> key_lt(#[trigger] self.spec_matcher_list()[i].0, key),
            p < self.spec_matcher_list().len() ==> !key_lt(self.spec_matcher_list()[p as int].0, key),
    {
        proof {
            use_type_invariant(self);
        }
        let ghost ms = self.spec_matcher_list();
        let mut p: usize = 0;
        while p < self.table.matchers.len()
            invariant
                ms == matchers_view(self.table.matchers@),
                p <= ms.len(),
                forall|i: int| 0 <= i < p ==> key_lt(#[trigger] ms[i].0, key),
            decreases ms.len() - p,
        {
            if !key_less(self.table.matchers[p].0, key) {
                return p;
            }
            p = p + 1;
        }
        p
    }

    /// Adds a matcher under `(priority, uuid)`. Fails, changing nothing, when the key is
    /// taken, when the expression does not fit the schema (with the first problem found),
    /// or when a field count would pass `usize::MAX`. With prefiltering on, the matcher
    /// enters the prefix index too.
    pub fn add_matcher_expr(&mut self, priority: usize, uuid: u128, expr: Expression) -> (r: Result<(), String>)
        ensures
            add_outcome(*old(self), *final(self), MatcherKey { priority, uuid }, expr@, r),
    {
        proof {
            use_type_invariant(&*self);
        }
        let key = MatcherKey { priority, uuid };
        let ghost ms = self.spec_matcher_list();
        let p = self.lower_bound(key);
        if p < self.table.matchers.len() && self.table.matchers[p].0 == key {
            proof {
                lemma_map_at(ms, p as int);
            }
            return Err(MSG_DUPLICATE_KEY.to_owned());
        }
        proof {
            if self.spec_matchers().contains_key(key) {
                let i = lemma_map_has(ms, key);
                if i < p {
                    assert(key_lt(ms[i].0, key));
                } else if i > p {
                    assert(key_lt(ms[p as int].0, ms[i].0));
                }
            }
        }
        match expr.validate(self.schema()) {
            Ok(()) => {},
            Err(m) => {
                return Err(m);
            },
        }
        let entry = match &self.prefiltered_field {
            Some(pf) => index_prefixes(&expr, pf.field.as_str()),
            None => None,
        };
        let ghost old_m = self.table.matchers@;
        let mut slot: Option<PrefilteredField> = None;
        std::mem::swap(&mut slot, &mut self.prefiltered_field);
        let mut t = MatcherTable { matchers: Vec::new(), fields: StrMap::new() };
        std::mem::swap(&mut t, &mut self.table);
        assert(matchers_view(self.table.matchers@) =~= Seq::<(MatcherKey, ExprV)>::empty());
        if !try_count(&expr, &mut t.fields) {
            self.table = t;
            self.prefiltered_field = slot;
            return Err(MSG_COUNTER_OVERFLOW.to_owned());
        }
        let ghost ev = expr@;
        t.matchers.insert(p, (key, expr));
        let slot = match slot {
            Some(mut pf) => {
                let ghost old_pf = pf;
                pf.prefixes.insert(p, entry);
                pf.index = build_index(&pf.prefixes);
                proof {
                    let nm = t.matchers@;
                    assert(nm[p as int].1@ == ev);
                    assert forall|i: int| 0 <= i < pf.prefixes@.len() implies well_kept(
                        #[trigger] pf.prefixes@[i],
                    ) && prefix_set(pf.prefixes@[i]) == indexed_prefixes(nm[i].1@, pf.field@) by {
                        if i < p {
                            assert(pf.prefixes@[i] == old_pf.prefixes@[i]);
                            assert(nm[i] == old_m[i]);
                        } else if i > p {
                            assert(pf.prefixes@[i] == old_pf.prefixes@[i - 1]);
                            assert(nm[i] == old_m[i - 1]);
                        }
                    }
                }
                Some(pf)
            },
            None => None,
        };
        proof {
            let n = matchers_view(t.matchers@);
            assert(n =~= ms.insert(p as int, (key, ev)));
            assert forall|i: int, j: int| 0 <= i < j < n.len() implies key_lt(
                #[trigger] n[i].0,
                #[trigger] n[j].0,
            ) by {
                if j < p {
                    assert(n[i] == ms[i] && n[j] == ms[j]);
                } else if j == p {
                    assert(n[i] == ms[i]);
                } else if i < p {
                    assert(n[i] == ms[i] && n[j] == ms[j - 1]);
                    assert(!key_lt(ms[p as int].0, key));
                    if j - 1 > p {
                        assert(key_lt(ms[p as int].0, ms[j - 1].0));
                    }
                    assert(ms[p as int].0 != key);
                } else if i == p {
                    assert(n[j] == ms[j - 1]);
                    assert(ms[p as int].0 != key);
                    if j - 1 > p {
                        assert(key_lt(ms[p as int].0, ms[j - 1].0));
                    }
                } else {
                    assert(n[i] == ms[i - 1] && n[j] == ms[j - 1]);
                }
            }
            lemma_insert_sorted_map(ms, p as int, (key, ev));
            lemma_fields_insert(ms, p as int, (key, ev));
        }
        self.table = t;
        self.prefiltered_field = slot;
        Ok(())
    }

    /// Reads `atc` as an expression and adds it under `(priority, uuid)`. A text that does
    /// not read fails with the reader's message and changes nothing.
    pub fn add_matcher(&mut self, priority: usize, uuid: u128, atc: &str) -> (r: Result<(), String>)
        ensures
            spec_parse(atc@) matches Err(f) ==> (r matches Err(m) && m@ == render(atc@, f))
                && final(self).spec_matcher_list() == old(self).spec_matcher_list()
                && final(self).spec_field_counts() == old(self).spec_field_counts()
                && final(self).spec_schema() == old(self).spec_schema()
                && final(self).spec_prefiltered() == old(self).spec_prefiltered(),
            spec_parse(atc@) matches Ok(e) ==> add_outcome(
                *old(self),
                *final(self),
                MatcherKey { priority, uuid },
                e,
                r,
            ),
    {
        match parse(atc) {
            Err(e) => Err(e.to_string()),
            Ok(expr) => self.add_matcher_expr(priority, uuid, expr),
        }
    }

    /// Removes the matcher under `(priority, uuid)`, from the prefix index too; tells
    /// whether there was one.
    pub fn remove_matcher(&mut self, priority: usize, uuid: u128) -> (r: bool)
        ensures
            remove_outcome(*old(self), *final(self), MatcherKey { priority, uuid }, r),
    {
        proof {
            use_type_invariant(&*self);
        }
        let key = MatcherKey { priority, uuid };
        let ghost ms = self.spec_matcher_list();
        let p = self.lower_bound(key);
        if !(p < self.table.matchers.len() && self.table.matchers[p].0 == key) {
            proof {
                if self.spec_matchers().contains_key(key) {
                    let i = lemma_map_has(ms, key);
                    if i < p {
                        assert(key_lt(ms[i].0, key));
                    } else if i > p {
                        assert(key_lt(ms[p as int].0, ms[i].0));
                    }
                }
                assert(self.spec_matchers() =~= self.spec_matchers().remove(key));
            }
            return false;
        }
        proof {
            lemma_map_at(ms, p as int);
            lemma_remove_sorted_map(ms, p as int);
            lemma_fields_remove(ms, p as int);
        }
        let ghost old_m = self.table.matchers@;
        let mut slot: Option<PrefilteredField> = None;
        std::mem::swap(&mut slot, &mut self.prefiltered_field);
        let mut t = MatcherTable { matchers: Vec::new(), fields: StrMap::new() };
        std::mem::swap(&mut t, &mut self.table);
        assert(matchers_view(self.table.matchers@) =~= Seq::<(MatcherKey, ExprV)>::empty());
        let (_, expr) = t.matchers.remove(p);
        assert(matchers_view(t.matchers@) =~= ms.remove(p as int));
        let slot = match slot {
            Some(mut pf) => {
                let ghost old_pf = pf;
                pf.prefixes.remove(p);
                pf.index = build_index(&pf.prefixes);
                proof {
                    let nm = t.matchers@;
                    assert(nm == old_m.remove(p as int));
                    assert forall|i: int| 0 <= i < pf.prefixes@.len() implies well_kept(
                        #[trigger] pf.prefixes@[i],
                    ) && prefix_set(pf.prefixes@[i]) == indexed_prefixes(nm[i].1@, pf.field@) by {
                        if i < p {
                            assert(pf.prefixes@[i] == old_pf.prefixes@[i]);
                            assert(nm[i] == old_m[i]);
                        } else {
                            assert(pf.prefixes@[i] == old_pf.prefixes@[i + 1]);
                            assert(nm[i] == old_m[i + 1]);
                        }
                    }
                }
                Some(pf)
            },
            None => None,
        };
        proof {
            assert forall|k: Seq<char>| #[trigger] expr.spec_fields().count(k) <= count_in(t.fields@, k) by {
                assert(count_in(t.fields@, k) == matcher_fields(ms).count(k));
            }
        }
        expr.remove_from_counter(&mut t.fields);
        proof {
            assert forall|k: Seq<char>|
                count_in(t.fields@, k) == #[trigger] matcher_fields(matchers_view(t.matchers@)).count(k) by {
                assert(matcher_fields(ms).count(k) == matcher_fields(ms.remove(p as int)).count(k)
                    + expr_fields(ms[p as int].1).count(k));
            }
        }
        self.table = t;
        self.prefiltered_field = slot;
        true
    }

    /// The first value of the prefiltered field, when prefiltering is on and that value is
    /// text.
    fn prefilter_text<'a>(&'a self, context: &'a Context) -> (r: Option<&'a str>)
        ensures
            r matches Some(s) ==> (self.prefiltered_field matches Some(pf)
                && context.spec_values().contains_key(pf.field@)
                && context.spec_values()[pf.field@].len() > 0
                && context.spec_values()[pf.field@][0] == ValueV::String(s@)),
    {
        match &self.prefiltered_field {
            None => None,
            Some(pf) => match context.value_of(pf.field.as_str()) {
                None => None,
                Some(vals) => {
                    if vals.len() == 0 {
                        None
                    } else {
                        match &vals[0] {
                            Value::String(s) => Some(s.as_str()),
                            _ => None,
                        }
                    }
                },
            },
        }
    }

    /// For each matcher position, whether the trie index finds one of the matcher's
    /// prefixes at the start of `text`; `None` when prefiltering is off or there is no text.
    fn prefilter_hits(&self, text: Option<&str>) -> (r: Option<Vec<bool>>)
        ensures
            r matches Some(h) ==> (text matches Some(s) && self.prefiltered_field matches Some(pf)
                && h@.len() == self.spec_matcher_list().len() && forall|j: int|
                0 <= j < h@.len() ==> #[trigger] h@[j] == possible_keys(
                    pf.index.spec_routes(),
                    encode_utf8(s@),
                ).contains(j as usize)),
    {
        proof {
            use_type_invariant(self);
        }
        match &self.prefiltered_field {
            None => None,
            Some(pf) => match text {
                None => None,
                Some(s) => {
                    let found = pf.index.check(s.as_bytes());
                    let n = self.table.matchers.len();
                    let mut hits: Vec<bool> = Vec::new();
                    let mut j: usize = 0;
                    while j < n
                        invariant
                            j <= n,
                            hits@.len() == j,
                            forall|x: int| 0 <= x < j ==> !#[trigger] hits@[x],
                        decreases n - j,
                    {
                        hits.push(false);
                        j = j + 1;
                    }
                    let mut k: usize = 0;
                    while k < found.len()
                        invariant
                            k <= found@.len(),
                            hits@.len() == n,
                            forall|x: int|
                                0 <= x < n ==> (#[trigger] hits@[x] <==> found@.take(k as int).contains(
                                    x as usize,
                                )),
                        decreases found@.len() - k,
                    {
                        let x = found[k];
                        let ghost before = hits@;
                        if x < n {
                            hits.set(x, true);
                        }
                        proof {
                            assert forall|y: int| 0 <= y < n implies (#[trigger] hits@[y]
                                <==> found@.take(k + 1).contains(y as usize)) by {
                                let t0 = found@.take(k as int);
                                let t1 = found@.take(k + 1);
                                assert(t1 =~= t0.push(x));
                                assert(t1[k as int] == x);
                                if y == x as int {
                                    assert(hits@[y]);
                                    assert(t1.contains(y as usize));
                                } else {
                                    assert(hits@[y] == before[y]);
                                    if before[y] {
                                        let w = choose|w: int|
                                            0 <= w < t0.len() && #[trigger] t0[w] == y as usize;
                                        assert(t1[w] == y as usize);
                                    }
                                    if t1.contains(y as usize) {
                                        let w = choose|w: int|
                                            0 <= w < t1.len() && #[trigger] t1[w] == y as usize;
                                        assert(w != k);
                                        assert(t0[w] == y as usize);
                                    }
                                }
                            }
                        }
                        k = k + 1;
                    }
                    proof {
                        assert(found@.take(found@.len() as int) =~= found@);
                        assert forall|x: int| 0 <= x < n implies #[trigger] hits@[x]
                            == possible_keys(pf.index.spec_routes(), encode_utf8(s@)).contains(
                            x as usize,
                        ) by {
                            assert(found@.contains(x as usize) == found@.to_set().contains(
                                x as usize,
                            ));
                        }
                    }
                    Some(hits)
                },
            },
        }
    }

    /// Whether the prefix index lets the matcher at position `i` go unread: prefiltering is
    /// on, the field's first value is the text `text`, the matcher is listed, and the trie
    /// finds none of its prefixes at the start of the text.
    fn skips(&self, i: usize, text: Option<&str>, hits: &Option<Vec<bool>>) -> (r: bool)
        requires
            i < self.spec_matcher_list().len(),
            *hits matches Some(h) ==> (text matches Some(s) && self.prefiltered_field matches Some(pf)
                && h@.len() == self.spec_matcher_list().len() && forall|j: int|
                0 <= j < h@.len() ==> #[trigger] h@[j] == possible_keys(
                    pf.index.spec_routes(),
                    encode_utf8(s@),
                ).contains(j as usize)),
        ensures
            r ==> (text matches Some(s) && self.prefiltered_field matches Some(pf) && !lets_through(
                indexed_prefixes(self.spec_matcher_list()[i as int].1, pf.field@),
                encode_utf8(s@),
            )),
    {
        proof {
            use_type_invariant(self);
        }
        match (&self.prefiltered_field, hits) {
            (Some(pf), Some(h)) => match &pf.prefixes[i] {
                None => false,
                Some(ps) => {
                    let r = !h[i];
                    proof {
                        if r {
                            let s = text->Some_0;
                            let v = encode_utf8(s@);
                            let routes = pf.index.spec_routes();
                            assert(routes.contains_key(i));
                            assert(routes[i] == bytes_list(ps@));
                            assert(strings_view(ps@) =~= bytes_list(ps@));
                            if lets_through(prefix_set(Some(*ps)), v) {
                                let p = choose|p: Seq<u8>|
                                    #[trigger] strings_view(ps@).to_set().contains(p) && starts(v, p);
                                assert(strings_view(ps@).contains(p));
                                let x = choose|x: int|
                                    0 <= x < strings_view(ps@).len() && strings_view(ps@)[x] == p;
                                assert(starts(v, routes[i][x]));
                                assert(possible_keys(routes, v).contains(i));
                            }
                        }
                    }
                    r
                },
            },
            _ => false,
        }
    }

    /// The match of the matcher with the greatest key among those that hold on the
    /// context's values, if any holds. The context is left as it is. With prefiltering on
    /// and the field's first value text, the matchers that the prefix index shows cannot
    /// hold are skipped unread; the result is the same as with every matcher read.
    pub fn try_match(&self, context: &Context) -> (r: Option<Match>)
        ensures
            r is None <==> none_holds(self.spec_matchers(), context.spec_values()),
            r matches Some(m) ==> exists|k: MatcherKey|
                wins(self.spec_matchers(), k, context.spec_values())
                    && m@ == match_for(self.spec_matchers(), k, context.spec_values()),
    {
        proof {
            use_type_invariant(self);
        }
        let ghost ms = self.spec_matcher_list();
        let ghost values = context.spec_values();
        let text = self.prefilter_text(context);
        let hits = self.prefilter_hits(text);
        let mut mat = Match::new();
        let mut i: usize = self.table.matchers.len();
        while i > 0
            invariant
                ms == matchers_view(self.table.matchers@),
                ms == self.spec_matcher_list(),
                sorted_keys(ms),
                values == context.spec_values(),
                i <= ms.len(),
                mat@ == empty_match(),
                forall|j: int| i <= j < ms.len() ==> !expr_holds(#[trigger] ms[j].1, values),
                text matches Some(s) ==> (self.prefiltered_field matches Some(pf)
                    && values.contains_key(pf.field@) && values[pf.field@].len() > 0
                    && values[pf.field@][0] == ValueV::String(s@)),
                hits matches Some(h) ==> (text matches Some(s) && self.prefiltered_field matches Some(pf)
                    && h@.len() == ms.len() && forall|j: int|
                    0 <= j < h@.len() ==> #[trigger] h@[j] == possible_keys(
                        pf.index.spec_routes(),
                        encode_utf8(s@),
                    ).contains(j as usize)),
            decreases i,
        {
            i = i - 1;
            let key = self.table.matchers[i].0;
            let expr = &self.table.matchers[i].1;
            assert(ms[i as int] == (key, expr@));
            if self.skips(i, text, &hits) {
                proof {
                    let s = text->Some_0;
                    let pf = self.prefiltered_field->Some_0;
                    law_prefilter_skips_only_failing_matchers(ms[i as int].1, pf.field@, values, s@);
                }
            } else if expr.execute(context, &mut mat) {
                mat.uuid = key.uuid;
                proof {
                    let m = self.spec_matchers();
                    lemma_map_at(ms, i as int);
                    assert forall|k2: MatcherKey|
                        #[trigger] m.contains_key(k2) && key_lt(key, k2) implies !expr_holds(m[k2], values) by {
                        let j = lemma_map_has(ms, k2);
                        if j < i {
                            assert(key_lt(ms[j].0, key));
                        } else if j == i {
                            assert(!key_lt(key, key));
                        }
                    }
                    assert(wins(m, key, values));
                    assert(mat@ == match_for(m, key, values));
                }
                return Some(mat);
            }
            mat.reset();
        }
        proof {
            let m = self.spec_matchers();
            assert forall|k: MatcherKey| #[trigger] m.contains_key(k) implies !expr_holds(m[k], values) by {
                let j = lemma_map_has(ms, k);
            }
        }
        None
    }

    /// Matches the context's values and, when a matcher holds, stores its match as the
    /// context's result. Tells whether one held; the result is left as it was otherwise.
    pub fn execute(&self, context: &mut Context) -> (r: bool)
        ensures
            r == !none_holds(self.spec_matchers(), old(context).spec_values()),
            final(context).spec_values() == old(context).spec_values(),
            final(context).spec_schema() == old(context).spec_schema(),
            !r ==> final(context).result == old(context).result,
            r ==> (final(context).result matches Some(m) && exists|k: MatcherKey|
                wins(self.spec_matchers(), k, old(context).spec_values())
                    && m@ == match_for(self.spec_matchers(), k, old(context).spec_values())),
    {
        match self.try_match(&*context) {
            Some(m) => {
                context.result = Some(m);
                true
            },
            None => false,
        }
    }

    /// Turns prefiltering on for a string field of the schema: the field is checked, and a
    /// prefix index of the matchers on it is built, which adding and removing matchers keep
    /// up to date and matching reads to skip matchers (see [`Router::try_match`]).
    pub fn enable_prefilter(&mut self, field: &str) -> (r: Result<(), String>)
        ensures
            old(self).spec_prefiltered() == Some(field@) ==> r is Ok,
            old(self).spec_prefiltered() != Some(field@) ==> match field_type(
                old(self).spec_schema(),
                field@,
            ) {
                Some(Type::String) => r is Ok,
                Some(t) => r matches Err(m) && m@ == "Field "@ + field@
                    + " is of type "@ + spec_type_label(t) + ", must be a string"@,
                None => r matches Err(m) && m@ == "Field "@ + field@
                    + " is not in schema"@,
            },
            r is Ok ==> final(self).spec_prefiltered() == Some(field@),
            r is Err ==> final(self).spec_prefiltered() == old(self).spec_prefiltered(),
            final(self).spec_matchers() == old(self).spec_matchers(),
            final(self).spec_field_counts() == old(self).spec_field_counts(),
            final(self).spec_schema() == old(self).spec_schema(),
    {
        proof {
            use_type_invariant(&*self);
        }
        if let Some(pf) = &self.prefiltered_field {
            if crate::text::str_eq(pf.field.as_str(), field) {
                return Ok(());
            }
        }
        match self.schema().type_of(field) {
            Some(Type::String) => {},
            Some(t) => {
                let mut m = "Field ".to_owned();
                crate::text::push_str(&mut m, field);
                crate::text::push_str(&mut m, " is of type ");
                crate::text::push_str(&mut m, type_label(t));
                crate::text::push_str(&mut m, ", must be a string");
                return Err(m);
            },
            None => {
                let mut m = "Field ".to_owned();
                crate::text::push_str(&mut m, field);
                crate::text::push_str(&mut m, " is not in schema");
                return Err(m);
            },
        }
        let mut prefixes: Vec<Option<Vec<Vec<u8>>>> = Vec::new();
        let mut i: usize = 0;
        while i < self.table.matchers.len()
            invariant
                i <= self.table.matchers@.len(),
                prefixes@.len() == i,
                forall|j: int|
                    0 <= j < i ==> well_kept(#[trigger] prefixes@[j]) && prefix_set(prefixes@[j])
                        == indexed_prefixes(self.table.matchers@[j].1@, field@),
            decreases self.table.matchers@.len() - i,
        {
            let entry = index_prefixes(&self.table.matchers[i].1, field);
            prefixes.push(entry);
            i = i + 1;
        }
        let index = build_index(&prefixes);
        self.prefiltered_field = Some(PrefilteredField { field: field.to_owned(), prefixes, index });
        Ok(())
    }

    /// Turns prefiltering off.
    pub fn disable_prefilter(&mut self)
        ensures
            final(self).spec_prefiltered() is None,
            final(self).spec_matchers() == old(self).spec_matchers(),
            final(self).spec_field_counts() == old(self).spec_field_counts(),
            final(self).spec_schema() == old(self).spec_schema(),
    {
        proof {
            use_type_invariant(&*self);
        }
        self.prefiltered_field = None;
    }
}

/// The name of a type, as it reads in messages.
pub open spec fn spec_type_label(t: Type) -> Seq<char> {
    match t {
        Type::String => "String"@,
        Type::IpCidr => "IpCidr"@,
        Type::IpAddr => "IpAddr"@,
        Type::Int => "Int"@,
        Type::Regex => "Regex"@,
    }
}

/// The name of a type, as it reads in messages.
pub fn type_label(t: Type) -> (r: &'static str)
    ensures
        r@ == spec_type_label(t),
{
    match t {
        Type::String => "String",
        Type::IpCidr => "IpCidr",
        Type::IpAddr => "IpAddr",
        Type::Int => "Int",
        Type::Regex => "Regex",
    }
}

/// A prefix set as the increasing list that the visitor keeps; `None` stays `None`.
pub open spec fn as_list(o: Option<Set<Seq<u8>>>) -> Option<Seq<Seq<u8>>> {
    match o {
        Some(s) => Some(sorted_list(s)),
        None => None,
    }
}

/// What two prefix constraints allow together, as the visitor computes it.
pub open spec fn meet(a: Option<Set<Seq<u8>>>, b: Option<Set<Seq<u8>>>) -> Option<Set<Seq<u8>>> {
    intersection(as_list(a), as_list(b))
}

/// Whether every predicate on `field` that a prefilter reads holds a value of the kind it
/// reads: text for `==` and `^=`, a pattern for `~`.
pub open spec fn prefilterable(e: ExprV, field: Seq<char>) -> bool
    decreases e,
{
    match e {
        ExprV::And(a, b) | ExprV::Or(a, b) => prefilterable(*a, field) && prefilterable(*b, field),
        ExprV::Not(a) => prefilterable(*a, field),
        ExprV::Pred(p) => p.lhs.var_name == field && p.lhs.transformations.len() == 0 ==> match p.op {
            BinaryOperator::Equals | BinaryOperator::Prefix => p.rhs is String,
            BinaryOperator::Regex => p.rhs is Regex,
            _ => true,
        },
    }
}

/// The prefixes that reading an expression requires of `field`'s value (`None`: no limit).
/// A predicate on the field itself, untransformed, requires its text for `==` and `^=`, and
/// the prefixes of its pattern for `~`; an `and` requires what both parts do, an `or` what
/// either alternative does, at most a hundred prefixes in all; a negation requires nothing.
pub open spec fn required_prefixes(e: ExprV, field: Seq<char>) -> Option<Set<Seq<u8>>>
    decreases e,
{
    match e {
        ExprV::And(a, b) => union_limited(
            Some(Set::empty()),
            meet(meet(None, required_prefixes(*a, field)), required_prefixes(*b, field)),
            100,
        ),
        ExprV::Or(a, b) => union_limited(
            union_limited(Some(Set::empty()), meet(None, required_prefixes(*a, field)), 100),
            meet(None, required_prefixes(*b, field)),
            100,
        ),
        ExprV::Not(_) => None,
        ExprV::Pred(p) => if p.lhs.var_name == field && p.lhs.transformations.len() == 0 {
            match (p.op, p.rhs) {
                (BinaryOperator::Equals, ValueV::String(t)) => Some(set![encode_utf8(t)]),
                (BinaryOperator::Prefix, ValueV::String(t)) => Some(set![encode_utf8(t)]),
                (BinaryOperator::Regex, ValueV::Regex(r)) => regex_prefix_set(r),
                _ => None,
            }
        } else {
            None
        },
    }
}

/// How reading a requirement changes a visitor's nesting levels: only the innermost
/// changes, and what it requires meets `req`.
pub open spec fn visited(fs: Seq<FrameV>, gs: Seq<FrameV>, req: Option<Set<Seq<u8>>>) -> bool {
    let n = fs.len();
    &&& gs.len() == n
    &&& gs.take(n - 1) == fs.take(n - 1)
    &&& gs[n - 1].or_prefixes == fs[n - 1].or_prefixes
    &&& list_set(gs[n - 1].and_prefixes) == meet(list_set(fs[n - 1].and_prefixes), req)
}

proof fn lemma_list_of_set(o: Option<Seq<Seq<u8>>>)
    requires
        sorted_opt(o),
    ensures
        as_list(list_set(o)) == o,
{
    if let Some(q) = o {
        lemma_sorted_list(q);
    }
}

proof fn lemma_one_prefix(b: Seq<u8>)
    ensures
        as_list(Some(set![b])) == Some(seq![b]),
{
    let q = seq![b];
    assert(sorted_strings(q));
    assert(q.to_set() =~= set![b]) by {
        assert(q[0] == b);
        assert(q.contains(b));
    }
    lemma_sorted_list(q);
}

/// Tells the visitor what `expr` requires of the start of `field`'s value.
fn visit_expression(expr: &Expression, field: &str, visitor: &mut MatcherVisitor)
    requires
        old(visitor).wf(),
        prefilterable(expr@, field@),
    ensures
        final(visitor).wf(),
        visited(
            old(visitor).spec_frames(),
            final(visitor).spec_frames(),
            required_prefixes(expr@, field@),
        ),
    decreases expr,
{
    let ghost fs = visitor.spec_frames();
    let ghost n: int = fs.len() as int;
    proof {
        visitor.lemma_lists_sorted();
        lemma_list_of_set(fs[n - 1].and_prefixes);
    }
    match expr {
        Expression::Logical(logical) => {
            visitor.visit_nested_start();
            let ghost fs1 = visitor.spec_frames();
            assert(fs1.take(n) =~= fs);
            match &**logical {
                LogicalExpression::And(lhs, rhs) => {
                    visit_expression(lhs, field, visitor);
                    let ghost fs2 = visitor.spec_frames();
                    visit_expression(rhs, field, visitor);
                    let ghost fs3 = visitor.spec_frames();
                    assert(fs3.take(n) =~= fs2.take(n));
                    assert(fs2.take(n) =~= fs1.take(n));
                },
                LogicalExpression::Or(lhs, rhs) => {
                    visit_expression(lhs, field, visitor);
                    let ghost fs2 = visitor.spec_frames();
                    visitor.visit_or_in();
                    let ghost fs3 = visitor.spec_frames();
                    visit_expression(rhs, field, visitor);
                    let ghost fs4 = visitor.spec_frames();
                    assert(fs4.take(n) =~= fs3.take(n));
                    assert(fs3.take(n) =~= fs2.take(n));
                    assert(fs2.take(n) =~= fs1.take(n));
                },
                LogicalExpression::Not(_inner) => {},
            }
            let ghost inner = visitor.spec_frames();
            assert(inner[n - 1] == fs[n - 1]) by {
                assert(inner.take(n)[n - 1] == fs[n - 1]);
            }
            assert(Seq::<Seq<u8>>::empty().to_set() =~= Set::<Seq<u8>>::empty());
            visitor.visit_nested_finish();
            let ghost gs = visitor.spec_frames();
            assert(gs.take(n - 1) =~= fs.take(n - 1)) by {
                assert(inner.take(n - 1) =~= fs.take(n - 1));
            }
        },
        Expression::Predicate(pred) => {
            if str_eq(pred.lhs.var_name.as_str(), field) && pred.lhs.transformations.len() == 0 {
                match pred.op {
                    BinaryOperator::Equals => {
                        let rhs = pred.rhs.as_str().unwrap();
                        proof {
                            lemma_one_prefix(encode_utf8(rhs@));
                        }
                        visitor.visit_match_equals(rhs.as_str());
                    },
                    BinaryOperator::Prefix => {
                        let rhs = pred.rhs.as_str().unwrap();
                        proof {
                            lemma_one_prefix(encode_utf8(rhs@));
                        }
                        visitor.visit_match_starts_with(rhs.as_str());
                    },
                    BinaryOperator::Regex => {
                        let rhs = pred.rhs.as_regex().unwrap();
                        visitor.visit_match_regex(rhs.as_str());
                    },
                    BinaryOperator::NotEquals
                    | BinaryOperator::Postfix
                    | BinaryOperator::Greater
                    | BinaryOperator::GreaterOrEqual
                    | BinaryOperator::Less
                    | BinaryOperator::LessOrEqual
                    | BinaryOperator::In
                    | BinaryOperator::NotIn
                    | BinaryOperator::Contains => {
                        assert(visitor.spec_frames().take(n - 1) =~= fs.take(n - 1));
                    },
                }
            } else {
                assert(visitor.spec_frames().take(n - 1) =~= fs.take(n - 1));
            }
        },
    }
}

/// An alternation one of whose alternatives sets no limit on the start of the field's value
/// sets none either: the value could then start with anything.
pub proof fn law_open_alternative_sets_no_limit(a: ExprV, b: ExprV, field: Seq<char>)
    requires
        required_prefixes(a, field) is None || required_prefixes(b, field) is None,
    ensures
        required_prefixes(ExprV::Or(Box::new(a), Box::new(b)), field) is None,
{
}

/// Every predicate that reads the field itself, untransformed, compares it with `==` or `^=`.
pub open spec fn literal_only(e: ExprV, field: Seq<char>) -> bool
    decreases e,
{
    match e {
        ExprV::And(a, b) | ExprV::Or(a, b) => literal_only(*a, field) && literal_only(*b, field),
        ExprV::Not(a) => literal_only(*a, field),
        ExprV::Pred(p) => p.lhs.var_name == field && p.lhs.transformations.len() == 0 ==> p.op
            != BinaryOperator::Regex,
    }
}

/// A prefix constraint lets `v` through: it sets no limit, or one of its prefixes starts `v`.
pub open spec fn lets_through(r: Option<Set<Seq<u8>>>, v: Seq<u8>) -> bool {
    match r {
        None => true,
        Some(ps) => exists|p: Seq<u8>| #[trigger] ps.contains(p) && starts(v, p),
    }
}

proof fn lemma_through(r: Option<Set<Seq<u8>>>, v: Seq<u8>, p: Seq<u8>)
    requires
        r is Some,
        r->Some_0.contains(p),
        starts(v, p),
    ensures
        lets_through(r, v),
{
    let ps = r->Some_0;
    assert(ps.contains(p) && starts(v, p));
}

spec fn finite_opt(r: Option<Set<Seq<u8>>>) -> bool {
    match r {
        None => true,
        Some(ps) => ps.finite(),
    }
}

proof fn lemma_encode_concat(a: Seq<char>, b: Seq<char>)
    ensures
        encode_utf8(a + b) == encode_utf8(a) + encode_utf8(b),
    decreases a.len(),
{
    if a.len() == 0 {
        assert(a + b =~= b);
        assert(Seq::<u8>::empty() + encode_utf8(b) =~= encode_utf8(b));
    } else {
        lemma_encode_concat(a.drop_first(), b);
        assert((a + b).drop_first() =~= a.drop_first() + b);
        assert((a + b)[0] == a[0]);
        assert(encode_utf8(a + b) =~= encode_utf8(a) + encode_utf8(b));
    }
}

proof fn lemma_encode_prefix(t: Seq<char>, s: Seq<char>)
    requires
        is_prefix(t, s),
    ensures
        starts(encode_utf8(s), encode_utf8(t)),
{
    let rest = s.skip(t.len() as int);
    assert(s =~= t + rest);
    lemma_encode_concat(t, rest);
    assert(encode_utf8(s).take(encode_utf8(t).len() as int) =~= encode_utf8(t));
}

proof fn lemma_required_finite(e: ExprV, field: Seq<char>)
    ensures
        finite_opt(required_prefixes(e, field)),
    decreases e,
{
    match e {
        ExprV::And(a, b) => {
            lemma_required_finite(*a, field);
            lemma_required_finite(*b, field);
            let ra = required_prefixes(*a, field);
            let rb = required_prefixes(*b, field);
            lemma_meet(None, ra, Seq::empty(), false);
            lemma_meet(meet(None, ra), rb, Seq::empty(), false);
            lemma_union(Some(Set::empty()), meet(meet(None, ra), rb), Seq::empty(), false);
        },
        ExprV::Or(a, b) => {
            lemma_required_finite(*a, field);
            lemma_required_finite(*b, field);
            let ra = required_prefixes(*a, field);
            let rb = required_prefixes(*b, field);
            lemma_meet(None, ra, Seq::empty(), false);
            lemma_meet(None, rb, Seq::empty(), false);
            lemma_union(Some(Set::empty()), meet(None, ra), Seq::empty(), false);
            lemma_union(
                union_limited(Some(Set::empty()), meet(None, ra), 100),
                meet(None, rb),
                Seq::empty(),
                false,
            );
        },
        ExprV::Not(_) => {},
        ExprV::Pred(p) => {
            if let Some(ps) = required_prefixes(e, field) {
                if p.op == BinaryOperator::Regex {
                    assert(ps.finite()) by {
                        match regex_leading_literals(p.rhs->Regex_0) {
                            Some(l) => {
                                vstd::seq_lib::seq_to_set_is_finite(l);
                            },
                            None => {},
                        }
                    }
                } else {
                    assert(ps.finite());
                }
            }
        },
    }
}

/// Meeting two finite constraints gives a finite one; when both let `v` through (and
/// `through` asks for that), so does their meeting.
proof fn lemma_meet(x: Option<Set<Seq<u8>>>, y: Option<Set<Seq<u8>>>, v: Seq<u8>, through: bool)
    requires
        finite_opt(x),
        finite_opt(y),
        through ==> lets_through(x, v) && lets_through(y, v),
    ensures
        finite_opt(meet(x, y)),
        through ==> lets_through(meet(x, y), v),
{
    if let Some(a) = x {
        lemma_sorted_list_of_set(a);
    }
    if let Some(b) = y {
        lemma_sorted_list_of_set(b);
    }
    match (x, y) {
        (Some(a), Some(b)) => {
            let la = sorted_list(a);
            let lb = sorted_list(b);
            let m = merge_expansions(la, lb, 0, 0);
            vstd::seq_lib::seq_to_set_is_finite(m);
            if through {
                let pa = choose|p: Seq<u8>| #[trigger] a.contains(p) && starts(v, p);
                let pb = choose|p: Seq<u8>| #[trigger] b.contains(p) && starts(v, p);
                assert(la.to_set().contains(pa));
                assert(lb.to_set().contains(pb));
                assert(la.contains(pa));
                assert(lb.contains(pb));
                law_intersection_keeps_common_starts(la, lb, v);
                let w = choose|w: Seq<u8>| #[trigger] m.contains(w) && starts(v, w);
                assert(m.to_set().contains(w));
            }
        },
        _ => {},
    }
}

/// Joining two finite constraints gives a finite one; when one of them lets `v` through
/// (and `through` asks for that), so does their joining.
proof fn lemma_union(x: Option<Set<Seq<u8>>>, y: Option<Set<Seq<u8>>>, v: Seq<u8>, through: bool)
    requires
        finite_opt(x),
        finite_opt(y),
        through ==> lets_through(x, v) || lets_through(y, v),
    ensures
        finite_opt(union_limited(x, y, 100)),
        through ==> lets_through(union_limited(x, y, 100), v),
{
    match (x, y) {
        (Some(a), Some(b)) => {
            if through {
                if let Some(u) = union_limited(x, y, 100) {
                    if lets_through(x, v) {
                        let p = choose|p: Seq<u8>| #[trigger] a.contains(p) && starts(v, p);
                        assert(u.contains(p));
                    } else {
                        let p = choose|p: Seq<u8>| #[trigger] b.contains(p) && starts(v, p);
                        assert(u.contains(p));
                    }
                }
            }
        },
        _ => {},
    }
}

/// When every predicate that reads the field itself compares it with `==` or `^=`, a request
/// on which the expression holds starts its first value of the field with one of the
/// prefixes the expression requires, if it requires any: prefiltering on those prefixes
/// never drops a matcher that matches.
pub proof fn law_literal_prefixes_let_matches_through(
    e: ExprV,
    field: Seq<char>,
    values: Map<Seq<char>, Seq<ValueV>>,
    s: Seq<char>,
)
    requires
        prefilterable(e, field),
        literal_only(e, field),
        expr_holds(e, values),
        values.contains_key(field),
        values[field].len() > 0,
        values[field][0] == ValueV::String(s),
    ensures
        lets_through(required_prefixes(e, field), encode_utf8(s)),
    decreases e,
{
    let v = encode_utf8(s);
    match e {
        ExprV::And(a, b) => {
            law_literal_prefixes_let_matches_through(*a, field, values, s);
            law_literal_prefixes_let_matches_through(*b, field, values, s);
            lemma_required_finite(*a, field);
            lemma_required_finite(*b, field);
            let ra = required_prefixes(*a, field);
            let rb = required_prefixes(*b, field);
            lemma_meet(None, ra, v, true);
            lemma_meet(meet(None, ra), rb, v, true);
            lemma_union(Some(Set::empty()), meet(meet(None, ra), rb), v, true);
        },
        ExprV::Or(a, b) => {
            lemma_required_finite(*a, field);
            lemma_required_finite(*b, field);
            let ra = required_prefixes(*a, field);
            let rb = required_prefixes(*b, field);
            if expr_holds(*a, values) {
                law_literal_prefixes_let_matches_through(*a, field, values, s);
                lemma_meet(None, ra, v, true);
                lemma_meet(None, rb, v, false);
                lemma_union(Some(Set::empty()), meet(None, ra), v, true);
                lemma_union(
                    union_limited(Some(Set::empty()), meet(None, ra), 100),
                    meet(None, rb),
                    v,
                    true,
                );
            } else {
                law_literal_prefixes_let_matches_through(*b, field, values, s);
                lemma_meet(None, ra, v, false);
                lemma_meet(None, rb, v, true);
                lemma_union(Some(Set::empty()), meet(None, ra), v, false);
                lemma_union(
                    union_limited(Some(Set::empty()), meet(None, ra), 100),
                    meet(None, rb),
                    v,
                    true,
                );
            }
        },
        ExprV::Not(_) => {},
        ExprV::Pred(p) => {
            if p.lhs.var_name == field && p.lhs.transformations.len() == 0 {
                let vals = values[field];
                assert(!crate::interpreter::uses_any(p));
                assert(!crate::interpreter::uses_lower(p));
                assert(crate::interpreter::value_holds(p, vals[0]));
                match (p.op, p.rhs) {
                    (BinaryOperator::Equals, ValueV::String(t)) => {
                        assert(t == s);
                        assert(v.take(v.len() as int) =~= v);
                        assert(set![v].contains(v));
                        lemma_through(required_prefixes(e, field), v, v);
                    },
                    (BinaryOperator::Prefix, ValueV::String(t)) => {
                        lemma_encode_prefix(t, s);
                        assert(set![encode_utf8(t)].contains(encode_utf8(t)));
                        lemma_through(required_prefixes(e, field), v, encode_utf8(t));
                    },
                    _ => {},
                }
            }
        },
    }
}

/// A router matcher read for prefiltering on one field.
pub struct ExprMatcher<'a> {
    expr: &'a Expression,
    field: &'a str,
}

impl<'a> ExprMatcher<'a> {
    /// The expression reads as a prefilter reads it.
    #[verifier::type_invariant]
    spec fn inv(self) -> bool {
        prefilterable(self.expr@, self.field@)
    }

    /// The expression read.
    pub closed spec fn spec_expr(self) -> ExprV {
        self.expr@
    }

    /// The field prefiltered on.
    pub closed spec fn spec_field(self) -> Seq<char> {
        self.field@
    }

    /// Reads `expr` for prefiltering on `field`.
    pub fn new(expr: &'a Expression, field: &'a str) -> (r: ExprMatcher<'a>)
        requires
            prefilterable(expr@, field@),
        ensures
            r.spec_expr() == expr@,
            r.spec_field() == field@,
    {
        ExprMatcher { expr, field }
    }
}

impl Matcher for ExprMatcher<'_> {
    /// Only the innermost nesting level changes: what it requires meets what the expression
    /// requires of the field.
    open spec fn visited_by(&self, before: Seq<FrameV>, after: Seq<FrameV>) -> bool {
        visited(before, after, required_prefixes(self.spec_expr(), self.spec_field()))
    }

    fn visit(&self, visitor: &mut MatcherVisitor)
        ensures
            visited(
                old(visitor).spec_frames(),
                final(visitor).spec_frames(),
                required_prefixes(self.spec_expr(), self.spec_field()),
            ),
    {
        proof {
            use_type_invariant(self);
        }
        visit_expression(self.expr, self.field, visitor);
    }
}


/// The prefixes under which a prefix index keeps a matcher: when every predicate that reads
/// the field itself compares it with `==` or `^=`, what the matcher requires of the start of
/// the field's value, as a visitor's single nesting level gathers it; `None` (always read)
/// otherwise.
pub open spec fn indexed_prefixes(e: ExprV, field: Seq<char>) -> Option<Set<Seq<u8>>> {
    if prefilterable(e, field) && literal_only(e, field) {
        union_limited(Some(Set::empty()), meet(None, required_prefixes(e, field)), 100)
    } else {
        None
    }
}

/// A matcher none of whose indexed prefixes starts the first value of the field, that value
/// being text, does not hold: prefiltering skips only matchers that would not match.
pub proof fn law_prefilter_skips_only_failing_matchers(
    e: ExprV,
    field: Seq<char>,
    values: Map<Seq<char>, Seq<ValueV>>,
    s: Seq<char>,
)
    requires
        values.contains_key(field),
        values[field].len() > 0,
        values[field][0] == ValueV::String(s),
        !lets_through(indexed_prefixes(e, field), encode_utf8(s)),
    ensures
        !expr_holds(e, values),
{
    if expr_holds(e, values) {
        law_literal_prefixes_let_matches_through(e, field, values, s);
        lemma_required_finite(e, field);
        let v = encode_utf8(s);
        let req = required_prefixes(e, field);
        lemma_meet(None, req, v, true);
        lemma_union(Some(Set::empty()), meet(None, req), v, true);
    }
}

/// Whether every predicate that reads `field` itself reads as a prefilter reads it and
/// compares with `==` or `^=`.
fn literal_prefilterable(e: &Expression, field: &str) -> (r: bool)
    ensures
        r == (prefilterable(e@, field@) && literal_only(e@, field@)),
    decreases e,
{
    match e {
        Expression::Logical(l) => match &**l {
            LogicalExpression::And(a, b) => literal_prefilterable(a, field)
                && literal_prefilterable(b, field),
            LogicalExpression::Or(a, b) => literal_prefilterable(a, field)
                && literal_prefilterable(b, field),
            LogicalExpression::Not(a) => literal_prefilterable(a, field),
        },
        Expression::Predicate(p) => {
            if str_eq(p.lhs.var_name.as_str(), field) && p.lhs.transformations.len() == 0 {
                match p.op {
                    BinaryOperator::Equals | BinaryOperator::Prefix => match &p.rhs {
                        Value::String(_) => true,
                        _ => false,
                    },
                    BinaryOperator::Regex => false,
                    _ => true,
                }
            } else {
                true
            }
        },
    }
}

/// The prefixes under which the prefix index of `field` keeps `expr`, read through an
/// [`ExprMatcher`] by a fresh visitor.
fn index_prefixes(expr: &Expression, field: &str) -> (r: Option<Vec<Vec<u8>>>)
    ensures
        well_kept(r),
        prefix_set(r) == indexed_prefixes(expr@, field@),
{
    if !literal_prefilterable(expr, field) {
        return None;
    }
    let mut visitor = MatcherVisitor::new();
    let matcher = ExprMatcher::new(expr, field);
    matcher.visit(&mut visitor);
    assert(Seq::<Seq<u8>>::empty().to_set() =~= Set::<Seq<u8>>::empty());
    visitor.finish_gathered()
}

/// A trie index of prefix lists, keeping each listed position under its list.
fn build_index(ps: &Vec<Option<Vec<Vec<u8>>>>) -> (r: InnerPrefilter)
    ensures
        r.spec_routes() == index_routes(ps@),
{
    let mut index = InnerPrefilter::new();
    let mut i: usize = 0;
    assert(index.spec_routes() =~= Map::new(
        |k: usize| k < 0 && ps@[k as int] is Some,
        |k: usize| bytes_list(ps@[k as int]->Some_0@),
    ));
    while i < ps.len()
        invariant
            i <= ps@.len(),
            index.spec_routes() == Map::new(
                |k: usize| k < i && ps@[k as int] is Some,
                |k: usize| bytes_list(ps@[k as int]->Some_0@),
            ),
        decreases ps@.len() - i,
    {
        match &ps[i] {
            Some(list) => {
                index.insert(i, copy_prefixes(list));
            },
            None => {},
        }
        assert(index.spec_routes() =~= Map::new(
            |k: usize| k < i + 1 && ps@[k as int] is Some,
            |k: usize| bytes_list(ps@[k as int]->Some_0@),
        ));
        i = i + 1;
    }
    assert(index.spec_routes() =~= index_routes(ps@));
    index
}

} // verus!
