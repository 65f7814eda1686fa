use vstd::prelude::*;
use vstd::string::StringSliceAdditionalSpecFns;

verus! {

/// `p` is a prefix of the byte string `v`.
pub open spec fn starts(v: Seq<u8>, p: Seq<u8>) -> bool {
    p.len() <= v.len() && v.take(p.len() as int) == p
}

/// Byte strings in lexicographic order: `a` comes before `b`.
pub open spec fn lex_lt(a: Seq<u8>, b: Seq<u8>) -> bool
    decreases a.len(),
{
    if a.len() == 0 {
        b.len() > 0
    } else if b.len() == 0 {
        false
    } else if a[0] != b[0] {
        a[0] < b[0]
    } else {
        lex_lt(a.drop_first(), b.drop_first())
    }
}

/// One of two byte strings is a prefix of the other.
pub open spec fn related(a: Seq<u8>, b: Seq<u8>) -> bool {
    starts(a, b) || starts(b, a)
}

/// The longer of two related byte strings.
pub open spec fn longer(a: Seq<u8>, b: Seq<u8>) -> Seq<u8> {
    if starts(a, b) {
        a
    } else {
        b
    }
}

/// Byte strings in strictly increasing order.
pub open spec fn sorted_strings(s: Seq<Seq<u8>>) -> bool {
    forall|i: int, j: int| 0 <= i < j < s.len() ==> lex_lt(#[trigger] s[i], #[trigger] s[j])
}

/// The mathematical form of a list of byte strings.
pub open spec fn strings_view(v: Seq<Vec<u8>>) -> Seq<Seq<u8>> {
    v.map_values(|x: Vec<u8>| x@)
}

proof fn lemma_starts_first(v: Seq<u8>, p: Seq<u8>)
    requires
        v.len() > 0,
        p.len() > 0,
        v[0] == p[0],
    ensures
        starts(v, p) == starts(v.drop_first(), p.drop_first()),
{
    if starts(v, p) {
        assert(v.drop_first().take(p.len() - 1) =~= v.take(p.len() as int).drop_first());
    }
    if starts(v.drop_first(), p.drop_first()) {
        assert(v.take(p.len() as int) =~= seq![v[0]] + v.drop_first().take(p.len() - 1));
        assert(p =~= seq![p[0]] + p.drop_first());
    }
}

pub(crate) proof fn lemma_lex_irreflexive(a: Seq<u8>)
    ensures
        !lex_lt(a, a),
    decreases a.len(),
{
    if a.len() > 0 {
        lemma_lex_irreflexive(a.drop_first());
    }
}

pub(crate) proof fn lemma_lex_transitive(a: Seq<u8>, b: Seq<u8>, c: Seq<u8>)
    requires
        lex_lt(a, b),
        lex_lt(b, c),
    ensures
        lex_lt(a, c),
    decreases a.len(),
{
    if a.len() > 0 && b.len() > 0 && c.len() > 0 && a[0] == b[0] && b[0] == c[0] {
        lemma_lex_transitive(a.drop_first(), b.drop_first(), c.drop_first());
    }
}

pub(crate) proof fn lemma_lex_total(a: Seq<u8>, b: Seq<u8>)
    requires
        a != b,
    ensures
        lex_lt(a, b) || lex_lt(b, a),
    decreases a.len(),
{
    if a.len() == 0 {
        assert(b.len() > 0) by {
            if b.len() == 0 {
                assert(a =~= b);
            }
        }
    } else if b.len() > 0 && a[0] == b[0] {
        if a.drop_first() == b.drop_first() {
            assert(a =~= seq![a[0]] + a.drop_first());
            assert(b =~= seq![b[0]] + b.drop_first());
        }
        lemma_lex_total(a.drop_first(), b.drop_first());
    }
}

pub(crate) proof fn lemma_lex_asymmetric(a: Seq<u8>, b: Seq<u8>)
    requires
        lex_lt(a, b),
    ensures
        !lex_lt(b, a),
{
    if lex_lt(b, a) {
        lemma_lex_transitive(a, b, a);
        lemma_lex_irreflexive(a);
    }
}

pub(crate) proof fn lemma_prefix_before(a: Seq<u8>, b: Seq<u8>)
    requires
        starts(b, a),
        a != b,
    ensures
        lex_lt(a, b),
    decreases a.len(),
{
    if a.len() == 0 {
        assert(b.len() > 0) by {
            if b.len() == 0 {
                assert(a =~= b);
            }
        }
    } else {
        assert(b[0] == a[0]) by {
            assert(b.take(a.len() as int)[0] == a[0]);
        }
        lemma_starts_first(b, a);
        if a.drop_first() == b.drop_first() {
            assert(a =~= seq![a[0]] + a.drop_first());
            assert(b =~= seq![b[0]] + b.drop_first());
        }
        lemma_prefix_before(a.drop_first(), b.drop_first());
    }
}

/// When `a` comes before `b` without being a prefix of it, no string from `b` on is
/// related to `a`.
proof fn lemma_unrelated_after(a: Seq<u8>, b: Seq<u8>, x: Seq<u8>)
    requires
        lex_lt(a, b),
        !starts(b, a),
        !lex_lt(x, b),
    ensures
        !starts(x, a),
        !starts(a, x),
    decreases a.len(),
{
    if a.len() == 0 {
        assert(b.take(0) =~= a);
    } else {
        if x.len() == 0 {
            assert(lex_lt(x, b));
        }
        if a[0] == b[0] {
            lemma_starts_first(b, a);
            if x[0] == b[0] {
                lemma_starts_first(x, a);
                lemma_unrelated_after(a.drop_first(), b.drop_first(), x.drop_first());
                if starts(a, x) {
                    if x.len() == 1 {
                        assert(x.drop_first() =~= Seq::<u8>::empty());
                        assert(a.drop_first().take(0) =~= x.drop_first());
                    } else {
                        lemma_starts_first(a, x);
                    }
                }
            } else {
                if starts(x, a) {
                    assert(x.take(a.len() as int)[0] == a[0]);
                }
                if starts(a, x) {
                    assert(a.take(x.len() as int)[0] == x[0]);
                }
            }
        } else {
            if starts(x, a) {
                assert(x.take(a.len() as int)[0] == a[0]);
            }
            if starts(a, x) {
                assert(a.take(x.len() as int)[0] == x[0]);
            }
        }
    }
}

/// Two prefixes of one string are related.
proof fn lemma_prefixes_related(v: Seq<u8>, a: Seq<u8>, b: Seq<u8>)
    requires
        starts(v, a),
        starts(v, b),
    ensures
        related(a, b),
{
    if a.len() <= b.len() {
        assert(b.take(a.len() as int) =~= v.take(a.len() as int));
    } else {
        assert(a.take(b.len() as int) =~= v.take(b.len() as int));
    }
}

proof fn lemma_starts_transitive(v: Seq<u8>, x: Seq<u8>, y: Seq<u8>)
    requires
        starts(v, x),
        starts(x, y),
    ensures
        starts(v, y),
{
    assert(v.take(y.len() as int) =~= x.take(y.len() as int));
}

/// Whether `a` comes before `b`.
pub fn lex_less(a: &[u8], b: &[u8]) -> (r: bool)
    ensures
        r == lex_lt(a@, b@),
{
    let mut k: usize = 0;
    assert(a@.skip(0) =~= a@ && b@.skip(0) =~= b@);
    while k < a.len() && k < b.len() && a[k] == b[k]
        invariant
            k <= a@.len(),
            k <= b@.len(),
            lex_lt(a@, b@) == lex_lt(a@.skip(k as int), b@.skip(k as int)),
        decreases a@.len() - k,
    {
        assert(a@.skip(k as int).drop_first() =~= a@.skip(k + 1));
        assert(b@.skip(k as int).drop_first() =~= b@.skip(k + 1));
        k = k + 1;
    }
    if k == a.len() {
        k < b.len()
    } else if k == b.len() {
        false
    } else {
        a[k] < b[k]
    }
}

/// Whether `p` is a prefix of `v`.
pub fn bytes_start_with(v: &[u8], p: &[u8]) -> (r: bool)
    ensures
        r == starts(v@, p@),
{
    if p.len() > v.len() {
        return false;
    }
    let mut k: usize = 0;
    while k < p.len()
        invariant
            p@.len() <= v@.len(),
            k <= p@.len(),
            v@.take(k as int) == p@.take(k as int),
        decreases p@.len() - k,
    {
        if v[k] != p[k] {
            assert(v@.take(p@.len() as int)[k as int] != p@[k as int]);
            return false;
        }
        k = k + 1;
        assert(v@.take(k as int) =~= p@.take(k as int));
    }
    assert(p@.take(p@.len() as int) =~= p@);
    true
}

/// Whether two byte strings are equal.
fn bytes_equal(a: &[u8], b: &[u8]) -> (r: bool)
    ensures
        r == (a@ == b@),
{
    if a.len() != b.len() {
        return false;
    }
    let r = bytes_start_with(a, b);
    proof {
        assert(a@.take(b@.len() as int) =~= a@);
    }
    r
}

fn copy_bytes(a: &Vec<u8>) -> (r: Vec<u8>)
    ensures
        r@ == a@,
{
    let mut r: Vec<u8> = Vec::new();
    let mut k: usize = 0;
    while k < a.len()
        invariant
            k <= a@.len(),
            r@ == a@.take(k as int),
        decreases a@.len() - k,
    {
        r.push(a[k]);
        k = k + 1;
        assert(r@ =~= a@.take(k as int));
    }
    assert(a@.take(a@.len() as int) =~= a@);
    r
}

/// Inserts `x` into a set kept in increasing order; tells whether it was new.
fn insert_sorted(v: &mut Vec<Vec<u8>>, x: Vec<u8>) -> (r: bool)
    requires
        sorted_strings(strings_view(old(v)@)),
    ensures
        sorted_strings(strings_view(final(v)@)),
        strings_view(final(v)@).to_set() == strings_view(old(v)@).to_set().insert(x@),
        r == !strings_view(old(v)@).contains(x@),
        final(v)@.len() == old(v)@.len() + if r {
            1int
        } else {
            0int
        },
{
    let ghost s = strings_view(v@);
    let mut p: usize = 0;
    while p < v.len() && lex_less(v[p].as_slice(), x.as_slice())
        invariant
            p <= v@.len(),
            s == strings_view(v@),
            sorted_strings(s),
            forall|i: int| 0 <= i < p ==> lex_lt(#[trigger] s[i], x@),
        decreases v@.len() - p,
    {
        p = p + 1;
    }
    if p < v.len() && bytes_equal(v[p].as_slice(), x.as_slice()) {
        assert(s[p as int] == x@);
        assert(s.to_set() =~= s.to_set().insert(x@));
        return false;
    }
    proof {
        assert forall|i: int| 0 <= i < s.len() implies s[i] != x@ by {
            if i < p {
                lemma_lex_irreflexive(x@);
            } else {
                assert(!lex_lt(s[p as int], x@));
                if i > p {
                    assert(lex_lt(s[p as int], s[i]));
                    if s[i] == x@ {
                        lemma_lex_asymmetric(s[p as int], x@);
                    }
                } else {
                    assert(s[p as int] != x@);
                }
            }
        }
        if p < s.len() {
            lemma_lex_total(s[p as int], x@);
        }
    }
    let ghost xv = x@;
    v.insert(p, x);
    proof {
        let n = strings_view(v@);
        assert(n =~= s.insert(p as int, xv));
        assert forall|i: int, j: int| 0 <= i < j < n.len() implies lex_lt(
            #[trigger] n[i],
            #[trigger] n[j],
        ) by {
            if j < p {
                assert(n[i] == s[i] && n[j] == s[j]);
            } else if j == p {
                assert(n[i] == s[i]);
            } else if i < p {
                assert(n[i] == s[i] && n[j] == s[j - 1]);
                assert(lex_lt(xv, s[p as int]));
                if j - 1 > p {
                    assert(lex_lt(s[p as int], s[j - 1]));
                    lemma_lex_transitive(xv, s[p as int], s[j - 1]);
                }
                lemma_lex_transitive(s[i], xv, s[j - 1]);
            } else if i == p {
                assert(n[j] == s[j - 1]);
                assert(lex_lt(xv, s[p as int]));
                if j - 1 > p {
                    assert(lex_lt(s[p as int], s[j - 1]));
                    lemma_lex_transitive(xv, s[p as int], s[j - 1]);
                }
            } else {
                assert(n[i] == s[i - 1] && n[j] == s[j - 1]);
            }
        }
        assert(n.to_set() =~= s.to_set().insert(xv)) by {
            assert forall|y: Seq<u8>| n.to_set().contains(y) <==> s.to_set().insert(xv).contains(y) by {
                if n.to_set().contains(y) {
                    let k = choose|k: int| 0 <= k < n.len() && n[k] == y;
                    if k < p {
                        assert(s[k] == y);
                    } else if k > p {
                        assert(s[k - 1] == y);
                    }
                }
                if s.to_set().contains(y) {
                    let k = choose|k: int| 0 <= k < s.len() && s[k] == y;
                    if k < p {
                        assert(n[k] == y);
                    } else {
                        assert(n[k + 1] == y);
                    }
                }
                if y == xv {
                    assert(n[p as int] == y);
                }
            }
        }
    }
    true
}

/// A set of prefixes, in mathematical form; `None` stands for no limit.
pub open spec fn prefix_set(o: Option<Vec<Vec<u8>>>) -> Option<Set<Seq<u8>>> {
    match o {
        Some(v) => Some(strings_view(v@).to_set()),
        None => None,
    }
}

/// A set of prefixes kept in increasing order, if there is one.
pub open spec fn well_kept(o: Option<Vec<Vec<u8>>>) -> bool {
    match o {
        Some(v) => sorted_strings(strings_view(v@)),
        None => true,
    }
}

proof fn lemma_sorted_size(s: Seq<Seq<u8>>)
    requires
        sorted_strings(s),
    ensures
        s.to_set().len() == s.len(),
        s.to_set().finite(),
{
    assert forall|i: int, j: int| 0 <= i < s.len() && 0 <= j < s.len() && i != j implies s[i]
        != s[j] by {
        if i < j {
            assert(lex_lt(s[i], s[j]));
        } else {
            assert(lex_lt(s[j], s[i]));
        }
        lemma_lex_irreflexive(s[i]);
    }
    s.unique_seq_to_set();
    vstd::seq_lib::seq_to_set_is_finite(s);
}

/// The union of two prefix sets, with no limit when either has none. When the smaller
/// of the two is not empty and the union holds more than `max` prefixes, there is no
/// limit either.
pub open spec fn union_limited(
    l: Option<Set<Seq<u8>>>,
    r: Option<Set<Seq<u8>>>,
    max: nat,
) -> Option<Set<Seq<u8>>> {
    match (l, r) {
        (Some(a), Some(b)) => {
            let u = a.union(b);
            let smaller = if b.len() > a.len() {
                a
            } else {
                b
            };
            if smaller.len() > 0 && u.len() > max {
                None
            } else {
                Some(u)
            }
        },
        _ => None,
    }
}

fn union_prefixes_limited(
    lhs: &mut Option<Vec<Vec<u8>>>,
    rhs: Option<Vec<Vec<u8>>>,
    max_len: usize,
)
    requires
        well_kept(*old(lhs)),
        well_kept(rhs),
    ensures
        well_kept(*final(lhs)),
        prefix_set(*final(lhs)) == union_limited(prefix_set(*old(lhs)), prefix_set(rhs), max_len as nat),
{
    let l = match lhs.take() {
        None => {
            return;
        },
        Some(l) => l,
    };
    let r = match rhs {
        None => {
            return;
        },
        Some(r) => r,
    };
    proof {
        lemma_sorted_size(strings_view(l@));
        lemma_sorted_size(strings_view(r@));
    }
    let ghost a = strings_view(l@).to_set();
    let ghost b = strings_view(r@).to_set();
    proof {
        vstd::seq_lib::seq_to_set_is_finite(strings_view(l@));
        vstd::seq_lib::seq_to_set_is_finite(strings_view(r@));
    }
    let (mut big, small) = if r.len() > l.len() {
        (r, l)
    } else {
        (l, r)
    };
    let ghost start = strings_view(big@).to_set();
    let ghost sm = strings_view(small@);
    let ghost smaller = if b.len() > a.len() {
        a
    } else {
        b
    };
    assert(sm.to_set() == smaller && start.union(smaller) =~= a.union(b));
    let mut k: usize = 0;
    while k < small.len()
        invariant
            k <= small@.len(),
            sm == strings_view(small@),
            sorted_strings(sm),
            sm.to_set() == smaller,
            start.union(smaller) == a.union(b),
            start.finite(),
            *lhs == None::<Vec<Vec<u8>>>,
            prefix_set(*old(lhs)) == Some(a),
            prefix_set(rhs) == Some(b),
            smaller == (if b.len() > a.len() {
                a
            } else {
                b
            }),
            sorted_strings(strings_view(big@)),
            strings_view(big@).to_set() == start.union(sm.take(k as int).to_set()),
            k > 0 ==> big@.len() <= max_len,
        decreases small@.len() - k,
    {
        let x = copy_bytes(&small[k]);
        insert_sorted(&mut big, x);
        proof {
            assert(sm.take(k + 1) =~= sm.take(k as int).push(sm[k as int]));
            sm.take(k as int).lemma_push_to_set_commute(sm[k as int]);
        }
        if big.len() > max_len {
            proof {
                lemma_sorted_size(strings_view(big@));
                lemma_sorted_size(sm);
                vstd::seq_lib::seq_to_set_is_finite(sm);
                assert(strings_view(big@).to_set().subset_of(start.union(sm.to_set()))) by {
                    assert forall|y: Seq<u8>| strings_view(big@).to_set().contains(y) implies start.union(
                        sm.to_set(),
                    ).contains(y) by {
                        if sm.take(k + 1).to_set().contains(y) {
                            let tk = sm.take(k + 1);
                            let t = choose|t: int| 0 <= t < tk.len() && #[trigger] tk[t] == y;
                            assert(sm[t] == y);
                        }
                    }
                }
                vstd::set_lib::lemma_len_subset(
                    strings_view(big@).to_set(),
                    start.union(sm.to_set()),
                );
            }
            return;
        }
        k = k + 1;
    }
    proof {
        assert(sm.take(sm.len() as int) =~= sm);
        lemma_sorted_size(strings_view(big@));
        lemma_sorted_size(sm);
    }
    *lhs = Some(big);
}

/// The prefixes that intersecting two increasing prefix lists yields, from positions `i`
/// and `j` on. Walking both lists in order, a prefix of the current string of the other
/// list yields that longer string; a string that is smaller than the other without being
/// its prefix is passed over.
pub open spec fn merge_expansions(ls: Seq<Seq<u8>>, rs: Seq<Seq<u8>>, i: int, j: int) -> Seq<Seq<u8>>
    decreases ls.len() - i + rs.len() - j,
{
    if !(0 <= i < ls.len() && 0 <= j < rs.len()) {
        Seq::empty()
    } else {
        let l = ls[i];
        let r = rs[j];
        if !lex_lt(r, l) {
            if starts(r, l) {
                seq![r] + merge_expansions(ls, rs, i, j + 1)
            } else {
                merge_expansions(ls, rs, i + 1, j)
            }
        } else {
            if starts(l, r) {
                seq![l] + merge_expansions(ls, rs, i + 1, j)
            } else {
                merge_expansions(ls, rs, i, j + 1)
            }
        }
    }
}

/// Every prefix that the merge yields starts with a string of each list.
proof fn lemma_merge_outputs(ls: Seq<Seq<u8>>, rs: Seq<Seq<u8>>, i: int, j: int)
    ensures
        forall|k: int|
            #![trigger merge_expansions(ls, rs, i, j)[k]]
            0 <= k < merge_expansions(ls, rs, i, j).len() ==> exists|a: int, b: int|
                #![trigger ls[a], rs[b]]
                0 <= a < ls.len() && 0 <= b < rs.len() && starts(
                    merge_expansions(ls, rs, i, j)[k],
                    ls[a],
                ) && starts(merge_expansions(ls, rs, i, j)[k], rs[b]),
    decreases ls.len() - i + rs.len() - j,
{
    let m = merge_expansions(ls, rs, i, j);
    if 0 <= i < ls.len() && 0 <= j < rs.len() {
        let l = ls[i];
        let r = rs[j];
        if !lex_lt(r, l) {
            if starts(r, l) {
                lemma_merge_outputs(ls, rs, i, j + 1);
                let t = merge_expansions(ls, rs, i, j + 1);
                assert forall|k: int| #![trigger m[k]] 0 <= k < m.len() implies exists|a: int, b: int|
                    #![trigger ls[a], rs[b]]
                    0 <= a < ls.len() && 0 <= b < rs.len() && starts(m[k], ls[a]) && starts(
                        m[k],
                        rs[b],
                    ) by {
                    if k == 0 {
                        assert(r.take(r.len() as int) =~= r);
                        assert(starts(m[k], ls[i]) && starts(m[k], rs[j]));
                    } else {
                        assert(m[k] == t[k - 1]);
                    }
                }
            } else {
                lemma_merge_outputs(ls, rs, i + 1, j);
                assert(m == merge_expansions(ls, rs, i + 1, j));
            }
        } else {
            if starts(l, r) {
                lemma_merge_outputs(ls, rs, i + 1, j);
                let t = merge_expansions(ls, rs, i + 1, j);
                assert forall|k: int| #![trigger m[k]] 0 <= k < m.len() implies exists|a: int, b: int|
                    #![trigger ls[a], rs[b]]
                    0 <= a < ls.len() && 0 <= b < rs.len() && starts(m[k], ls[a]) && starts(
                        m[k],
                        rs[b],
                    ) by {
                    if k == 0 {
                        assert(l.take(l.len() as int) =~= l);
                        assert(starts(m[k], ls[i]) && starts(m[k], rs[j]));
                    } else {
                        assert(m[k] == t[k - 1]);
                    }
                }
            } else {
                lemma_merge_outputs(ls, rs, i, j + 1);
                assert(m == merge_expansions(ls, rs, i, j + 1));
            }
        }
    }
}

/// Every related pair of strings, one from each list from `i` and `j` on, has a prefix
/// of its longer string among what the merge yields.
proof fn lemma_merge_covers(ls: Seq<Seq<u8>>, rs: Seq<Seq<u8>>, i: int, j: int)
    requires
        sorted_strings(ls),
        sorted_strings(rs),
        0 <= i,
        0 <= j,
    ensures
        forall|a: int, b: int|
            i <= a < ls.len() && j <= b < rs.len() && related(#[trigger] ls[a], #[trigger] rs[b])
                ==> exists|k: int|
                0 <= k < merge_expansions(ls, rs, i, j).len() && starts(
                    longer(ls[a], rs[b]),
                    #[trigger] merge_expansions(ls, rs, i, j)[k],
                ),
    decreases ls.len() - i + rs.len() - j,
{
    let m = merge_expansions(ls, rs, i, j);
    if 0 <= i < ls.len() && 0 <= j < rs.len() {
        let l = ls[i];
        let r = rs[j];
        if !lex_lt(r, l) {
            if starts(r, l) {
                lemma_merge_covers(ls, rs, i, j + 1);
                let t = merge_expansions(ls, rs, i, j + 1);
                assert forall|a: int, b: int|
                    i <= a < ls.len() && j <= b < rs.len() && related(
                        #[trigger] ls[a],
                        #[trigger] rs[b],
                    ) implies exists|k: int|
                    0 <= k < m.len() && starts(longer(ls[a], rs[b]), #[trigger] m[k]) by {
                    if b == j {
                        assert(r.take(r.len() as int) =~= r);
                        assert(starts(longer(ls[a], rs[b]), m[0]));
                    } else {
                        let k = choose|k: int|
                            0 <= k < t.len() && starts(longer(ls[a], rs[b]), #[trigger] t[k]);
                        assert(m[k + 1] == t[k]);
                    }
                }
            } else {
                lemma_merge_covers(ls, rs, i + 1, j);
                if l == r {
                    assert(r.take(r.len() as int) =~= r);
                }
                lemma_lex_total(l, r);
                assert forall|a: int, b: int|
                    i <= a < ls.len() && j <= b < rs.len() && related(
                        #[trigger] ls[a],
                        #[trigger] rs[b],
                    ) implies exists|k: int|
                    0 <= k < m.len() && starts(longer(ls[a], rs[b]), #[trigger] m[k]) by {
                    if a == i {
                        if b > j {
                            assert(lex_lt(r, rs[b]));
                            lemma_lex_asymmetric(r, rs[b]);
                        } else {
                            lemma_lex_irreflexive(r);
                        }
                        lemma_unrelated_after(l, r, rs[b]);
                    }
                }
            }
        } else {
            if starts(l, r) {
                lemma_merge_covers(ls, rs, i + 1, j);
                let t = merge_expansions(ls, rs, i + 1, j);
                assert forall|a: int, b: int|
                    i <= a < ls.len() && j <= b < rs.len() && related(
                        #[trigger] ls[a],
                        #[trigger] rs[b],
                    ) implies exists|k: int|
                    0 <= k < m.len() && starts(longer(ls[a], rs[b]), #[trigger] m[k]) by {
                    if a == i {
                        assert(l.take(l.len() as int) =~= l);
                        assert(starts(longer(ls[a], rs[b]), m[0]));
                    } else {
                        let k = choose|k: int|
                            0 <= k < t.len() && starts(longer(ls[a], rs[b]), #[trigger] t[k]);
                        assert(m[k + 1] == t[k]);
                    }
                }
            } else {
                lemma_merge_covers(ls, rs, i, j + 1);
                assert forall|a: int, b: int|
                    i <= a < ls.len() && j <= b < rs.len() && related(
                        #[trigger] ls[a],
                        #[trigger] rs[b],
                    ) implies exists|k: int|
                    0 <= k < m.len() && starts(longer(ls[a], rs[b]), #[trigger] m[k]) by {
                    if b == j {
                        if a > i {
                            assert(lex_lt(l, ls[a]));
                            lemma_lex_asymmetric(l, ls[a]);
                        } else {
                            lemma_lex_irreflexive(l);
                        }
                        lemma_unrelated_after(r, l, ls[a]);
                    }
                }
            }
        }
    }
}

/// A string starts with a prefix that intersecting two prefix lists yields exactly when
/// it starts with a string of each list.
pub proof fn law_intersection_keeps_common_starts(ls: Seq<Seq<u8>>, rs: Seq<Seq<u8>>, v: Seq<u8>)
    requires
        sorted_strings(ls),
        sorted_strings(rs),
    ensures
        (exists|x: Seq<u8>| #[trigger] merge_expansions(ls, rs, 0, 0).contains(x) && starts(v, x))
            <==> ((exists|l: Seq<u8>| #[trigger] ls.contains(l) && starts(v, l)) && (exists|
            r: Seq<u8>,
        | #[trigger] rs.contains(r) && starts(v, r))),
{
    let m = merge_expansions(ls, rs, 0, 0);
    lemma_merge_outputs(ls, rs, 0, 0);
    lemma_merge_covers(ls, rs, 0, 0);
    if exists|x: Seq<u8>| #[trigger] m.contains(x) && starts(v, x) {
        let x = choose|x: Seq<u8>| #[trigger] m.contains(x) && starts(v, x);
        let k = choose|k: int| 0 <= k < m.len() && m[k] == x;
        let (a, b) = choose|a: int, b: int|
            #![trigger ls[a], rs[b]]
            0 <= a < ls.len() && 0 <= b < rs.len() && starts(m[k], ls[a]) && starts(m[k], rs[b]);
        lemma_starts_transitive(v, x, ls[a]);
        lemma_starts_transitive(v, x, rs[b]);
        assert(ls.contains(ls[a]));
        assert(rs.contains(rs[b]));
    }
    if (exists|l: Seq<u8>| #[trigger] ls.contains(l) && starts(v, l)) && (exists|r: Seq<u8>|
        #[trigger] rs.contains(r) && starts(v, r)) {
        let l = choose|l: Seq<u8>| #[trigger] ls.contains(l) && starts(v, l);
        let r = choose|r: Seq<u8>| #[trigger] rs.contains(r) && starts(v, r);
        let a = choose|a: int| 0 <= a < ls.len() && ls[a] == l;
        let b = choose|b: int| 0 <= b < rs.len() && rs[b] == r;
        lemma_prefixes_related(v, l, r);
        assert(related(ls[a], rs[b]));
        let k = choose|k: int| 0 <= k < m.len() && starts(longer(ls[a], rs[b]), #[trigger] m[k]);
        lemma_starts_transitive(v, longer(l, r), m[k]);
        assert(m.contains(m[k]));
    }
}

/// Every prefix that the merge yields, from positions `i` and `j` on, is a string of one of
/// the two lists.
proof fn lemma_merge_from_lists(ls: Seq<Seq<u8>>, rs: Seq<Seq<u8>>, i: int, j: int)
    ensures
        forall|k: int|
            0 <= k < merge_expansions(ls, rs, i, j).len() ==> ls.contains(
                #[trigger] merge_expansions(ls, rs, i, j)[k],
            ) || rs.contains(merge_expansions(ls, rs, i, j)[k]),
    decreases ls.len() - i + rs.len() - j,
{
    let m = merge_expansions(ls, rs, i, j);
    if 0 <= i < ls.len() && 0 <= j < rs.len() {
        let l = ls[i];
        let r = rs[j];
        if !lex_lt(r, l) {
            if starts(r, l) {
                lemma_merge_from_lists(ls, rs, i, j + 1);
                let t = merge_expansions(ls, rs, i, j + 1);
                assert forall|k: int| 0 <= k < m.len() implies (ls.contains(#[trigger] m[k])
                    || rs.contains(m[k])) by {
                    if k == 0 {
                        assert(rs.contains(rs[j]));
                    } else {
                        assert(m[k] == t[k - 1]);
                    }
                }
            } else {
                lemma_merge_from_lists(ls, rs, i + 1, j);
                assert(m == merge_expansions(ls, rs, i + 1, j));
            }
        } else {
            if starts(l, r) {
                lemma_merge_from_lists(ls, rs, i + 1, j);
                let t = merge_expansions(ls, rs, i + 1, j);
                assert forall|k: int| 0 <= k < m.len() implies (ls.contains(#[trigger] m[k])
                    || rs.contains(m[k])) by {
                    if k == 0 {
                        assert(ls.contains(ls[i]));
                    } else {
                        assert(m[k] == t[k - 1]);
                    }
                }
            } else {
                lemma_merge_from_lists(ls, rs, i, j + 1);
                assert(m == merge_expansions(ls, rs, i, j + 1));
            }
        }
    }
}

/// Each prefix that intersecting two prefix lists yields is a string of one of the lists,
/// and starts with a string of each list.
pub proof fn law_intersection_yields_common_extensions(ls: Seq<Seq<u8>>, rs: Seq<Seq<u8>>, x: Seq<u8>)
    requires
        merge_expansions(ls, rs, 0, 0).contains(x),
    ensures
        ls.contains(x) || rs.contains(x),
        exists|l: Seq<u8>| #[trigger] ls.contains(l) && starts(x, l),
        exists|r: Seq<u8>| #[trigger] rs.contains(r) && starts(x, r),
{
    let m = merge_expansions(ls, rs, 0, 0);
    lemma_merge_outputs(ls, rs, 0, 0);
    lemma_merge_from_lists(ls, rs, 0, 0);
    let k = choose|k: int| 0 <= k < m.len() && m[k] == x;
    assert(ls.contains(m[k]) || rs.contains(m[k]));
    let (a, b) = choose|a: int, b: int|
        #![trigger ls[a], rs[b]]
        0 <= a < ls.len() && 0 <= b < rs.len() && starts(m[k], ls[a]) && starts(m[k], rs[b]);
    assert(ls.contains(ls[a]));
    assert(rs.contains(rs[b]));
}

/// Joining two prefix sets: no limit when either sets none; otherwise their union, except
/// that there is no limit when both are non-empty and the union holds more than `max`.
pub proof fn law_union_limited_cases(a: Option<Set<Seq<u8>>>, b: Option<Set<Seq<u8>>>, max: nat)
    ensures
        a is None || b is None ==> union_limited(a, b, max) is None,
        a is Some && b is Some ==> union_limited(a, b, max) == (if a->Some_0.len() > 0
            && b->Some_0.len() > 0 && a->Some_0.union(b->Some_0).len() > max {
            None
        } else {
            Some(a->Some_0.union(b->Some_0))
        }),
{
}

/// Adds to `dst` the prefixes that intersecting two increasing prefix lists yields.
fn intersect_prefix_expansions_into(dst: &mut Vec<Vec<u8>>, lhs: &Vec<Vec<u8>>, rhs: &Vec<Vec<u8>>)
    requires
        sorted_strings(strings_view(old(dst)@)),
    ensures
        sorted_strings(strings_view(final(dst)@)),
        strings_view(final(dst)@).to_set() == strings_view(old(dst)@).to_set().union(
            merge_expansions(strings_view(lhs@), strings_view(rhs@), 0, 0).to_set(),
        ),
{
    let ghost ls = strings_view(lhs@);
    let ghost rs = strings_view(rhs@);
    let ghost start = strings_view(dst@).to_set();
    let ghost mut produced: Seq<Seq<u8>> = Seq::empty();
    let mut i: usize = 0;
    let mut j: usize = 0;
    while i < lhs.len() && j < rhs.len()
        invariant
            ls == strings_view(lhs@),
            rs == strings_view(rhs@),
            i <= ls.len(),
            j <= rs.len(),
            produced + merge_expansions(ls, rs, i as int, j as int) == merge_expansions(ls, rs, 0, 0),
            sorted_strings(strings_view(dst@)),
            strings_view(dst@).to_set() == start.union(produced.to_set()),
        decreases ls.len() - i + rs.len() - j,
    {
        let l = &lhs[i];
        let r = &rhs[j];
        if !lex_less(r.as_slice(), l.as_slice()) {
            if bytes_start_with(r.as_slice(), l.as_slice()) {
                let x = copy_bytes(r);
                insert_sorted(dst, x);
                proof {
                    assert(produced.push(rs[j as int]) + merge_expansions(ls, rs, i as int, j + 1)
                        =~= produced + merge_expansions(ls, rs, i as int, j as int));
                    produced.lemma_push_to_set_commute(rs[j as int]);
                    produced = produced.push(rs[j as int]);
                }
                j = j + 1;
            } else {
                i = i + 1;
            }
        } else {
            if bytes_start_with(l.as_slice(), r.as_slice()) {
                let x = copy_bytes(l);
                insert_sorted(dst, x);
                proof {
                    assert(produced.push(ls[i as int]) + merge_expansions(ls, rs, i + 1, j as int)
                        =~= produced + merge_expansions(ls, rs, i as int, j as int));
                    produced.lemma_push_to_set_commute(ls[i as int]);
                    produced = produced.push(ls[i as int]);
                }
                i = i + 1;
            } else {
                j = j + 1;
            }
        }
    }
    assert(produced + merge_expansions(ls, rs, i as int, j as int) =~= produced);
}

/// A prefix list, in mathematical form.
pub open spec fn prefix_list(o: Option<Vec<Vec<u8>>>) -> Option<Seq<Seq<u8>>> {
    match o {
        Some(v) => Some(strings_view(v@)),
        None => None,
    }
}

/// The prefixes that both of two constraints allow: either one when the other sets no
/// limit, else what merging the two lists yields.
pub open spec fn intersection(l: Option<Seq<Seq<u8>>>, r: Option<Seq<Seq<u8>>>) -> Option<
    Set<Seq<u8>>,
> {
    match (l, r) {
        (None, None) => None,
        (None, Some(b)) => Some(b.to_set()),
        (Some(a), None) => Some(a.to_set()),
        (Some(a), Some(b)) => Some(merge_expansions(a, b, 0, 0).to_set()),
    }
}

fn intersect_prefix_expansions(lhs: &mut Option<Vec<Vec<u8>>>, rhs: Option<Vec<Vec<u8>>>)
    requires
        well_kept(*old(lhs)),
        well_kept(rhs),
    ensures
        well_kept(*final(lhs)),
        prefix_set(*final(lhs)) == intersection(prefix_list(*old(lhs)), prefix_list(rhs)),
{
    let l = match lhs.take() {
        None => {
            *lhs = rhs;
            return;
        },
        Some(l) => l,
    };
    let r = match rhs {
        None => {
            *lhs = Some(l);
            return;
        },
        Some(r) => r,
    };
    let mut result: Vec<Vec<u8>> = Vec::new();
    assert(strings_view(result@) =~= Seq::<Seq<u8>>::empty());
    assert(strings_view(result@).to_set() =~= Set::<Seq<u8>>::empty());
    intersect_prefix_expansions_into(&mut result, &l, &r);
    assert(Set::<Seq<u8>>::empty().union(
        merge_expansions(strings_view(l@), strings_view(r@), 0, 0).to_set(),
    ) =~= merge_expansions(strings_view(l@), strings_view(r@), 0, 0).to_set());
    *lhs = Some(result);
}

/// Whether `regex_syntax` finds that a pattern can only match at the start of the text
/// (a pattern it cannot read counts as one that never matches).
pub uninterp spec fn regex_anchored_at_start(pattern: Seq<char>) -> bool;

/// The literals that `regex_syntax`'s literal extractor finds that every match of a
/// pattern begins with; `None` when it finds no finite set of them.
pub uninterp spec fn regex_leading_literals(pattern: Seq<char>) -> Option<Seq<Seq<u8>>>;

/// What `regex_syntax`'s `optimize_for_prefix_by_preference` makes of a set of prefixes,
/// given in increasing order; `None` when the result is infinite.
pub uninterp spec fn optimized_prefixes(prefixes: Seq<Seq<u8>>) -> Option<Seq<Seq<u8>>>;

/// The mathematical form of an optional list of byte strings.
pub open spec fn opt_strings_view(o: Option<Vec<Vec<u8>>>) -> Option<Seq<Seq<u8>>> {
    match o {
        Some(v) => Some(strings_view(v@)),
        None => None,
    }
}

/// Reads a pattern with `regex_syntax::parse` (a failure reads as `Hir::fail()`) and
/// asks its properties whether every match must start at the start of the text.
#[verifier::external_body]
fn regex_is_anchored(pattern: &str) -> (r: bool)
    ensures
        r == regex_anchored_at_start(pattern@),
{
    let hir = match regex_syntax::parse(pattern) {
        Ok(h) => h,
        Err(_) => regex_syntax::hir::Hir::fail(),
    };
    hir.properties().look_set_prefix().contains_anchor_haystack()
}

/// Reads a pattern with `regex_syntax::parse` (a failure reads as `Hir::fail()`) and
/// runs `regex_syntax::hir::literal::Extractor` on it, giving the literals' bytes.
#[verifier::external_body]
fn regex_literals(pattern: &str) -> (r: Option<Vec<Vec<u8>>>)
    ensures
        opt_strings_view(r) == regex_leading_literals(pattern@),
{
    let hir = match regex_syntax::parse(pattern) {
        Ok(h) => h,
        Err(_) => regex_syntax::hir::Hir::fail(),
    };
    let seq = regex_syntax::hir::literal::Extractor::new().extract(&hir);
    let lits = seq.literals()?;
    let mut out = Vec::new();
    for lit in lits {
        out.push(lit.as_bytes().to_vec());
    }
    Some(out)
}

/// Builds a `regex_syntax::hir::literal::Seq` of the prefixes, runs
/// `optimize_for_prefix_by_preference` on it, and gives back its literals' bytes.
#[verifier::external_body]
fn optimize_prefixes(prefixes: Vec<Vec<u8>>) -> (r: Option<Vec<Vec<u8>>>)
    ensures
        opt_strings_view(r) == optimized_prefixes(strings_view(prefixes@)),
{
    let mut seq = regex_syntax::hir::literal::Seq::new(prefixes);
    seq.optimize_for_prefix_by_preference();
    let lits = seq.literals()?;
    let mut out = Vec::new();
    for lit in lits {
        out.push(lit.as_bytes().to_vec());
    }
    Some(out)
}

fn collect_sorted(v: Vec<Vec<u8>>) -> (r: Vec<Vec<u8>>)
    ensures
        sorted_strings(strings_view(r@)),
        strings_view(r@).to_set() == strings_view(v@).to_set(),
{
    let mut out: Vec<Vec<u8>> = Vec::new();
    let ghost sv = strings_view(v@);
    assert(strings_view(out@) =~= Seq::<Seq<u8>>::empty());
    assert(sv.take(0) =~= Seq::<Seq<u8>>::empty());
    let mut k: usize = 0;
    while k < v.len()
        invariant
            k <= v@.len(),
            sv == strings_view(v@),
            sorted_strings(strings_view(out@)),
            strings_view(out@).to_set() == sv.take(k as int).to_set(),
        decreases v@.len() - k,
    {
        let x = copy_bytes(&v[k]);
        insert_sorted(&mut out, x);
        proof {
            assert(sv.take(k + 1) =~= sv.take(k as int).push(sv[k as int]));
            sv.take(k as int).lemma_push_to_set_commute(sv[k as int]);
        }
        k = k + 1;
    }
    assert(sv.take(sv.len() as int) =~= sv);
    out
}

/// The prefixes that every match of a pattern starts with: none unless the pattern is
/// anchored at the start of the text, else the literals that the extractor finds.
pub open spec fn regex_prefix_set(pattern: Seq<char>) -> Option<Set<Seq<u8>>> {
    if !regex_anchored_at_start(pattern) {
        None
    } else {
        match regex_leading_literals(pattern) {
            Some(l) => Some(l.to_set()),
            None => None,
        }
    }
}

fn extract_prefixes(pattern: &str) -> (r: Option<Vec<Vec<u8>>>)
    ensures
        well_kept(r),
        prefix_set(r) == regex_prefix_set(pattern@),
{
    if !regex_is_anchored(pattern) {
        return None;
    }
    match regex_literals(pattern) {
        None => None,
        Some(l) => Some(collect_sorted(l)),
    }
}

/// The prefixes of one nesting level: those of the alternatives closed so far, and those
/// required by the alternative being read.
#[derive(Debug)]
struct Frame {
    and_literal_prefixes: Option<Vec<Vec<u8>>>,
    or_literal_prefixes: Option<Vec<Vec<u8>>>,
}

/// The mathematical form of a nesting level.
pub struct FrameV {
    pub and_prefixes: Option<Seq<Seq<u8>>>,
    pub or_prefixes: Option<Seq<Seq<u8>>>,
}

spec fn frame_view(f: Frame) -> FrameV {
    FrameV {
        and_prefixes: opt_strings_view(f.and_literal_prefixes),
        or_prefixes: opt_strings_view(f.or_literal_prefixes),
    }
}

spec fn frame_ok(f: Frame) -> bool {
    well_kept(f.and_literal_prefixes) && well_kept(f.or_literal_prefixes)
}

/// A fresh nesting level: nothing required yet, and no alternative closed.
pub open spec fn fresh_frame() -> FrameV {
    FrameV { and_prefixes: None, or_prefixes: Some(Seq::empty()) }
}

/// A prefix list, if there is one, in increasing order.
pub open spec fn sorted_opt(o: Option<Seq<Seq<u8>>>) -> bool {
    match o {
        Some(q) => sorted_strings(q),
        None => true,
    }
}

/// The nesting levels after the innermost one is required to meet `req`: its alternative
/// being read keeps, in increasing order, the prefixes both allow.
pub open spec fn after_requiring(fs: Seq<FrameV>, req: Option<Seq<Seq<u8>>>) -> Seq<FrameV> {
    let n = fs.len();
    fs.update(
        n - 1,
        FrameV {
            and_prefixes: match intersection(fs[n - 1].and_prefixes, req) {
                Some(ps) => Some(sorted_list(ps)),
                None => None,
            },
            or_prefixes: fs[n - 1].or_prefixes,
        },
    )
}

/// A fresh nesting level sets no limit: finishing right after a finish gives `None`.
pub proof fn law_fresh_level_sets_no_limit()
    ensures
        frame_result(fresh_frame()) is None,
{
}

/// The set of a prefix list, if there is one.
pub open spec fn list_set(o: Option<Seq<Seq<u8>>>) -> Option<Set<Seq<u8>>> {
    match o {
        Some(v) => Some(v.to_set()),
        None => None,
    }
}

/// The prefixes of a finished nesting level: those of the closed alternatives and of the
/// current one, at most a hundred of them.
pub open spec fn frame_result(f: FrameV) -> Option<Set<Seq<u8>>> {
    union_limited(list_set(f.or_prefixes), list_set(f.and_prefixes), 100)
}

impl Frame {
    fn new() -> (f: Frame)
        ensures
            frame_view(f) == fresh_frame(),
            frame_ok(f),
    {
        let empty: Vec<Vec<u8>> = Vec::new();
        assert(strings_view(empty@) =~= Seq::<Seq<u8>>::empty());
        Frame { and_literal_prefixes: None, or_literal_prefixes: Some(empty) }
    }

    fn finish(self) -> (r: Option<Vec<Vec<u8>>>)
        requires
            frame_ok(self),
        ensures
            well_kept(r),
            prefix_set(r) == frame_result(frame_view(self)),
    {
        let Frame { mut or_literal_prefixes, and_literal_prefixes } = self;
        union_prefixes_limited(&mut or_literal_prefixes, and_literal_prefixes, 100);
        or_literal_prefixes
    }
}

/// Reads what a matcher requires of the start of a field's value: the visitor gathers
/// prefixes, one of which every matching value must start with, through nesting levels
/// whose alternatives are joined by `or` and whose parts are joined by `and`.
#[derive(Debug)]
pub struct MatcherVisitor {
    frames: Vec<Frame>,
}

impl MatcherVisitor {
    /// The visitor is ready: it has at least one nesting level, and its prefixes are kept
    /// in order.
    pub closed spec fn wf(&self) -> bool {
        &&& self.frames@.len() >= 1
        &&& forall|i: int| 0 <= i < self.frames@.len() ==> frame_ok(#[trigger] self.frames@[i])
    }

    /// The nesting levels, outermost first.
    pub closed spec fn spec_frames(&self) -> Seq<FrameV> {
        self.frames@.map_values(|f: Frame| frame_view(f))
    }

    /// A ready visitor has a nesting level, and keeps each of its prefix lists in
    /// increasing order.
    pub proof fn lemma_lists_sorted(&self)
        requires
            self.wf(),
        ensures
            self.spec_frames().len() >= 1,
            forall|i: int|
                0 <= i < self.spec_frames().len() ==> sorted_opt(
                    #[trigger] self.spec_frames()[i].and_prefixes,
                ) && sorted_opt(self.spec_frames()[i].or_prefixes),
    {
        assert forall|i: int| 0 <= i < self.spec_frames().len() implies sorted_opt(
            #[trigger] self.spec_frames()[i].and_prefixes,
        ) && sorted_opt(self.spec_frames()[i].or_prefixes) by {
            assert(frame_ok(self.frames@[i]));
        }
    }

    /// A visitor with one fresh nesting level.
    pub fn new() -> (v: MatcherVisitor)
        ensures
            v.wf(),
            v.spec_frames() == seq![fresh_frame()],
    {
        let mut frames = Vec::new();
        frames.push(Frame::new());
        let v = MatcherVisitor { frames };
        assert(v.spec_frames() =~= seq![fresh_frame()]);
        v
    }

    fn current_frame(&mut self) -> (r: &mut Frame)
        requires
            old(self).frames@.len() >= 1,
        ensures
            *r == old(self).frames@.last(),
            final(self).frames@ == old(self).frames@.update(
                old(self).frames@.len() - 1,
                *final(r),
            ),
    {
        let n: usize = self.frames.len();
        &mut self.frames[n - 1]
    }

    /// Finishes the only nesting level: its prefixes, as `regex_syntax` optimizes them
    /// for a prefilter; `None` when there is no limit. The visitor starts afresh.
    pub fn finish(&mut self) -> (r: Option<Vec<Vec<u8>>>)
        requires
            old(self).wf(),
            old(self).spec_frames().len() == 1,
        ensures
            final(self).wf(),
            final(self).spec_frames() == seq![fresh_frame()],
            opt_strings_view(r) == match frame_result(old(self).spec_frames()[0]) {
                None => None,
                Some(s) => optimized_prefixes(sorted_list(s)),
            },
    {
        let frame = self.frames.pop().unwrap();
        self.frames.push(Frame::new());
        assert(self.spec_frames() =~= seq![fresh_frame()]);
        match frame.finish() {
            None => None,
            Some(set) => {
                proof {
                    lemma_sorted_list(strings_view(set@));
                }
                optimize_prefixes(set)
            },
        }
    }

    /// Finishes the only nesting level: its prefixes as gathered, in increasing order,
    /// without the prefilter optimization of [`MatcherVisitor::finish`]; `None` when there
    /// is no limit. The visitor starts afresh.
    pub fn finish_gathered(&mut self) -> (r: Option<Vec<Vec<u8>>>)
        requires
            old(self).wf(),
            old(self).spec_frames().len() == 1,
        ensures
            final(self).wf(),
            final(self).spec_frames() == seq![fresh_frame()],
            well_kept(r),
            prefix_set(r) == frame_result(old(self).spec_frames()[0]),
    {
        let frame = self.frames.pop().unwrap();
        self.frames.push(Frame::new());
        assert(self.spec_frames() =~= seq![fresh_frame()]);
        frame.finish()
    }

    /// Opens a nesting level.
    pub fn visit_nested_start(&mut self)
        requires
            old(self).wf(),
        ensures
            final(self).wf(),
            final(self).spec_frames() == old(self).spec_frames().push(fresh_frame()),
    {
        self.frames.push(Frame::new());
        assert(self.spec_frames() =~= old(self).spec_frames().push(fresh_frame()));
    }

    /// Closes a nesting level: what it allows must also hold of the level around it.
    pub fn visit_nested_finish(&mut self)
        requires
            old(self).wf(),
            old(self).spec_frames().len() >= 2,
        ensures
            final(self).wf(),
            ({
                let fs = old(self).spec_frames();
                let n = fs.len();
                let outer = fs[n - 2];
                final(self).spec_frames().len() == n - 1
                    && final(self).spec_frames().take(n - 2) == fs.take(n - 2)
                    && final(self).spec_frames()[n - 2].or_prefixes == outer.or_prefixes
                    && list_set(final(self).spec_frames()[n - 2].and_prefixes) == intersection(
                    outer.and_prefixes,
                    match frame_result(fs[n - 1]) {
                        Some(s) => Some(sorted_list(s)),
                        None => None,
                    },
                )
            }),
    {
        let ghost fs = self.spec_frames();
        let frame = self.frames.pop().unwrap();
        let new_inner = frame.finish();
        proof {
            if new_inner is Some {
                lemma_sorted_list(strings_view(new_inner->0@));
            }
        }
        let current = self.current_frame();
        intersect_prefix_expansions(&mut current.and_literal_prefixes, new_inner);
        proof {
            assert(self.spec_frames().take(fs.len() - 2) =~= fs.take(fs.len() - 2));
        }
    }

    /// Closes the alternative being read: its prefixes join those of the closed ones.
    pub fn visit_or_in(&mut self)
        requires
            old(self).wf(),
        ensures
            final(self).wf(),
            ({
                let fs = old(self).spec_frames();
                let n = fs.len();
                final(self).spec_frames().len() == n && final(self).spec_frames().take(n - 1)
                    == fs.take(n - 1) && final(self).spec_frames()[n - 1].and_prefixes is None
                    && list_set(final(self).spec_frames()[n - 1].or_prefixes) == union_limited(
                    list_set(fs[n - 1].or_prefixes),
                    list_set(fs[n - 1].and_prefixes),
                    100,
                )
            }),
    {
        let ghost fs = self.spec_frames();
        let frame = self.current_frame();
        let new_and = frame.and_literal_prefixes.take();
        union_prefixes_limited(&mut frame.or_literal_prefixes, new_and, 100);
        proof {
            assert(self.spec_frames().take(fs.len() - 1) =~= fs.take(fs.len() - 1));
        }
    }

    fn require_prefixes(&mut self, new_prefixes: Option<Vec<Vec<u8>>>)
        requires
            old(self).wf(),
            well_kept(new_prefixes),
        ensures
            final(self).wf(),
            ({
                let fs = old(self).spec_frames();
                let n = fs.len();
                final(self).spec_frames().len() == n && final(self).spec_frames().take(n - 1)
                    == fs.take(n - 1) && final(self).spec_frames()[n - 1].or_prefixes
                    == fs[n - 1].or_prefixes && list_set(
                    final(self).spec_frames()[n - 1].and_prefixes,
                ) == intersection(fs[n - 1].and_prefixes, opt_strings_view(new_prefixes))
            }),
            final(self).spec_frames() == after_requiring(
                old(self).spec_frames(),
                opt_strings_view(new_prefixes),
            ),
    {
        let ghost fs = self.spec_frames();
        proof {
            self.lemma_lists_sorted();
        }
        let current = self.current_frame();
        intersect_prefix_expansions(&mut current.and_literal_prefixes, new_prefixes);
        proof {
            let gs = self.spec_frames();
            let n = fs.len() as int;
            assert(gs.take(n - 1) =~= fs.take(n - 1));
            self.lemma_lists_sorted();
            let want = after_requiring(fs, opt_strings_view(new_prefixes));
            if let Some(l) = gs[n - 1].and_prefixes {
                lemma_sorted_list(l);
            }
            assert(gs[n - 1] == want[n - 1]);
            assert forall|i: int| 0 <= i < n - 1 implies gs[i] == want[i] by {
                assert(gs.take(n - 1)[i] == fs.take(n - 1)[i]);
            }
            assert(gs =~= want);
        }
    }

    /// The value must match a regular expression: when the pattern is anchored at the
    /// start, it must start with one of the literals every match starts with.
    pub fn visit_match_regex(&mut self, regex: &str)
        requires
            old(self).wf(),
        ensures
            final(self).wf(),
            ({
                let fs = old(self).spec_frames();
                let n = fs.len();
                final(self).spec_frames().len() == n && final(self).spec_frames().take(n - 1)
                    == fs.take(n - 1) && final(self).spec_frames()[n - 1].or_prefixes
                    == fs[n - 1].or_prefixes && list_set(
                    final(self).spec_frames()[n - 1].and_prefixes,
                ) == intersection(
                    fs[n - 1].and_prefixes,
                    match regex_prefix_set(regex@) {
                        Some(s) => Some(sorted_list(s)),
                        None => None,
                    },
                )
            }),
            final(self).spec_frames() == after_requiring(
                old(self).spec_frames(),
                match regex_prefix_set(regex@) {
                    Some(s) => Some(sorted_list(s)),
                    None => None,
                },
            ),
    {
        let new_prefixes = extract_prefixes(regex);
        proof {
            if new_prefixes is Some {
                lemma_sorted_list(strings_view(new_prefixes->0@));
            }
        }
        self.require_prefixes(new_prefixes);
    }

    /// The value must equal a text; for prefixes, that is the same as starting with it.
    pub fn visit_match_equals(&mut self, equals: &str)
        requires
            old(self).wf(),
        ensures
            final(self).wf(),
            ({
                let fs = old(self).spec_frames();
                let n = fs.len();
                final(self).spec_frames().len() == n && final(self).spec_frames().take(n - 1)
                    == fs.take(n - 1) && final(self).spec_frames()[n - 1].or_prefixes
                    == fs[n - 1].or_prefixes && list_set(
                    final(self).spec_frames()[n - 1].and_prefixes,
                ) == intersection(fs[n - 1].and_prefixes, Some(seq![equals.spec_bytes()]))
            }),
            final(self).spec_frames() == after_requiring(
                old(self).spec_frames(),
                Some(seq![equals.spec_bytes()]),
            ),
    {
        self.visit_match_starts_with(equals);
    }

    /// The value must start with a text.
    pub fn visit_match_starts_with(&mut self, prefix: &str)
        requires
            old(self).wf(),
        ensures
            final(self).wf(),
            ({
                let fs = old(self).spec_frames();
                let n = fs.len();
                final(self).spec_frames().len() == n && final(self).spec_frames().take(n - 1)
                    == fs.take(n - 1) && final(self).spec_frames()[n - 1].or_prefixes
                    == fs[n - 1].or_prefixes && list_set(
                    final(self).spec_frames()[n - 1].and_prefixes,
                ) == intersection(fs[n - 1].and_prefixes, Some(seq![prefix.spec_bytes()]))
            }),
            final(self).spec_frames() == after_requiring(
                old(self).spec_frames(),
                Some(seq![prefix.spec_bytes()]),
            ),
    {
        let bytes = prefix.as_bytes();
        let mut one: Vec<u8> = Vec::new();
        let mut k: usize = 0;
        while k < bytes.len()
            invariant
                k <= bytes@.len(),
                one@ == bytes@.take(k as int),
            decreases bytes@.len() - k,
        {
            one.push(bytes[k]);
            k = k + 1;
            assert(one@ =~= bytes@.take(k as int));
        }
        assert(bytes@.take(bytes@.len() as int) =~= bytes@);
        let mut set: Vec<Vec<u8>> = Vec::new();
        set.push(one);
        assert(strings_view(set@) =~= seq![prefix.spec_bytes()]);
        self.require_prefixes(Some(set));
    }
}

/// A finite set of byte strings has a least member.
proof fn lemma_least(s: Set<Seq<u8>>) -> (m: Seq<u8>)
    requires
        s.finite(),
        s.len() > 0,
    ensures
        s.contains(m),
        forall|y: Seq<u8>| s.contains(y) && y != m ==> lex_lt(m, y),
    decreases s.len(),
{
    let x = s.choose();
    let rest = s.remove(x);
    if rest.len() == 0 {
        assert forall|y: Seq<u8>| s.contains(y) && y != x implies lex_lt(x, y) by {
            assert(rest.contains(y));
        }
        x
    } else {
        let m1 = lemma_least(rest);
        if lex_lt(x, m1) {
            assert forall|y: Seq<u8>| s.contains(y) && y != x implies lex_lt(x, y) by {
                assert(rest.contains(y));
                if y != m1 {
                    lemma_lex_transitive(x, m1, y);
                }
            }
            x
        } else {
            assert(x != m1);
            lemma_lex_total(x, m1);
            m1
        }
    }
}

/// The increasing list of a finite set of byte strings lists exactly that set.
pub proof fn lemma_sorted_list_of_set(s: Set<Seq<u8>>)
    requires
        s.finite(),
    ensures
        sorted_strings(sorted_list(s)),
        sorted_list(s).to_set() == s,
    decreases s.len(),
{
    let q = sorted_of_finite(s);
    lemma_sorted_list(q);
}

proof fn sorted_of_finite(s: Set<Seq<u8>>) -> (q: Seq<Seq<u8>>)
    requires
        s.finite(),
    ensures
        sorted_strings(q),
        q.to_set() == s,
    decreases s.len(),
{
    if s.len() == 0 {
        assert(s =~= Set::<Seq<u8>>::empty());
        assert(Seq::<Seq<u8>>::empty().to_set() =~= s);
        Seq::empty()
    } else {
        let m = lemma_least(s);
        let rest = s.remove(m);
        let q1 = sorted_of_finite(rest);
        let q = seq![m] + q1;
        assert(sorted_strings(q)) by {
            assert forall|i: int, j: int| 0 <= i < j < q.len() implies lex_lt(
                #[trigger] q[i],
                #[trigger] q[j],
            ) by {
                if i == 0 {
                    assert(q[j] == q1[j - 1]);
                    assert(q1.to_set().contains(q1[j - 1]));
                } else {
                    assert(q[i] == q1[i - 1]);
                    assert(q[j] == q1[j - 1]);
                }
            }
        }
        assert(q.to_set() =~= s) by {
            assert forall|y: Seq<u8>| q.to_set().contains(y) <==> s.contains(y) by {
                if q.to_set().contains(y) {
                    let k = choose|k: int| 0 <= k < q.len() && q[k] == y;
                    if k > 0 {
                        assert(q1[k - 1] == y);
                        assert(q1.to_set().contains(y));
                    }
                }
                if s.contains(y) {
                    if y == m {
                        assert(q[0] == y);
                    } else {
                        assert(rest.contains(y));
                        assert(q1.to_set().contains(y));
                        let k = choose|k: int| 0 <= k < q1.len() && q1[k] == y;
                        assert(q[k + 1] == y);
                    }
                }
            }
        }
        q
    }
}

/// The increasing list of a finite set of byte strings.
pub open spec fn sorted_list(s: Set<Seq<u8>>) -> Seq<Seq<u8>> {
    choose|q: Seq<Seq<u8>>| sorted_strings(q) && q.to_set() == s
}

/// A set has one increasing list.
pub proof fn lemma_sorted_list(q: Seq<Seq<u8>>)
    requires
        sorted_strings(q),
    ensures
        sorted_list(q.to_set()) == q,
{
    let p = sorted_list(q.to_set());
    assert(sorted_strings(p) && p.to_set() == q.to_set());
    lemma_sorted_unique(p, q);
}

proof fn lemma_sorted_unique(p: Seq<Seq<u8>>, q: Seq<Seq<u8>>)
    requires
        sorted_strings(p),
        sorted_strings(q),
        p.to_set() == q.to_set(),
    ensures
        p == q,
    decreases p.len(),
{
    lemma_sorted_size(p);
    lemma_sorted_size(q);
    if p.len() > 0 {
        let a = p[0];
        let b = q[0];
        assert(q.to_set().contains(a));
        assert(p.to_set().contains(b));
        let ia = choose|i: int| 0 <= i < q.len() && q[i] == a;
        let ib = choose|i: int| 0 <= i < p.len() && p[i] == b;
        if a != b {
            if ia > 0 {
                assert(lex_lt(q[0], q[ia]));
            }
            if ib > 0 {
                assert(lex_lt(p[0], p[ib]));
            }
            lemma_lex_asymmetric(a, b);
        }
        let p1 = p.drop_first();
        let q1 = q.drop_first();
        assert forall|y: Seq<u8>| p1.to_set().contains(y) <==> q1.to_set().contains(y) by {
            if p1.to_set().contains(y) {
                let k = choose|k: int| 0 <= k < p1.len() && p1[k] == y;
                assert(p[k + 1] == y);
                assert(lex_lt(p[0], p[k + 1]));
                lemma_lex_irreflexive(y);
                assert(q.to_set().contains(y));
                let t = choose|t: int| 0 <= t < q.len() && q[t] == y;
                assert(t != 0);
                assert(q1[t - 1] == y);
            }
            if q1.to_set().contains(y) {
                let k = choose|k: int| 0 <= k < q1.len() && q1[k] == y;
                assert(q[k + 1] == y);
                assert(lex_lt(q[0], q[k + 1]));
                lemma_lex_irreflexive(y);
                assert(p.to_set().contains(y));
                let t = choose|t: int| 0 <= t < p.len() && p[t] == y;
                assert(t != 0);
                assert(p1[t - 1] == y);
            }
        }
        assert(p1.to_set() =~= q1.to_set());
        lemma_sorted_unique(p1, q1);
        assert(p =~= seq![a] + p1);
        assert(q =~= seq![b] + q1);
    } else {
        if q.len() > 0 {
            assert(q.to_set().contains(q[0]));
        }
    }
}

/// Something that can tell a [`MatcherVisitor`] what it requires of a field's value.
pub trait Matcher {
    /// How describing this matcher takes a visitor's nesting levels from `before` to `after`;
    /// a matcher that does not say admits any change.
    open spec fn visited_by(&self, before: Seq<FrameV>, after: Seq<FrameV>) -> bool {
        true
    }

    /// Describes this matcher to the visitor.
    fn visit(&self, visitor: &mut MatcherVisitor)
        requires
            old(visitor).wf(),
        ensures
            final(visitor).wf(),
            self.visited_by(old(visitor).spec_frames(), final(visitor).spec_frames()),
    ;
}

impl<'a, M: Matcher> Matcher for &'a M {
    /// A reference describes what it refers to.
    open spec fn visited_by(&self, before: Seq<FrameV>, after: Seq<FrameV>) -> bool {
        (**self).visited_by(before, after)
    }

    fn visit(&self, visitor: &mut MatcherVisitor) {
        (**self).visit(visitor)
    }
}

} // verus!
