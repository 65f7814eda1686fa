use vstd::prelude::*;
use crate::matchers::{
    bytes_start_with, lemma_lex_asymmetric, lemma_lex_irreflexive, lemma_lex_total,
    lemma_lex_transitive, lemma_prefix_before, lex_less, lex_lt, sorted_strings, starts,
};
use crate::prefilter::common_prefix_len;

verus! {

/// A set of indexes kept in increasing order, each once.
pub open spec fn ascending(v: Seq<u32>) -> bool {
    forall|i: int, j: int| 0 <= i < j < v.len() ==> v[i] < v[j]
}

/// Adds an index to a set kept in increasing order.
fn index_insert(v: &mut Vec<u32>, k: u32)
    requires
        ascending(old(v)@),
    ensures
        ascending(final(v)@),
        final(v)@.to_set() == old(v)@.to_set().insert(k),
{
    let mut i: usize = 0;
    while i < v.len() && v[i] < k
        invariant
            i <= v@.len(),
            forall|j: int| 0 <= j < i ==> v@[j] < k,
        decreases v@.len() - i,
    {
        i = i + 1;
    }
    if i < v.len() && v[i] == k {
        assert(old(v)@.to_set().insert(k) =~= old(v)@.to_set()) by {
            assert(old(v)@.contains(k)) by {
                assert(old(v)@[i as int] == k);
            }
        }
        return;
    }
    let ghost before = v@;
    v.insert(i, k);
    proof {
        assert forall|a: int, b: int| 0 <= a < b < v@.len() implies v@[a] < v@[b] by {
            if a < i && b > i {
                assert(v@[b] == before[b - 1]);
            } else if a == i && b > i {
                assert(v@[b] == before[b - 1]);
                assert(before[i as int] > k);
                if b - 1 > i {
                    assert(before[i as int] < before[b - 1]);
                }
            } else if a > i {
                assert(v@[a] == before[a - 1]);
                assert(v@[b] == before[b - 1]);
            }
        }
        assert forall|x: u32| v@.to_set().contains(x) <==> before.to_set().insert(k).contains(
            x,
        ) by {
            if v@.to_set().contains(x) {
                let j = choose|j: int| 0 <= j < v@.len() && v@[j] == x;
                if j < i {
                    assert(before[j] == x);
                } else if j > i {
                    assert(before[j - 1] == x);
                }
            }
            if before.to_set().contains(x) {
                let j = choose|j: int| 0 <= j < before.len() && before[j] == x;
                if j < i {
                    assert(v@[j] == x);
                } else {
                    assert(v@[j + 1] == x);
                }
            }
            if x == k {
                assert(v@[i as int] == k);
            }
        }
        assert(v@.to_set() =~= before.to_set().insert(k));
    }
}

/// Two byte strings that agree before position `c` and differ there are ordered by the
/// bytes at `c`.
proof fn lemma_lex_at(a: Seq<u8>, b: Seq<u8>, c: int)
    requires
        0 <= c < a.len(),
        c < b.len(),
        a.take(c) == b.take(c),
        a[c] != b[c],
    ensures
        lex_lt(a, b) <==> a[c] < b[c],
    decreases c,
{
    if c > 0 {
        assert(a[0] == b[0]) by {
            assert(a.take(c)[0] == a[0]);
            assert(b.take(c)[0] == b[0]);
        }
        assert(a.drop_first().take(c - 1) =~= b.drop_first().take(c - 1)) by {
            let da = a.drop_first().take(c - 1);
            let db = b.drop_first().take(c - 1);
            assert forall|x: int| 0 <= x < c - 1 implies #[trigger] da[x] == db[x] by {
                assert(a.take(c)[x + 1] == a[x + 1]);
                assert(b.take(c)[x + 1] == b[x + 1]);
            }
        }
        lemma_lex_at(a.drop_first(), b.drop_first(), c - 1);
    }
}

/// The patterns of a table, in mathematical form.
pub open spec fn table_patterns(t: Seq<(Vec<u8>, Vec<u32>)>) -> Seq<Seq<u8>> {
    t.map_values(|e: (Vec<u8>, Vec<u32>)| e.0@)
}

/// The (pattern, index) pairs that a table holds.
pub open spec fn table_pairs(t: Seq<(Vec<u8>, Vec<u32>)>) -> Set<(Seq<u8>, u32)> {
    Set::new(
        |pr: (Seq<u8>, u32)|
            exists|i: int| 0 <= i < t.len() && t[i].0@ == pr.0 && #[trigger] t[i].1@.contains(pr.1),
    )
}

/// The (pattern, index) pairs of two parallel lists.
pub open spec fn input_pairs(patterns: Seq<Seq<u8>>, indexes: Seq<u32>) -> Set<(Seq<u8>, u32)> {
    Set::new(
        |pr: (Seq<u8>, u32)|
            exists|j: int|
                0 <= j < patterns.len() && j < indexes.len() && patterns[j] == pr.0
                    && #[trigger] indexes[j] == pr.1,
    )
}

/// The indexes of the non-empty patterns that start `bytes`.
pub open spec fn starting_indexes(pairs: Set<(Seq<u8>, u32)>, bytes: Seq<u8>) -> Set<u32> {
    Set::new(
        |x: u32|
            exists|p: Seq<u8>| #[trigger] pairs.contains((p, x)) && p.len() > 0 && starts(bytes, p),
    )
}

/// The indexes of the patterns longer than `n` bytes that start `bytes`.
pub open spec fn found_above(pairs: Set<(Seq<u8>, u32)>, bytes: Seq<u8>, n: int) -> Set<u32> {
    Set::new(
        |x: u32|
            exists|p: Seq<u8>| #[trigger] pairs.contains((p, x)) && p.len() > n && starts(bytes, p),
    )
}

/// A pair of a table comes from one of its entries.
proof fn lemma_pair_entry(t: Seq<(Vec<u8>, Vec<u32>)>, p: Seq<u8>, x: u32) -> (a: int)
    requires
        table_pairs(t).contains((p, x)),
    ensures
        0 <= a < t.len(),
        t[a].0@ == p,
        t[a].1@.contains(x),
{
    choose|a: int| 0 <= a < t.len() && t[a].0@ == p && #[trigger] t[a].1@.contains(x)
}

/// A prefix of `bytes` no longer than `n` comes no later than the first `n` bytes.
proof fn lemma_start_before(bytes: Seq<u8>, n: int, p: Seq<u8>)
    requires
        0 <= n <= bytes.len(),
        p.len() <= n,
        starts(bytes, p),
    ensures
        starts(bytes.take(n), p),
        p == bytes.take(n) || lex_lt(p, bytes.take(n)),
{
    assert(bytes.take(n).take(p.len() as int) =~= bytes.take(p.len() as int));
    if p != bytes.take(n) {
        lemma_prefix_before(p, bytes.take(n));
    }
}

/// When no pattern of length 1 to `n` starts `bytes`, those longer than `n` are all there is.
proof fn lemma_nothing_between(pairs: Set<(Seq<u8>, u32)>, bytes: Seq<u8>, n: int)
    requires
        n >= 0,
        forall|p: Seq<u8>, x: u32|
            pairs.contains((p, x)) && 0 < p.len() <= n && starts(bytes, p) ==> false,
    ensures
        found_above(pairs, bytes, n) == starting_indexes(pairs, bytes),
{
    assert forall|x: u32| starting_indexes(pairs, bytes).contains(x) implies found_above(
        pairs,
        bytes,
        n,
    ).contains(x) by {
        let p = choose|p: Seq<u8>| #[trigger] pairs.contains((p, x)) && p.len() > 0 && starts(bytes, p);
        if p.len() <= n {
            assert(pairs.contains((p, x)) && 0 < p.len() <= n && starts(bytes, p));
        }
    }
    assert forall|x: u32| found_above(pairs, bytes, n).contains(x) implies starting_indexes(
        pairs,
        bytes,
    ).contains(x) by {
        let p = choose|p: Seq<u8>| #[trigger] pairs.contains((p, x)) && p.len() > n && starts(bytes, p);
    }
    assert(found_above(pairs, bytes, n) =~= starting_indexes(pairs, bytes));
}

/// When entry `i`'s pattern starts the first `n` bytes and no pattern of length 1 to `n`
/// that starts them comes later, the indexes found above the pattern's length less one are
/// those found above `n` and the entry's.
proof fn lemma_found_step(
    t: Seq<(Vec<u8>, Vec<u32>)>,
    bytes: Seq<u8>,
    n: int,
    i: int,
    before: Set<u32>,
    after: Set<u32>,
)
    requires
        table_ok(t),
        0 < n <= bytes.len(),
        0 <= i < t.len(),
        t[i].0@.len() > 0,
        starts(bytes.take(n), t[i].0@),
        before == found_above(table_pairs(t), bytes, n),
        after == before.union(t[i].1@.to_set()),
        forall|p: Seq<u8>, x: u32|
            table_pairs(t).contains((p, x)) && 0 < p.len() <= n && starts(bytes, p) ==> p
                == t[i].0@ || lex_lt(p, t[i].0@),
    ensures
        after == found_above(table_pairs(t), bytes, t[i].0@.len() - 1),
{
    let pairs = table_pairs(t);
    let k = t[i].0@;
    assert(starts(bytes, k)) by {
        assert(bytes.take(n).take(k.len() as int) =~= bytes.take(k.len() as int));
    }
    assert forall|x: u32| found_above(pairs, bytes, k.len() - 1).contains(x) implies after.contains(x) by {
        let p = choose|p: Seq<u8>| #[trigger] pairs.contains((p, x)) && p.len() > k.len() - 1 && starts(bytes, p);
        if p.len() > n {
            assert(before.contains(x));
        } else {
            assert(p == k || lex_lt(p, k));
            if p != k {
                if p.len() == k.len() {
                    assert(p =~= k) by {
                        assert(p =~= bytes.take(p.len() as int));
                        assert(k =~= bytes.take(k.len() as int));
                    }
                } else {
                    assert(starts(p, k)) by {
                        assert(p.take(k.len() as int) =~= bytes.take(k.len() as int));
                    }
                    lemma_prefix_before(k, p);
                    lemma_lex_asymmetric(k, p);
                }
            }
            let a = lemma_pair_entry(t, p, x);
            if a != i {
                if a < i {
                    assert(lex_lt(table_patterns(t)[a], table_patterns(t)[i]));
                } else {
                    assert(lex_lt(table_patterns(t)[i], table_patterns(t)[a]));
                }
                lemma_lex_irreflexive(k);
            }
            assert(t[i].1@.contains(x));
        }
    }
    assert forall|x: u32| after.contains(x) implies found_above(pairs, bytes, k.len() - 1).contains(x) by {
        if before.contains(x) {
            let p = choose|p: Seq<u8>| #[trigger] pairs.contains((p, x)) && p.len() > n && starts(bytes, p);
            assert(p.len() > k.len() - 1) by {
                assert(k.len() <= n);
            }
        } else {
            assert(t[i].1@.to_set().contains(x));
            assert(t[i].1@.contains(x));
            assert(t[i].0@ == (k, x).0 && t[i].1@.contains((k, x).1));
            assert(pairs.contains((k, x)));
        }
    }
    assert(after =~= found_above(pairs, bytes, k.len() - 1));
}

/// When entry `i`'s pattern comes no later than the first `n` bytes without starting them,
/// no pattern longer than their common prefix and no longer than `n` starts `bytes`.
proof fn lemma_skip_step(t: Seq<(Vec<u8>, Vec<u32>)>, bytes: Seq<u8>, n: int, i: int, c: int)
    requires
        table_ok(t),
        0 < n <= bytes.len(),
        0 <= i < t.len(),
        !lex_lt(bytes.take(n), t[i].0@),
        !starts(bytes.take(n), t[i].0@),
        0 <= c <= n,
        c <= t[i].0@.len(),
        bytes.take(n).take(c) == t[i].0@.take(c),
        c < n && c < t[i].0@.len() ==> bytes.take(n)[c] != t[i].0@[c],
        forall|p: Seq<u8>, x: u32|
            table_pairs(t).contains((p, x)) && 0 < p.len() <= n && starts(bytes, p) ==> p
                == t[i].0@ || lex_lt(p, t[i].0@),
    ensures
        c < n,
        forall|p: Seq<u8>, x: u32|
            table_pairs(t).contains((p, x)) && c < p.len() <= n && starts(bytes, p) ==> false,
{
    let s = bytes.take(n);
    let k = t[i].0@;
    if c == k.len() {
        assert(k.take(c) =~= k);
        assert(s.take(k.len() as int) == k);
    }
    assert(c < k.len());
    assert(k != s) by {
        if k == s {
            assert(s.take(s.len() as int) =~= s);
        }
    }
    lemma_lex_total(k, s);
    if c == n {
        assert(s.take(c) =~= s);
        assert(starts(k, s));
        lemma_prefix_before(s, k);
    }
    assert(c < n);
    lemma_lex_at(k, s, c);
    assert forall|p: Seq<u8>, x: u32|
        table_pairs(t).contains((p, x)) && c < p.len() <= n && starts(bytes, p) implies false by {
        assert(p == k || lex_lt(p, k));
        assert(p.take(c) =~= k.take(c)) by {
            assert forall|y: int| 0 <= y < c implies #[trigger] p.take(c)[y] == k.take(c)[y] by {
                assert(bytes.take(p.len() as int)[y] == bytes[y]);
                assert(s.take(c)[y] == s[y]);
                assert(k.take(c)[y] == s.take(c)[y]);
            }
        }
        assert(p[c] == s[c]) by {
            assert(bytes.take(p.len() as int)[c] == bytes[c]);
        }
        lemma_lex_at(k, p, c);
        if p == k {
            lemma_lex_irreflexive(k);
        } else {
            lemma_lex_asymmetric(p, k);
        }
    }
}

/// A prefilter that keeps its patterns in order and finds those that start a value by
/// searching backwards from the longest candidate.
#[derive(Debug)]
pub struct AhoCorasickPrefilter {
    prefixes: Vec<(Vec<u8>, Vec<u32>)>,
    first_idx: u32,
}

/// The table is ordered by pattern, each pattern once, and each index set in order.
spec fn table_ok(t: Seq<(Vec<u8>, Vec<u32>)>) -> bool {
    &&& sorted_strings(table_patterns(t))
    &&& forall|i: int| 0 <= i < t.len() ==> ascending(#[trigger] t[i].1@)
}

fn copy_bytes(a: &[u8]) -> (r: Vec<u8>)
    ensures
        r@ == a@,
{
    vstd::slice::slice_to_vec(a)
}

impl AhoCorasickPrefilter {
    #[verifier::type_invariant]
    spec fn inv(self) -> bool {
        table_ok(self.prefixes@)
    }

    /// The (pattern, index) pairs held.
    pub closed spec fn spec_pairs(&self) -> Set<(Seq<u8>, u32)> {
        table_pairs(self.prefixes@)
    }

    /// The index given first.
    pub closed spec fn spec_first(&self) -> u32 {
        self.first_idx
    }

    /// Builds a prefilter from patterns and the matcher index of each; `None` when there is
    /// no pattern.
    pub fn new(patterns: &[Vec<u8>], pattern_indexes: Vec<u32>) -> (r: Option<AhoCorasickPrefilter>)
        requires
            patterns@.len() == pattern_indexes@.len(),
        ensures
            r is None <==> patterns@.len() == 0,
            r matches Some(f) ==> f.spec_first() == pattern_indexes@[0] && f.spec_pairs()
                == input_pairs(patterns@.map_values(|p: Vec<u8>| p@), pattern_indexes@),
    {
        if patterns.len() == 0 {
            return None;
        }
        let first_idx = pattern_indexes[0];
        let ghost ps = patterns@.map_values(|p: Vec<u8>| p@);
        let mut table: Vec<(Vec<u8>, Vec<u32>)> = Vec::new();
        let mut j: usize = 0;
        proof {
            assert(table_pairs(table@) =~= input_pairs(ps.take(0), pattern_indexes@.take(0)));
        }
        while j < patterns.len()
            invariant
                j <= patterns@.len(),
                patterns@.len() == pattern_indexes@.len(),
                ps == patterns@.map_values(|p: Vec<u8>| p@),
                table_ok(table@),
                table_pairs(table@) == input_pairs(ps.take(j as int), pattern_indexes@.take(
                    j as int,
                )),
            decreases patterns@.len() - j,
        {
            let pattern = patterns[j].as_slice();
            let idx = pattern_indexes[j];
            let ghost t0 = table@;
            let mut i: usize = 0;
            while i < table.len() && lex_less(table[i].0.as_slice(), pattern)
                invariant
                    i <= table@.len(),
                    forall|a: int| 0 <= a < i ==> lex_lt(#[trigger] table@[a].0@, pattern@),
                decreases table@.len() - i,
            {
                i = i + 1;
            }
            let found = i < table.len() && table[i].0.len() == pattern.len() && bytes_start_with(
                table[i].0.as_slice(),
                pattern,
            );
            if found {
                let mut entry = table.remove(i);
                index_insert(&mut entry.1, idx);
                table.insert(i, entry);
                proof {
                    assert(entry.0@ == pattern@) by {
                        assert(entry.0@.take(pattern@.len() as int) =~= entry.0@);
                    }
                    assert(table@ =~= t0.update(i as int, entry));
                    assert(table_patterns(table@) =~= table_patterns(t0));
                    assert forall|a: int| 0 <= a < table@.len() implies ascending(
                        #[trigger] table@[a].1@,
                    ) by {
                        if a != i {
                            assert(table@[a] == t0[a]);
                        }
                    }
                    assert forall|pr: (Seq<u8>, u32)|
                        table_pairs(t0).contains(pr) || pr == (pattern@, idx) implies table_pairs(
                        table@,
                    ).contains(pr) by {
                        if table_pairs(t0).contains(pr) {
                            let a = choose|a: int|
                                0 <= a < t0.len() && t0[a].0@ == pr.0 && #[trigger] t0[a].1@.contains(
                                    pr.1,
                                );
                            if a == i {
                                assert(t0[a].1@.to_set().contains(pr.1));
                                assert(entry.1@.to_set().contains(pr.1));
                                assert(table@[a].1@.contains(pr.1));
                            } else {
                                assert(table@[a] == t0[a]);
                            }
                        }
                        if pr == (pattern@, idx) {
                            assert(entry.1@.to_set().contains(idx));
                            assert(table@[i as int].1@.contains(idx));
                        }
                    }
                    assert forall|pr: (Seq<u8>, u32)| table_pairs(table@).contains(pr)
                        implies (table_pairs(t0).contains(pr) || pr == (pattern@, idx)) by {
                        let a = choose|a: int|
                            0 <= a < table@.len() && table@[a].0@ == pr.0
                                && #[trigger] table@[a].1@.contains(pr.1);
                        if a == i {
                            assert(entry.1@.to_set().contains(pr.1));
                            if pr.1 != idx {
                                assert(t0[a].1@.to_set().contains(pr.1));
                                assert(t0[a].1@.contains(pr.1));
                            }
                        } else {
                            assert(table@[a] == t0[a]);
                        }
                    }
                }
            } else {
                let mut first: Vec<u32> = Vec::new();
                first.push(idx);
                let entry = (copy_bytes(pattern), first);
                table.insert(i, entry);
                proof {
                    assert(table@ =~= t0.insert(i as int, entry));
                    let tp = table_patterns(table@);
                    let tp0 = table_patterns(t0);
                    assert(tp =~= tp0.insert(i as int, pattern@));
                    if i < t0.len() {
                        assert(!lex_lt(tp0[i as int], pattern@));
                        assert(tp0[i as int] != pattern@) by {
                            if tp0[i as int] == pattern@ {
                                assert(t0[i as int].0@.take(pattern@.len() as int) =~= t0[i as int].0@);
                            }
                        }
                        lemma_lex_total(tp0[i as int], pattern@);
                    }
                    assert(sorted_strings(tp)) by {
                        assert forall|a: int, b: int| 0 <= a < b < tp.len() implies lex_lt(
                            #[trigger] tp[a],
                            #[trigger] tp[b],
                        ) by {
                            if b < i {
                                assert(lex_lt(tp0[a], tp0[b]));
                            } else if b == i {
                                assert(lex_lt(t0[a].0@, pattern@));
                            } else if a < i {
                                assert(tp[b] == tp0[b - 1]);
                                assert(lex_lt(t0[a].0@, pattern@));
                                if b - 1 > i {
                                    assert(lex_lt(tp0[i as int], tp0[b - 1]));
                                    lemma_lex_transitive(pattern@, tp0[i as int], tp0[b - 1]);
                                }
                                lemma_lex_transitive(tp0[a], pattern@, tp0[b - 1]);
                            } else if a == i {
                                assert(tp[b] == tp0[b - 1]);
                                if b - 1 > i {
                                    assert(lex_lt(tp0[i as int], tp0[b - 1]));
                                    lemma_lex_transitive(pattern@, tp0[i as int], tp0[b - 1]);
                                }
                            } else {
                                assert(tp[a] == tp0[a - 1]);
                                assert(tp[b] == tp0[b - 1]);
                                assert(lex_lt(tp0[a - 1], tp0[b - 1]));
                            }
                        }
                    }
                    assert forall|a: int| 0 <= a < table@.len() implies ascending(
                        #[trigger] table@[a].1@,
                    ) by {
                        if a < i {
                            assert(table@[a] == t0[a]);
                        } else if a > i {
                            assert(table@[a] == t0[a - 1]);
                        }
                    }
                    assert forall|pr: (Seq<u8>, u32)| table_pairs(table@).contains(pr)
                        <==> (table_pairs(t0).contains(pr) || pr == (pattern@, idx)) by {
                        if table_pairs(t0).contains(pr) {
                            let a = choose|a: int|
                                0 <= a < t0.len() && t0[a].0@ == pr.0 && #[trigger] t0[a].1@.contains(
                                    pr.1,
                                );
                            if a < i {
                                assert(table@[a] == t0[a]);
                                assert(table@[a].1@.contains(pr.1));
                            } else {
                                assert(table@[a + 1] == t0[a]);
                                assert(table@[a + 1].1@.contains(pr.1));
                            }
                        }
                        if pr == (pattern@, idx) {
                            assert(table@[i as int] == entry);
                            assert(entry.1@ =~= seq![idx]);
                            assert(table@[i as int].1@[0] == idx);
                            assert(table@[i as int].1@.contains(idx));
                            assert(table@[i as int].0@ == pattern@);
                        }
                        if table_pairs(table@).contains(pr) {
                            let a = choose|a: int|
                                0 <= a < table@.len() && table@[a].0@ == pr.0
                                    && #[trigger] table@[a].1@.contains(pr.1);
                            if a < i {
                                assert(table@[a] == t0[a]);
                            } else if a > i {
                                assert(table@[a] == t0[a - 1]);
                            } else {
                                assert(table@[a] == entry);
                                assert(entry.1@ =~= seq![idx]);
                                assert(pr.1 == idx);
                                assert(pr.0 == pattern@);
                            }
                        }
                    }
                }
            }
            proof {
                let ps1 = ps.take(j + 1);
                let is1 = pattern_indexes@.take(j + 1);
                assert(ps[j as int] == pattern@);
                assert forall|pr: (Seq<u8>, u32)| input_pairs(ps1, is1).contains(pr) <==> (
                input_pairs(ps.take(j as int), pattern_indexes@.take(j as int)).contains(pr) || pr
                    == (pattern@, idx)) by {
                    if input_pairs(ps1, is1).contains(pr) {
                        let a = choose|a: int|
                            0 <= a < ps1.len() && a < is1.len() && ps1[a] == pr.0
                                && #[trigger] is1[a] == pr.1;
                        if a < j {
                            assert(ps.take(j as int)[a] == pr.0);
                            assert(pattern_indexes@.take(j as int)[a] == pr.1);
                        }
                    }
                    if input_pairs(ps.take(j as int), pattern_indexes@.take(j as int)).contains(
                        pr,
                    ) {
                        let a = choose|a: int|
                            0 <= a < j && ps.take(j as int)[a] == pr.0
                                && #[trigger] pattern_indexes@.take(j as int)[a] == pr.1;
                        assert(ps1[a] == pr.0);
                        assert(is1[a] == pr.1);
                    }
                    if pr == (pattern@, idx) {
                        assert(ps1[j as int] == pr.0);
                        assert(is1[j as int] == pr.1);
                    }
                }
                assert(table_pairs(table@) =~= input_pairs(ps1, is1));
            }
            j = j + 1;
        }
        proof {
            assert(ps.take(patterns@.len() as int) =~= ps);
            assert(pattern_indexes@.take(patterns@.len() as int) =~= pattern_indexes@);
        }
        Some(AhoCorasickPrefilter { prefixes: table, first_idx })
    }

    /// The index given first.
    pub fn first_index(&self) -> (r: u32)
        ensures
            r == self.spec_first(),
    {
        self.first_idx
    }
    /// The last entry whose pattern comes no later than `s`, if any.
    fn last_at_most(&self, s: &[u8]) -> (r: Option<usize>)
        requires
            table_ok(self.prefixes@),
        ensures
            match r {
                None => forall|a: int|
                    0 <= a < self.prefixes@.len() ==> lex_lt(s@, #[trigger] self.prefixes@[a].0@),
                Some(i) => i < self.prefixes@.len() && !lex_lt(s@, self.prefixes@[i as int].0@)
                    && forall|a: int|
                    i < a < self.prefixes@.len() ==> lex_lt(s@, #[trigger] self.prefixes@[a].0@),
            },
    {
        let mut i: usize = self.prefixes.len();
        while i > 0 && lex_less(s, self.prefixes[i - 1].0.as_slice())
            invariant
                i <= self.prefixes@.len(),
                forall|a: int|
                    i <= a < self.prefixes@.len() ==> lex_lt(s@, #[trigger] self.prefixes@[a].0@),
            decreases i,
        {
            i = i - 1;
        }
        if i == 0 {
            None
        } else {
            Some(i - 1)
        }
    }

    /// The indexes of the non-empty patterns that start `bytes`, in increasing order.
    pub fn check(&self, bytes: &[u8]) -> (r: Vec<u32>)
        ensures
            ascending(r@),
            r@.to_set() == starting_indexes(self.spec_pairs(), bytes@),
    {
        proof {
            use_type_invariant(self);
        }
        let ghost t = self.prefixes@;
        let ghost pairs = table_pairs(t);
        let mut possible: Vec<u32> = Vec::new();
        let mut search_len: usize = bytes.len();
        proof {
            assert(possible@.to_set() =~= found_above(pairs, bytes@, search_len as int)) by {
                assert forall|x: u32| !found_above(pairs, bytes@, search_len as int).contains(x) by {
                    if found_above(pairs, bytes@, search_len as int).contains(x) {
                        let p = choose|p: Seq<u8>|
                            #[trigger] pairs.contains((p, x)) && p.len() > search_len && starts(
                                bytes@,
                                p,
                            );
                    }
                }
            }
        }
        loop
            invariant
                t == self.prefixes@,
                table_ok(t),
                pairs == table_pairs(t),
                search_len <= bytes@.len(),
                ascending(possible@),
                possible@.to_set() == found_above(pairs, bytes@, search_len as int),
            ensures
                ascending(possible@),
                possible@.to_set() == starting_indexes(pairs, bytes@),
            decreases search_len,
        {
            let ghost n = search_len as int;
            let ghost s_view = bytes@.take(n);
            // When no pattern of length 1 to `n` starts `bytes`, the search is done.
            if search_len == 0 {
                proof {
                    lemma_nothing_between(pairs, bytes@, n);
                }
                break;
            }
            let s = vstd::slice::slice_subrange(bytes, 0, search_len);
            let lo = vstd::slice::slice_subrange(bytes, 0, 1);
            let i = match self.last_at_most(s) {
                None => {
                    proof {
                        assert forall|p: Seq<u8>, x: u32|
                            pairs.contains((p, x)) && 0 < p.len() <= n && starts(bytes@, p) implies false by {
                            let a = lemma_pair_entry(t, p, x);
                            lemma_start_before(bytes@, n, p);
                            assert(lex_lt(s@, t[a].0@));
                            if p != s@ {
                                lemma_lex_asymmetric(p, s@);
                            } else {
                                lemma_lex_irreflexive(p);
                            }
                        }
                        lemma_nothing_between(pairs, bytes@, n);
                    }
                    break;
                },
                Some(i) => i,
            };
            let k = self.prefixes[i].0.as_slice();
            let ghost kv = k@;
            proof {
                // Every pattern that starts `bytes` within the first `n` bytes comes no later
                // than `k`.
                assert forall|p: Seq<u8>, x: u32|
                    pairs.contains((p, x)) && 0 < p.len() <= n && starts(bytes@, p) implies p == kv
                    || lex_lt(p, kv) by {
                    let a = lemma_pair_entry(t, p, x);
                    lemma_start_before(bytes@, n, p);
                    if a > i {
                        assert(lex_lt(s@, t[a].0@));
                        if p != s@ {
                            lemma_lex_asymmetric(p, s@);
                        } else {
                            lemma_lex_irreflexive(p);
                        }
                    } else if a < i {
                        assert(lex_lt(table_patterns(t)[a], table_patterns(t)[i as int]));
                    }
                }
            }
            if lex_less(k, lo) {
                proof {
                    assert forall|p: Seq<u8>, x: u32|
                        pairs.contains((p, x)) && 0 < p.len() <= n && starts(bytes@, p) implies false by {
                        assert(p == kv || lex_lt(p, kv));
                        assert(starts(p, lo@)) by {
                            assert(p.take(1) =~= bytes@.take(1)) by {
                                assert(p.take(1)[0] == p[0]);
                                assert(bytes@.take(p.len() as int)[0] == bytes@[0]);
                            }
                        }
                        if p != lo@ {
                            lemma_prefix_before(lo@, p);
                            if p == kv {
                                lemma_lex_asymmetric(kv, lo@);
                            } else {
                                lemma_lex_transitive(lo@, p, kv);
                                lemma_lex_asymmetric(kv, lo@);
                            }
                        } else {
                            if p == kv {
                                lemma_lex_irreflexive(kv);
                            } else {
                                lemma_lex_asymmetric(p, kv);
                            }
                        }
                    }
                    lemma_nothing_between(pairs, bytes@, n);
                }
                break;
            }
            if bytes_start_with(s, k) {
                let list = &self.prefixes[i].1;
                let ghost before = possible@.to_set();
                let mut j: usize = 0;
                while j < list.len()
                    invariant
                        j <= list@.len(),
                        ascending(possible@),
                        possible@.to_set() == before.union(list@.take(j as int).to_set()),
                    decreases list@.len() - j,
                {
                    index_insert(&mut possible, list[j]);
                    proof {
                        assert(list@.take(j + 1) =~= list@.take(j as int).push(list@[j as int]));
                        list@.take(j as int).lemma_push_to_set_commute(list@[j as int]);
                        assert(possible@.to_set() =~= before.union(list@.take(j + 1).to_set()));
                    }
                    j = j + 1;
                }
                proof {
                    assert(list@.take(list@.len() as int) =~= list@);
                    assert(kv.len() > 0) by {
                        if kv.len() == 0 {
                            assert(lex_lt(kv, lo@));
                        }
                    }
                    lemma_found_step(t, bytes@, n, i as int, before, possible@.to_set());
                }
                search_len = k.len() - 1;
            } else {
                let c = common_prefix_len(s, k);
                proof {
                    lemma_skip_step(t, bytes@, n, i as int, c as int);
                    assert(possible@.to_set() =~= found_above(pairs, bytes@, c as int)) by {
                        assert forall|x: u32| found_above(pairs, bytes@, c as int).contains(x)
                            implies found_above(pairs, bytes@, n).contains(x) by {
                            let p = choose|p: Seq<u8>|
                                #[trigger] pairs.contains((p, x)) && p.len() > c && starts(bytes@, p);
                            if p.len() <= n {
                                assert(false);
                            }
                        }
                        assert forall|x: u32| found_above(pairs, bytes@, n).contains(x)
                            implies found_above(pairs, bytes@, c as int).contains(x) by {
                            let p = choose|p: Seq<u8>|
                                #[trigger] pairs.contains((p, x)) && p.len() > n && starts(bytes@, p);
                        }
                    }
                }
                search_len = c;
            }
        }
        possible
    }
}

} // verus!
