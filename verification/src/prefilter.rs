use vstd::prelude::*;
use std::collections::BTreeMap;
use crate::matchers::starts;

verus! {

broadcast use {vstd::std_specs::btree::group_btree_axioms, vstd::laws_cmp::group_laws_cmp};

/// A set of keys kept in increasing order, each once.
pub open spec fn increasing(v: Seq<usize>) -> bool {
    forall|i: int, j: int| 0 <= i < j < v.len() ==> v[i] < v[j]
}

/// Adds a key to a set kept in increasing order.
fn key_insert(v: &mut Vec<usize>, k: usize)
    requires
        increasing(old(v)@),
    ensures
        increasing(final(v)@),
        final(v)@.to_set() == old(v)@.to_set().insert(k),
{
    let mut i: usize = 0;
    while i < v.len() && v[i] < k
        invariant
            i <= v@.len(),
            forall|j: int| 0 <= j < i ==> v@[j] < k,
        decreases v@.len() - i,
    {
        i = i + 1;
    }
    if i < v.len() && v[i] == k {
        assert(old(v)@.to_set().insert(k) =~= old(v)@.to_set()) by {
            assert(old(v)@.contains(k)) by {
                assert(old(v)@[i as int] == k);
            }
        }
        return;
    }
    let ghost before = v@;
    v.insert(i, k);
    proof {
        assert(v@ =~= before.take(i as int).push(k) + before.skip(i as int));
        assert forall|a: int, b: int| 0 <= a < b < v@.len() implies v@[a] < v@[b] by {
            if a < i && b > i {
                assert(v@[b] == before[b - 1]);
            } else if a == i && b > i {
                assert(v@[b] == before[b - 1]);
                assert(before[i as int] > k);
                if b - 1 > i {
                    assert(before[i as int] < before[b - 1]);
                }
            } else if a > i {
                assert(v@[a] == before[a - 1]);
                assert(v@[b] == before[b - 1]);
            }
        }
        assert forall|x: usize| v@.to_set().contains(x) <==> before.to_set().insert(k).contains(
            x,
        ) by {
            if v@.to_set().contains(x) {
                let j = choose|j: int| 0 <= j < v@.len() && v@[j] == x;
                if j < i {
                    assert(before[j] == x);
                } else if j > i {
                    assert(before[j - 1] == x);
                }
            }
            if before.to_set().contains(x) {
                let j = choose|j: int| 0 <= j < before.len() && before[j] == x;
                if j < i {
                    assert(v@[j] == x);
                } else {
                    assert(v@[j + 1] == x);
                }
            }
            if x == k {
                assert(v@[i as int] == k);
            }
        }
        assert(v@.to_set() =~= before.to_set().insert(k));
    }
}

/// Takes a key out of a set kept in increasing order.
fn key_remove(v: &mut Vec<usize>, k: usize)
    requires
        increasing(old(v)@),
    ensures
        increasing(final(v)@),
        final(v)@.to_set() == old(v)@.to_set().remove(k),
{
    let mut i: usize = 0;
    while i < v.len() && v[i] != k
        invariant
            i <= v@.len(),
            forall|j: int| 0 <= j < i ==> v@[j] != k,
        decreases v@.len() - i,
    {
        i = i + 1;
    }
    if i == v.len() {
        assert(old(v)@.to_set().remove(k) =~= old(v)@.to_set());
        return;
    }
    let ghost before = v@;
    v.remove(i);
    proof {
        assert(v@ =~= before.take(i as int) + before.skip(i + 1));
        assert forall|a: int, b: int| 0 <= a < b < v@.len() implies v@[a] < v@[b] by {
            if a < i && b >= i {
                assert(v@[b] == before[b + 1]);
            } else if a >= i {
                assert(v@[a] == before[a + 1]);
                assert(v@[b] == before[b + 1]);
            }
        }
        assert forall|x: usize| v@.to_set().contains(x) <==> before.to_set().remove(k).contains(
            x,
        ) by {
            if v@.to_set().contains(x) {
                let j = choose|j: int| 0 <= j < v@.len() && v@[j] == x;
                if j < i {
                    assert(before[j] == x);
                    assert(before[j] < before[i as int]);
                } else {
                    assert(before[j + 1] == x);
                    assert(before[i as int] < before[j + 1]);
                }
            }
            if before.to_set().remove(k).contains(x) {
                let j = choose|j: int| 0 <= j < before.len() && before[j] == x;
                assert(j != i);
                if j < i {
                    assert(v@[j] == x);
                } else {
                    assert(v@[j - 1] == x);
                }
            }
        }
        assert(v@.to_set() =~= before.to_set().remove(k));
    }
}

/// A node of a radix trie over byte strings: the keys stored at the path that leads to
/// it, and its outgoing edges, ordered by their first byte.
#[derive(Debug)]
struct RadixTrie {
    keys: Vec<usize>,
    children: Vec<RadixLink>,
}

/// An edge of a radix trie: its first byte, the rest of its label, and the node it leads to.
#[derive(Debug)]
struct RadixLink {
    ch: u8,
    rest: Vec<u8>,
    child: RadixTrie,
}

/// The edges leave a node with distinct first bytes, in increasing order.
spec fn edges_ordered(links: Seq<RadixLink>) -> bool {
    forall|i: int, j: int| 0 <= i < j < links.len() ==> links[i].ch < links[j].ch
}

/// A trie is well formed: every node keeps its keys and edges in order.
spec fn trie_wf(t: RadixTrie) -> bool
    decreases t,
{
    &&& increasing(t.keys@)
    &&& edges_ordered(t.children@)
    &&& forall|i: int| 0 <= i < t.children@.len() ==> trie_wf(#[trigger] t.children@[i].child)
}

/// The position of the edge that starts with byte `b`, if there is one.
spec fn edge_at(links: Seq<RadixLink>, b: u8) -> Option<int> {
    if exists|i: int| 0 <= i < links.len() && links[i].ch == b {
        Some(choose|i: int| 0 <= i < links.len() && links[i].ch == b)
    } else {
        None
    }
}

/// The keys stored at path `p` of a trie.
spec fn lookup(t: RadixTrie, p: Seq<u8>) -> Set<usize>
    decreases p.len(),
{
    if p.len() == 0 {
        t.keys@.to_set()
    } else {
        match edge_at(t.children@, p[0]) {
            None => Set::empty(),
            Some(i) => {
                let l = t.children@[i];
                if starts(p.skip(1), l.rest@) {
                    lookup(l.child, p.skip(1 + l.rest@.len() as int))
                } else {
                    Set::empty()
                }
            },
        }
    }
}

/// The keys that an edge leads to for the path `q` that follows its first byte.
spec fn edge_lookup(l: RadixLink, q: Seq<u8>) -> Set<usize> {
    if starts(q, l.rest@) {
        lookup(l.child, q.skip(l.rest@.len() as int))
    } else {
        Set::empty()
    }
}

proof fn lemma_edge_unique(links: Seq<RadixLink>, i: int)
    requires
        edges_ordered(links),
        0 <= i < links.len(),
    ensures
        edge_at(links, links[i].ch) == Some(i),
{
    let j = choose|j: int| 0 <= j < links.len() && links[j].ch == links[i].ch;
    assert(j == i);
}

/// A path that starts with an edge's byte leads through that edge.
proof fn lemma_lookup_edge(t: RadixTrie, i: int, q: Seq<u8>)
    requires
        edges_ordered(t.children@),
        0 <= i < t.children@.len(),
    ensures
        lookup(t, seq![t.children@[i].ch] + q) == edge_lookup(t.children@[i], q),
{
    let p = seq![t.children@[i].ch] + q;
    lemma_edge_unique(t.children@, i);
    assert(p[0] == t.children@[i].ch);
    assert(p.skip(1) =~= q);
    let l = t.children@[i];
    if starts(q, l.rest@) {
        assert(p.skip(1 + l.rest@.len() as int) =~= q.skip(l.rest@.len() as int));
    }
}

/// A node with no keys and no edges stores nothing.
proof fn lemma_lookup_empty(t: RadixTrie, p: Seq<u8>)
    requires
        t.keys@.len() == 0,
        t.children@.len() == 0,
    ensures
        lookup(t, p) == Set::<usize>::empty(),
{
    if p.len() == 0 {
        assert(t.keys@.to_set() =~= Set::<usize>::empty());
    }
}

/// Every path is the empty one, or a byte followed by the rest.
proof fn lemma_split_path(p: Seq<u8>)
    requires
        p.len() > 0,
    ensures
        p == seq![p[0]] + p.skip(1),
{
    assert(p =~= seq![p[0]] + p.skip(1));
}

/// The keys that the edges of a node lead to for a path of first byte `b` and rest `q`.
spec fn edges_lookup(links: Seq<RadixLink>, b: u8, q: Seq<u8>) -> Set<usize> {
    match edge_at(links, b) {
        Some(i) => edge_lookup(links[i], q),
        None => Set::empty(),
    }
}

/// A path that is not empty goes through the edge of its first byte.
proof fn lemma_lookup_step(t: RadixTrie, p: Seq<u8>)
    requires
        p.len() > 0,
    ensures
        lookup(t, p) == edges_lookup(t.children@, p[0], p.skip(1)),
{
    if let Some(i) = edge_at(t.children@, p[0]) {
        let l = t.children@[i];
        if starts(p.skip(1), l.rest@) {
            assert(p.skip(1 + l.rest@.len() as int) =~= p.skip(1).skip(l.rest@.len() as int));
        }
    }
}

/// Replacing an edge by one with the same first byte changes only the paths through it.
proof fn lemma_edges_update(links: Seq<RadixLink>, i: int, l: RadixLink, b: u8, q: Seq<u8>)
    requires
        edges_ordered(links),
        0 <= i < links.len(),
        l.ch == links[i].ch,
    ensures
        edges_ordered(links.update(i, l)),
        edges_lookup(links.update(i, l), b, q) == if b == l.ch {
            edge_lookup(l, q)
        } else {
            edges_lookup(links, b, q)
        },
{
    let n = links.update(i, l);
    assert(edges_ordered(n)) by {
        assert forall|a: int, c: int| 0 <= a < c < n.len() implies n[a].ch < n[c].ch by {
            assert(links[a].ch < links[c].ch);
        }
    }
    lemma_edge_unique(n, i);
    if b != l.ch {
        if let Some(j) = edge_at(links, b) {
            assert(n[j] == links[j]);
            lemma_edge_unique(n, j);
        } else {
            if let Some(j) = edge_at(n, b) {
                assert(n[j] == links[j]);
            }
        }
    }
}

/// Adding an edge with a new first byte, in order, changes only the paths through it.
proof fn lemma_edges_insert(links: Seq<RadixLink>, i: int, l: RadixLink, b: u8, q: Seq<u8>)
    requires
        edges_ordered(links),
        0 <= i <= links.len(),
        forall|j: int| 0 <= j < i ==> links[j].ch < l.ch,
        forall|j: int| i <= j < links.len() ==> links[j].ch > l.ch,
    ensures
        edges_ordered(links.insert(i, l)),
        edges_lookup(links.insert(i, l), b, q) == if b == l.ch {
            edge_lookup(l, q)
        } else {
            edges_lookup(links, b, q)
        },
{
    let n = links.insert(i, l);
    assert(edges_ordered(n)) by {
        assert forall|a: int, c: int| 0 <= a < c < n.len() implies n[a].ch < n[c].ch by {
            if c < i {
                assert(links[a].ch < links[c].ch);
            } else if a < i && c > i {
                assert(n[c] == links[c - 1]);
            } else if a > i {
                assert(n[a] == links[a - 1]);
                assert(n[c] == links[c - 1]);
                assert(links[a - 1].ch < links[c - 1].ch);
            } else if a == i {
                assert(n[c] == links[c - 1]);
            }
        }
    }
    assert(n[i] == l);
    lemma_edge_unique(n, i);
    if b != l.ch {
        if let Some(j) = edge_at(links, b) {
            if j < i {
                assert(n[j] == links[j]);
                lemma_edge_unique(n, j);
            } else {
                assert(n[j + 1] == links[j]);
                lemma_edge_unique(n, j + 1);
            }
        } else {
            if let Some(j) = edge_at(n, b) {
                if j < i {
                    assert(n[j] == links[j]);
                } else if j > i {
                    assert(n[j] == links[j - 1]);
                }
            }
        }
    }
}

/// Dropping an edge makes the paths through it lead nowhere.
proof fn lemma_edges_remove(links: Seq<RadixLink>, i: int, b: u8, q: Seq<u8>)
    requires
        edges_ordered(links),
        0 <= i < links.len(),
    ensures
        edges_ordered(links.remove(i)),
        edges_lookup(links.remove(i), b, q) == if b == links[i].ch {
            Set::<usize>::empty()
        } else {
            edges_lookup(links, b, q)
        },
{
    let n = links.remove(i);
    assert(edges_ordered(n)) by {
        assert forall|a: int, c: int| 0 <= a < c < n.len() implies n[a].ch < n[c].ch by {
            if c < i {
                assert(links[a].ch < links[c].ch);
            } else if a < i {
                assert(n[c] == links[c + 1]);
            } else {
                assert(n[a] == links[a + 1]);
                assert(n[c] == links[c + 1]);
            }
        }
    }
    if let Some(j) = edge_at(n, b) {
        if j < i {
            assert(n[j] == links[j]);
            lemma_edge_unique(links, j);
        } else {
            assert(n[j] == links[j + 1]);
            lemma_edge_unique(links, j + 1);
        }
    } else {
        if let Some(j) = edge_at(links, b) {
            if j < i {
                assert(n[j] == links[j]);
            } else if j > i {
                assert(n[j - 1] == links[j]);
            }
        }
    }
}

/// An edge whose label is cut after `at` bytes, through a new node whose only edge carries
/// the rest of the label, leads to the same keys.
proof fn lemma_split(whole: RadixLink, cut: RadixLink, at: int, q: Seq<u8>)
    requires
        0 <= at < whole.rest@.len(),
        cut.ch == whole.ch,
        cut.rest@ == whole.rest@.take(at),
        cut.child.keys@.len() == 0,
        cut.child.children@.len() == 1,
        cut.child.children@[0].ch == whole.rest@[at],
        cut.child.children@[0].rest@ == whole.rest@.skip(at + 1),
        cut.child.children@[0].child == whole.child,
    ensures
        edge_lookup(cut, q) == edge_lookup(whole, q),
{
    let r = whole.rest@;
    let l = cut.child.children@[0];
    assert(edges_ordered(cut.child.children@));
    lemma_edge_unique(cut.child.children@, 0);
    if starts(q, cut.rest@) {
        let q1 = q.skip(at);
        if q1.len() == 0 {
            assert(cut.child.keys@.to_set() =~= Set::<usize>::empty());
            assert(!starts(q, r));
        } else {
            lemma_lookup_step(cut.child, q1);
            if q1[0] == r[at] {
                assert(edge_at(cut.child.children@, q1[0]) == Some(0int));
                if starts(q1.skip(1), l.rest@) {
                    assert(q.take(r.len() as int) =~= r) by {
                        assert forall|x: int| 0 <= x < r.len() implies q[x] == r[x] by {
                            if x < at {
                                assert(q.take(at)[x] == q[x]);
                            } else if x == at {
                                assert(q1[0] == q[at]);
                            } else {
                                assert(q1.skip(1)[x - at - 1] == q[x]);
                                assert(l.rest@[x - at - 1] == r[x]);
                            }
                        }
                    }
                    assert(q1.skip(1).skip(l.rest@.len() as int) =~= q.skip(r.len() as int));
                } else {
                    assert(!starts(q, r)) by {
                        if starts(q, r) {
                            assert(q1.skip(1).take(l.rest@.len() as int) =~= l.rest@) by {
                                assert forall|x: int| 0 <= x < l.rest@.len() implies q1.skip(
                                    1,
                                ).take(l.rest@.len() as int)[x] == l.rest@[x] by {
                                    assert(q.take(r.len() as int)[x + at + 1] == r[x + at + 1]);
                                }
                            }
                        }
                    }
                }
            } else {
                if let Some(j) = edge_at(cut.child.children@, q1[0]) {
                    assert(j == 0);
                }
                assert(!starts(q, r)) by {
                    if starts(q, r) {
                        assert(q.take(r.len() as int)[at] == r[at]);
                    }
                }
            }
        }
    } else {
        assert(!starts(q, r)) by {
            if starts(q, r) {
                assert(q.take(at) =~= r.take(at)) by {
                    assert forall|x: int| 0 <= x < at implies q.take(at)[x] == r.take(at)[x] by {
                        assert(q.take(r.len() as int)[x] == r[x]);
                    }
                }
            }
        }
    }
}

/// The length of the longest common prefix of two byte strings.
pub(crate) fn common_prefix_len(lhs: &[u8], rhs: &[u8]) -> (r: usize)
    ensures
        r <= lhs@.len(),
        r <= rhs@.len(),
        lhs@.take(r as int) == rhs@.take(r as int),
        r < lhs@.len() && r < rhs@.len() ==> lhs@[r as int] != rhs@[r as int],
{
    let mut i: usize = 0;
    while i < lhs.len() && i < rhs.len() && lhs[i] == rhs[i]
        invariant
            i <= lhs@.len(),
            i <= rhs@.len(),
            lhs@.take(i as int) == rhs@.take(i as int),
        decreases lhs@.len() - i,
    {
        assert(lhs@.take(i + 1) =~= lhs@.take(i as int).push(lhs@[i as int]));
        assert(rhs@.take(i + 1) =~= rhs@.take(i as int).push(rhs@[i as int]));
        i = i + 1;
    }
    i
}

/// Cuts an edge's label after `at` bytes, through a new node.
fn split_link(link: &mut RadixLink, at: usize)
    requires
        at < old(link).rest@.len(),
        trie_wf(old(link).child),
    ensures
        final(link).ch == old(link).ch,
        final(link).rest@ == old(link).rest@.take(at as int),
        trie_wf(final(link).child),
        forall|q: Seq<u8>| edge_lookup(*final(link), q) == edge_lookup(*old(link), q),
{
    let ghost whole = *link;
    let n: usize = link.rest.len();
    let tail = link.rest.split_off(at + 1);
    let ch = link.rest.pop().unwrap();
    let mut old_child = RadixTrie::new();
    std::mem::swap(&mut old_child, &mut link.child);
    link.child.children.push(RadixLink { ch, rest: tail, child: old_child });
    proof {
        assert(link.rest@ =~= whole.rest@.take(at as int));
        assert(link.child.children@[0].rest@ =~= whole.rest@.skip(at + 1));
        assert(trie_wf(link.child)) by {
            assert(link.child.keys@ =~= Seq::<usize>::empty());
            assert(trie_wf(link.child.children@[0].child));
        }
        assert forall|q: Seq<u8>| edge_lookup(*link, q) == edge_lookup(whole, q) by {
            lemma_split(whole, *link, at as int, q);
        }
    }
}

/// Joins an edge with the only edge after it when the node between holds no key.
fn try_compact_link(link: &mut RadixLink)
    requires
        trie_wf(old(link).child),
    ensures
        final(link).ch == old(link).ch,
        trie_wf(final(link).child),
        forall|q: Seq<u8>| edge_lookup(*final(link), q) == edge_lookup(*old(link), q),
        old(link).child.keys@.len() == 0 && old(link).child.children@.len() == 1 ==> {
            let g = old(link).child.children@[0];
            &&& final(link).rest@ == old(link).rest@.push(g.ch) + g.rest@
            &&& final(link).child == g.child
        },
        !(old(link).child.keys@.len() == 0 && old(link).child.children@.len() == 1) ==> (*final(link)
            == *old(link)),
{
    if link.child.keys.len() == 0 && link.child.children.len() == 1 {
        let ghost before = *link;
        let grandchild = link.child.children.pop().unwrap();
        assert(trie_wf(grandchild.child)) by {
            assert(grandchild == before.child.children@[0]);
        }
        let at: usize = link.rest.len();
        link.rest.push(grandchild.ch);
        let mut k: usize = 0;
        while k < grandchild.rest.len()
            invariant
                k <= grandchild.rest@.len(),
                link.ch == before.ch,
                link.rest@ == before.rest@.push(grandchild.ch) + grandchild.rest@.take(k as int),
            decreases grandchild.rest@.len() - k,
        {
            link.rest.push(grandchild.rest[k]);
            k = k + 1;
            assert(grandchild.rest@.take(k as int) =~= grandchild.rest@.take(k - 1).push(
                grandchild.rest@[k - 1],
            ));
            assert(link.rest@ =~= before.rest@.push(grandchild.ch) + grandchild.rest@.take(
                k as int,
            ));
        }
        assert(grandchild.rest@.take(grandchild.rest@.len() as int) =~= grandchild.rest@);
        link.child = grandchild.child;
        proof {
            let r = link.rest@;
            assert(r.take(at as int) =~= before.rest@);
            assert(r[at as int] == grandchild.ch);
            assert(r.skip(at + 1) =~= grandchild.rest@);
            assert forall|q: Seq<u8>| edge_lookup(*link, q) == edge_lookup(before, q) by {
                lemma_split(*link, before, at as int, q);
            }
        }
    }
}

/// Whether two byte strings are equal.
fn same_bytes(a: &[u8], b: &[u8]) -> (r: bool)
    ensures
        r == (a@ == b@),
{
    if a.len() != b.len() {
        return false;
    }
    let mut i: usize = 0;
    while i < a.len()
        invariant
            i <= a@.len(),
            a@.len() == b@.len(),
            forall|j: int| 0 <= j < i ==> a@[j] == b@[j],
        decreases a@.len() - i,
    {
        if a[i] != b[i] {
            return false;
        }
        i = i + 1;
    }
    assert(a@ =~= b@);
    true
}

/// The keys stored at the paths of length below `m` that are prefixes of `b`.
spec fn covered(t: RadixTrie, b: Seq<u8>, m: int) -> Set<usize> {
    Set::new(|k: usize| exists|j: int| 0 <= j < m && #[trigger] lookup(t, b.take(j)).contains(k))
}

impl RadixTrie {
    /// An empty node.
    fn new() -> (t: RadixTrie)
        ensures
            trie_wf(t),
            t.keys@.len() == 0,
            t.children@.len() == 0,
            forall|p: Seq<u8>| lookup(t, p) == Set::<usize>::empty(),
    {
        let t = RadixTrie { keys: Vec::new(), children: Vec::new() };
        assert forall|p: Seq<u8>| lookup(t, p) == Set::<usize>::empty() by {
            lemma_lookup_empty(t, p);
        }
        t
    }

    /// Finds the edge that starts with `byte`: its position, or where it would go.
    fn find_child(&self, byte: u8) -> (r: Result<usize, usize>)
        requires
            edges_ordered(self.children@),
        ensures
            match r {
                Ok(i) => i < self.children@.len() && self.children@[i as int].ch == byte
                    && edge_at(self.children@, byte) == Some(i as int),
                Err(i) => i <= self.children@.len() && edge_at(self.children@, byte) is None
                    && (forall|j: int| 0 <= j < i ==> self.children@[j].ch < byte) && (forall|
                    j: int,
                | i <= j < self.children@.len() ==> self.children@[j].ch > byte),
            },
    {
        let mut i: usize = 0;
        while i < self.children.len() && self.children[i].ch < byte
            invariant
                i <= self.children@.len(),
                forall|j: int| 0 <= j < i ==> self.children@[j].ch < byte,
            decreases self.children@.len() - i,
        {
            i = i + 1;
        }
        if i < self.children.len() && self.children[i].ch == byte {
            proof {
                lemma_edge_unique(self.children@, i as int);
            }
            Ok(i)
        } else {
            proof {
                assert forall|j: int| i <= j < self.children@.len() implies self.children@[j].ch
                    > byte by {
                    if j > i {
                        assert(self.children@[i as int].ch < self.children@[j].ch);
                    }
                }
                if exists|j: int| 0 <= j < self.children@.len() && self.children@[j].ch == byte {
                    let j = choose|j: int|
                        0 <= j < self.children@.len() && self.children@[j].ch == byte;
                    if j < i {
                    } else {
                    }
                }
            }
            Err(i)
        }
    }
    /// Stores `key` at the path `prefix`, splitting an edge where the path leaves it.
    fn insert(&mut self, prefix: &[u8], key: usize)
        requires
            trie_wf(*old(self)),
        ensures
            trie_wf(*final(self)),
            forall|p: Seq<u8>|
                lookup(*final(self), p) == if p == prefix@ {
                    lookup(*old(self), p).insert(key)
                } else {
                    lookup(*old(self), p)
                },
        decreases prefix@.len(),
    {
        let ghost t0 = *self;
        if prefix.len() == 0 {
            key_insert(&mut self.keys, key);
            proof {
                assert forall|p: Seq<u8>| lookup(*self, p) == if p == prefix@ {
                    lookup(t0, p).insert(key)
                } else {
                    lookup(t0, p)
                } by {
                    if p.len() > 0 {
                        lemma_lookup_step(*self, p);
                        lemma_lookup_step(t0, p);
                    } else {
                        assert(p =~= prefix@);
                    }
                }
                assert forall|i: int| 0 <= i < self.children@.len() implies trie_wf(
                    #[trigger] self.children@[i].child,
                ) by {
                    assert(self.children@[i] == t0.children@[i]);
                }
            }
            return;
        }
        let first: u8 = prefix[0];
        let tail = vstd::slice::slice_subrange(prefix, 1, prefix.len());
        proof {
            lemma_split_path(prefix@);
            assert(tail@ =~= prefix@.skip(1));
        }
        match self.find_child(first) {
            Err(idx) => {
                let mut child = RadixTrie::new();
                key_insert(&mut child.keys, key);
                let rest = vstd::slice::slice_to_vec(tail);
                let link = RadixLink { ch: first, rest, child };
                let ghost kids = self.children@;
                self.children.insert(idx, link);
                proof {
                    assert(child.keys@.to_set() =~= set![key]) by {
                        assert(Seq::<usize>::empty().to_set() =~= Set::<usize>::empty());
                    }
                    assert forall|q: Seq<u8>| edge_lookup(link, q) == if q == tail@ {
                        Set::<usize>::empty().insert(key)
                    } else {
                        Set::<usize>::empty()
                    } by {
                        if starts(q, tail@) {
                            let r = q.skip(tail@.len() as int);
                            if r.len() == 0 {
                                assert(q =~= tail@);
                            } else {
                                lemma_lookup_step(child, r);
                                assert(q != tail@);
                            }
                        } else {
                            assert(q != tail@) by {
                                if q == tail@ {
                                    assert(q.take(tail@.len() as int) =~= q);
                                }
                            }
                        }
                    }
                    assert forall|p: Seq<u8>| lookup(*self, p) == if p == prefix@ {
                        lookup(t0, p).insert(key)
                    } else {
                        lookup(t0, p)
                    } by {
                        if p.len() > 0 {
                            lemma_lookup_step(*self, p);
                            lemma_lookup_step(t0, p);
                            lemma_edges_insert(kids, idx as int, link, p[0], p.skip(1));
                            if p[0] == first {
                                if p == prefix@ {
                                    assert(p.skip(1) =~= tail@);
                                } else {
                                    assert(p.skip(1) != tail@) by {
                                        if p.skip(1) == tail@ {
                                            lemma_split_path(p);
                                        }
                                    }
                                }
                            }
                        } else {
                            assert(self.keys@ == t0.keys@);
                        }
                    }
                    lemma_edges_insert(kids, idx as int, link, first, tail@);
                    assert forall|i: int| 0 <= i < self.children@.len() implies trie_wf(
                        #[trigger] self.children@[i].child,
                    ) by {
                        if i < idx {
                            assert(self.children@[i] == kids[i]);
                        } else if i > idx {
                            assert(self.children@[i] == kids[i - 1]);
                        }
                    }
                }
            },
            Ok(idx) => {
                let ghost kids = self.children@;
                let mut link = self.children.remove(idx);
                let ghost link0 = link;
                assert(trie_wf(link.child));
                let common: usize = common_prefix_len(link.rest.as_slice(), tail);
                if common < link.rest.len() {
                    split_link(&mut link, common);
                }
                let ghost link1 = link;
                let sub = vstd::slice::slice_subrange(tail, common, tail.len());
                link.child.insert(sub, key);
                self.children.insert(idx, link);
                proof {
                    assert(self.children@ =~= kids.update(idx as int, link));
                    assert(starts(tail@, link1.rest@)) by {
                        assert(link1.rest@ =~= link0.rest@.take(common as int));
                        assert(tail@.take(common as int) =~= link0.rest@.take(common as int));
                    }
                    assert(link1.rest@.len() == common);
                    assert(sub@ =~= tail@.skip(common as int));
                    assert forall|q: Seq<u8>| edge_lookup(link, q) == if q == tail@ {
                        edge_lookup(link0, q).insert(key)
                    } else {
                        edge_lookup(link0, q)
                    } by {
                        if starts(q, link1.rest@) {
                            let r = q.skip(common as int);
                            if q == tail@ {
                            } else {
                                assert(r != sub@) by {
                                    if r == sub@ {
                                        assert(q =~= q.take(common as int) + r);
                                        assert(tail@ =~= tail@.take(common as int) + sub@);
                                    }
                                }
                            }
                        } else {
                            assert(q != tail@);
                        }
                    }
                    assert forall|p: Seq<u8>| lookup(*self, p) == if p == prefix@ {
                        lookup(t0, p).insert(key)
                    } else {
                        lookup(t0, p)
                    } by {
                        if p.len() > 0 {
                            lemma_lookup_step(*self, p);
                            lemma_lookup_step(t0, p);
                            lemma_edges_update(kids, idx as int, link, p[0], p.skip(1));
                            lemma_edge_unique(kids, idx as int);
                            if p[0] == first {
                                if p == prefix@ {
                                    assert(p.skip(1) =~= tail@);
                                } else {
                                    assert(p.skip(1) != tail@) by {
                                        if p.skip(1) == tail@ {
                                            lemma_split_path(p);
                                        }
                                    }
                                }
                            }
                        } else {
                            assert(self.keys@ == t0.keys@);
                        }
                    }
                    lemma_edges_update(kids, idx as int, link, first, tail@);
                    assert forall|i: int| 0 <= i < self.children@.len() implies trie_wf(
                        #[trigger] self.children@[i].child,
                    ) by {
                        if i != idx {
                            assert(self.children@[i] == kids[i]);
                        }
                    }
                }
            },
        }
    }
    /// Takes `key` out of the path `prefix`, dropping an edge that leads nowhere any more and
    /// joining edges around a node left with no key and one edge.
    fn remove(&mut self, prefix: &[u8], key: usize)
        requires
            trie_wf(*old(self)),
        ensures
            trie_wf(*final(self)),
            forall|p: Seq<u8>|
                lookup(*final(self), p) == if p == prefix@ {
                    lookup(*old(self), p).remove(key)
                } else {
                    lookup(*old(self), p)
                },
        decreases prefix@.len(),
    {
        let ghost t0 = *self;
        if prefix.len() == 0 {
            key_remove(&mut self.keys, key);
            proof {
                assert forall|p: Seq<u8>| lookup(*self, p) == if p == prefix@ {
                    lookup(t0, p).remove(key)
                } else {
                    lookup(t0, p)
                } by {
                    if p.len() > 0 {
                        lemma_lookup_step(*self, p);
                        lemma_lookup_step(t0, p);
                    } else {
                        assert(p =~= prefix@);
                    }
                }
                assert forall|i: int| 0 <= i < self.children@.len() implies trie_wf(
                    #[trigger] self.children@[i].child,
                ) by {
                    assert(self.children@[i] == t0.children@[i]);
                }
            }
            return;
        }
        let first: u8 = prefix[0];
        let tail = vstd::slice::slice_subrange(prefix, 1, prefix.len());
        proof {
            lemma_split_path(prefix@);
            assert(tail@ =~= prefix@.skip(1));
            lemma_lookup_step(t0, prefix@);
        }
        let idx = match self.find_child(first) {
            Ok(i) => i,
            Err(_) => {
                assert(lookup(t0, prefix@).remove(key) =~= lookup(t0, prefix@));
                return;
            },
        };
        let rest_len: usize = self.children[idx].rest.len();
        if tail.len() < rest_len {
            assert(lookup(t0, prefix@).remove(key) =~= lookup(t0, prefix@));
            return;
        }
        let begin = vstd::slice::slice_subrange(tail, 0, rest_len);
        if !same_bytes(begin, self.children[idx].rest.as_slice()) {
            assert(begin@ =~= tail@.take(rest_len as int));
            assert(lookup(t0, prefix@).remove(key) =~= lookup(t0, prefix@));
            return;
        }
        let rest_tail = vstd::slice::slice_subrange(tail, rest_len, tail.len());
        let ghost kids = self.children@;
        let mut link = self.children.remove(idx);
        let ghost link0 = link;
        assert(trie_wf(link.child));
        link.child.remove(rest_tail, key);
        let ghost link1 = link;
        proof {
            assert(begin@ =~= tail@.take(rest_len as int));
            assert(rest_tail@ =~= tail@.skip(rest_len as int));
            assert forall|q: Seq<u8>| edge_lookup(link1, q) == if q == tail@ {
                edge_lookup(link0, q).remove(key)
            } else {
                edge_lookup(link0, q)
            } by {
                if starts(q, link0.rest@) {
                    let r = q.skip(rest_len as int);
                    if q != tail@ {
                        assert(r != rest_tail@) by {
                            if r == rest_tail@ {
                                assert(q =~= q.take(rest_len as int) + r);
                                assert(tail@ =~= tail@.take(rest_len as int) + rest_tail@);
                            }
                        }
                    }
                }
            }
        }
        if link.child.keys.len() == 0 && link.child.children.len() == 0 {
            proof {
                assert(self.children@ =~= kids.remove(idx as int));
                assert forall|q: Seq<u8>| edge_lookup(link1, q) == Set::<usize>::empty() by {
                    if starts(q, link1.rest@) {
                        lemma_lookup_empty(link1.child, q.skip(rest_len as int));
                    }
                }
                assert forall|p: Seq<u8>| lookup(*self, p) == if p == prefix@ {
                    lookup(t0, p).remove(key)
                } else {
                    lookup(t0, p)
                } by {
                    if p.len() > 0 {
                        lemma_lookup_step(*self, p);
                        lemma_lookup_step(t0, p);
                        lemma_edges_remove(kids, idx as int, p[0], p.skip(1));
                        lemma_edge_unique(kids, idx as int);
                        assert(kids[idx as int] == link0);
                        assert(edge_lookup(link1, p.skip(1)) == Set::<usize>::empty());
                        if p[0] == first {
                            if p == prefix@ {
                                assert(p.skip(1) =~= tail@);
                            } else {
                                assert(p.skip(1) != tail@) by {
                                    if p.skip(1) == tail@ {
                                        lemma_split_path(p);
                                    }
                                }
                            }
                        }
                    } else {
                        assert(self.keys@ == t0.keys@);
                    }
                }
                lemma_edges_remove(kids, idx as int, first, tail@);
                assert forall|i: int| 0 <= i < self.children@.len() implies trie_wf(
                    #[trigger] self.children@[i].child,
                ) by {
                    if i < idx {
                        assert(self.children@[i] == kids[i]);
                    } else {
                        assert(self.children@[i] == kids[i + 1]);
                    }
                }
            }
        } else {
            try_compact_link(&mut link);
            self.children.insert(idx, link);
            proof {
                assert(self.children@ =~= kids.update(idx as int, link));
                assert forall|p: Seq<u8>| lookup(*self, p) == if p == prefix@ {
                    lookup(t0, p).remove(key)
                } else {
                    lookup(t0, p)
                } by {
                    if p.len() > 0 {
                        lemma_lookup_step(*self, p);
                        lemma_lookup_step(t0, p);
                        lemma_edges_update(kids, idx as int, link, p[0], p.skip(1));
                        lemma_edge_unique(kids, idx as int);
                        if p[0] == first {
                            if p == prefix@ {
                                assert(p.skip(1) =~= tail@);
                            } else {
                                assert(p.skip(1) != tail@) by {
                                    if p.skip(1) == tail@ {
                                        lemma_split_path(p);
                                    }
                                }
                            }
                        }
                    } else {
                        assert(self.keys@ == t0.keys@);
                    }
                }
                lemma_edges_update(kids, idx as int, link, first, tail@);
                assert forall|i: int| 0 <= i < self.children@.len() implies trie_wf(
                    #[trigger] self.children@[i].child,
                ) by {
                    if i != idx {
                        assert(self.children@[i] == kids[i]);
                    }
                }
            }
        }
    }
    /// The keys stored at the paths that are prefixes of `input`, in increasing order.
    fn collect_prefix_matches(&self, input: &[u8]) -> (r: Vec<usize>)
        requires
            trie_wf(*self),
        ensures
            increasing(r@),
            r@.to_set() == covered(*self, input@, input@.len() + 1int),
    {
        let mut result: Vec<usize> = Vec::new();
        let mut node = self;
        let mut pos: usize = 0;
        proof {
            assert(result@.to_set() =~= covered(*self, input@, 0));
            assert forall|q: Seq<u8>| lookup(*node, q) == lookup(*self, input@.take(0) + q) by {
                assert(input@.take(0) + q =~= q);
            }
        }
        loop
            invariant
                trie_wf(*self),
                trie_wf(*node),
                pos <= input@.len(),
                forall|q: Seq<u8>| lookup(*node, q) == lookup(*self, input@.take(pos as int) + q),
                increasing(result@),
                result@.to_set() == covered(*self, input@, pos as int),
            ensures
                increasing(result@),
                result@.to_set() == covered(*self, input@, input@.len() + 1int),
            decreases input@.len() - pos,
        {
            let ghost before = result@.to_set();
            let mut i: usize = 0;
            while i < node.keys.len()
                invariant
                    i <= node.keys@.len(),
                    increasing(result@),
                    result@.to_set() == before.union(node.keys@.take(i as int).to_set()),
                decreases node.keys@.len() - i,
            {
                key_insert(&mut result, node.keys[i]);
                proof {
                    assert(node.keys@.take(i + 1) =~= node.keys@.take(i as int).push(
                        node.keys@[i as int],
                    ));
                    node.keys@.take(i as int).lemma_push_to_set_commute(node.keys@[i as int]);
                    assert(result@.to_set() =~= before.union(node.keys@.take(i + 1).to_set()));
                }
                i = i + 1;
            }
            proof {
                assert(node.keys@.take(node.keys@.len() as int) =~= node.keys@);
                assert(lookup(*node, Seq::<u8>::empty()) == lookup(
                    *self,
                    input@.take(pos as int) + Seq::<u8>::empty(),
                ));
                assert(input@.take(pos as int) + Seq::<u8>::empty() =~= input@.take(pos as int));
                assert(result@.to_set() =~= covered(*self, input@, pos + 1)) by {
                    assert forall|k: usize| covered(*self, input@, pos + 1).contains(k) implies result@.to_set().contains(k) by {
                        let j = choose|j: int|
                            0 <= j < pos + 1 && #[trigger] lookup(*self, input@.take(j)).contains(k);
                        if j < pos {
                            assert(covered(*self, input@, pos as int).contains(k));
                        }
                    }
                    assert forall|k: usize| result@.to_set().contains(k) implies covered(*self, input@, pos + 1).contains(k) by {
                        if before.contains(k) {
                            let j = choose|j: int|
                                0 <= j < pos && #[trigger] lookup(*self, input@.take(j)).contains(k);
                        } else {
                            assert(lookup(*self, input@.take(pos as int)).contains(k));
                        }
                    }
                }
            }
            if pos == input.len() {
                return result;
            }
            let b: u8 = input[pos];
            let ghost here = input@.take(pos as int);
            // Every longer prefix of the input goes through the edge of `b` from this node.
            proof {
                assert forall|j: int| pos < j <= input@.len() implies #[trigger] lookup(*self, input@.take(j))
                    == edges_lookup(node.children@, b, input@.subrange(pos + 1, j)) by {
                    let q = input@.subrange(pos as int, j);
                    assert(input@.take(j) =~= here + q);
                    lemma_lookup_step(*node, q);
                    assert(q.skip(1) =~= input@.subrange(pos + 1, j));
                }
            }
            let idx = match node.find_child(b) {
                Ok(i) => i,
                Err(_) => {
                    proof {
                        assert(result@.to_set() =~= covered(*self, input@, input@.len() + 1int)) by {
                            assert forall|k: usize| covered(*self, input@, input@.len() + 1int).contains(k) implies result@.to_set().contains(k) by {
                                let j = choose|j: int|
                                    0 <= j < input@.len() + 1 && #[trigger] lookup(*self, input@.take(j)).contains(k);
                                if j > pos {
                                    assert(lookup(*self, input@.take(j)) == edges_lookup(node.children@, b, input@.subrange(pos + 1, j)));
                                }
                            }
                        }
                    }
                    return result;
                },
            };
            let link = &node.children[idx];
            let rl: usize = link.rest.len();
            let fits = input.len() - (pos + 1) >= rl;
            let same = fits && same_bytes(
                vstd::slice::slice_subrange(input, pos + 1, pos + 1 + rl),
                link.rest.as_slice(),
            );
            proof {
                // The prefixes that end inside the edge, or leave it, lead nowhere.
                assert forall|j: int| pos < j <= input@.len() && (j < pos + 1 + rl || !same) implies #[trigger] lookup(*self, input@.take(j))
                    == Set::<usize>::empty() by {
                    let q1 = input@.subrange(pos + 1, j);
                    assert(lookup(*self, input@.take(j)) == edges_lookup(node.children@, b, q1));
                    if starts(q1, link.rest@) {
                        assert(j >= pos + 1 + rl);
                        assert(fits);
                        assert(input@.subrange(pos + 1, pos + 1 + rl) =~= q1.take(rl as int));
                    }
                }
            }
            if !same {
                proof {
                    assert(result@.to_set() =~= covered(*self, input@, input@.len() + 1int)) by {
                        assert forall|k: usize| covered(*self, input@, input@.len() + 1int).contains(k) implies result@.to_set().contains(k) by {
                            let j = choose|j: int|
                                0 <= j < input@.len() + 1 && #[trigger] lookup(*self, input@.take(j)).contains(k);
                            if j > pos {
                                assert(lookup(*self, input@.take(j)) == Set::<usize>::empty());
                            }
                        }
                    }
                }
                return result;
            }
            let ghost old_node = *node;
            let ghost old_pos = pos;
            pos = pos + 1 + rl;
            node = &link.child;
            proof {
                assert(trie_wf(*node)) by {
                    assert(old_node.children@[idx as int].child == *node);
                }
                assert forall|q: Seq<u8>| lookup(*node, q) == lookup(*self, input@.take(pos as int) + q) by {
                    let rest = old_node.children@[idx as int].rest@;
                    lemma_lookup_edge(old_node, idx as int, rest + q);
                    assert((rest + q).take(rest.len() as int) =~= rest);
                    assert((rest + q).skip(rest.len() as int) =~= q);
                    assert(input@.take(old_pos as int) + (seq![b] + (rest + q)) =~= input@.take(pos as int) + q) by {
                        assert(input@.subrange(old_pos + 1, pos as int) =~= rest);
                        assert(input@.take(pos as int) =~= input@.take(old_pos as int) + seq![b] + input@.subrange(old_pos + 1, pos as int));
                    }
                }
                assert(result@.to_set() =~= covered(*self, input@, pos as int)) by {
                    assert forall|k: usize| covered(*self, input@, pos as int).contains(k) implies result@.to_set().contains(k) by {
                        let j = choose|j: int|
                            0 <= j < pos && #[trigger] lookup(*self, input@.take(j)).contains(k);
                        if j > old_pos {
                            assert(lookup(*self, input@.take(j)) == Set::<usize>::empty());
                        }
                    }
                }
            }
        }
    }
}

/// A list of byte strings, in mathematical form.
pub open spec fn bytes_list(v: Seq<Vec<u8>>) -> Seq<Seq<u8>> {
    v.map_values(|x: Vec<u8>| x@)
}

/// The routes of a prefilter: each key's prefixes, in mathematical form.
pub open spec fn routes_view(m: Map<usize, Vec<Vec<u8>>>) -> Map<usize, Seq<Seq<u8>>> {
    m.map_values(|v: Vec<Vec<u8>>| bytes_list(v@))
}

/// The keys of the routes one of whose prefixes starts `bytes`.
pub open spec fn possible_keys(routes: Map<usize, Seq<Seq<u8>>>, bytes: Seq<u8>) -> Set<usize> {
    Set::new(
        |k: usize|
            routes.contains_key(k) && exists|i: int|
                0 <= i < routes[k].len() && #[trigger] starts(bytes, routes[k][i]),
    )
}

pub(crate) fn copy_prefixes(v: &Vec<Vec<u8>>) -> (r: Vec<Vec<u8>>)
    ensures
        bytes_list(r@) == bytes_list(v@),
{
    let mut r: Vec<Vec<u8>> = Vec::new();
    let mut i: usize = 0;
    while i < v.len()
        invariant
            i <= v@.len(),
            r@.len() == i,
            bytes_list(r@) == bytes_list(v@).take(i as int),
        decreases v@.len() - i,
    {
        let ghost before = r@;
        r.push(vstd::slice::slice_to_vec(v[i].as_slice()));
        proof {
            assert(r@[i as int]@ == v@[i as int]@);
            assert forall|j: int| 0 <= j < i + 1 implies bytes_list(r@)[j] == bytes_list(v@).take(
                i + 1,
            )[j] by {
                if j < i {
                    assert(r@[j] == before[j]);
                    assert(bytes_list(before)[j] == bytes_list(v@).take(i as int)[j]);
                }
            }
        }
        i = i + 1;
        assert(bytes_list(r@) =~= bytes_list(v@).take(i as int));
    }
    assert(bytes_list(v@).take(v@.len() as int) =~= bytes_list(v@));
    r
}

/// Matcher keys indexed by the prefixes that a value must start with for them to match.
///
/// Each key has a list of prefixes; checking a value gives the keys one of whose prefixes
/// starts it.
#[derive(Debug)]
pub struct InnerPrefilter {
    prefix_map: RadixTrie,
    key_to_prefixes: BTreeMap<usize, Vec<Vec<u8>>>,
}

/// The trie stores a key at a path exactly when the key's list holds that path.
spec fn index_agrees(t: RadixTrie, m: Map<usize, Vec<Vec<u8>>>) -> bool {
    forall|p: Seq<u8>, k: usize|
        #[trigger] lookup(t, p).contains(k) <==> (m.contains_key(k) && bytes_list(
            m[k]@,
        ).contains(p))
}

impl InnerPrefilter {
    #[verifier::type_invariant]
    spec fn inv(self) -> bool {
        trie_wf(self.prefix_map) && index_agrees(self.prefix_map, self.key_to_prefixes@)
    }

    /// The prefixes of each key.
    pub closed spec fn spec_routes(&self) -> Map<usize, Seq<Seq<u8>>> {
        routes_view(self.key_to_prefixes@)
    }

    /// An empty prefilter.
    pub fn new() -> (r: InnerPrefilter)
        ensures
            r.spec_routes() == Map::<usize, Seq<Seq<u8>>>::empty(),
    {
        let t = RadixTrie::new();
        let m: BTreeMap<usize, Vec<Vec<u8>>> = BTreeMap::new();
        let r = InnerPrefilter { prefix_map: t, key_to_prefixes: m };
        assert(r.spec_routes() =~= Map::<usize, Seq<Seq<u8>>>::empty());
        r
    }

    /// Whether no key is stored.
    pub fn is_empty(&self) -> (r: bool)
        ensures
            r == self.spec_routes().is_empty(),
    {
        self.key_to_prefixes.is_empty()
    }

    /// The number of keys stored.
    pub fn num_routes(&self) -> (r: usize)
        ensures
            r == self.spec_routes().len(),
    {
        assert(self.spec_routes().dom() =~= self.key_to_prefixes@.dom());
        self.key_to_prefixes.len()
    }

    fn into_parts(&mut self) -> (r: (RadixTrie, BTreeMap<usize, Vec<Vec<u8>>>))
        ensures
            trie_wf(r.0),
            index_agrees(r.0, r.1@),
            r.1@ == old(self).key_to_prefixes@,
            final(self).spec_routes() == Map::<usize, Seq<Seq<u8>>>::empty(),
    {
        let mut this = InnerPrefilter::new();
        std::mem::swap(&mut this, self);
        proof {
            use_type_invariant(&this);
        }
        let InnerPrefilter { prefix_map, key_to_prefixes } = this;
        (prefix_map, key_to_prefixes)
    }

    /// Stores `key` with the given prefixes, in place of any it had.
    pub fn insert(&mut self, key: usize, prefixes: Vec<Vec<u8>>)
        ensures
            final(self).spec_routes() == old(self).spec_routes().insert(
                key,
                bytes_list(prefixes@),
            ),
    {
        let (mut trie, mut map) = self.into_parts();
        let ghost m0 = map@;
        let ghost t0 = trie;
        let old_prefixes = map.insert(key, copy_prefixes(&prefixes));
        if let Some(olds) = old_prefixes {
            assert(bytes_list(olds@).skip(0) =~= bytes_list(olds@));
            let mut i: usize = 0;
            while i < olds.len()
                invariant
                    i <= olds@.len(),
                    trie_wf(trie),
                    m0.contains_key(key) && m0[key] == olds,
                    index_agrees(t0, m0),
                    forall|p: Seq<u8>, k: usize|
                        k != key ==> #[trigger] lookup(trie, p).contains(k) == lookup(
                            t0,
                            p,
                        ).contains(k),
                    forall|p: Seq<u8>|
                        #[trigger] lookup(trie, p).contains(key) ==> bytes_list(olds@).skip(
                            i as int,
                        ).contains(p),
                decreases olds@.len() - i,
            {
                let ghost before = trie;
                trie.remove(olds[i].as_slice(), key);
                proof {
                    assert forall|p: Seq<u8>| #[trigger]
                        lookup(trie, p).contains(key) implies bytes_list(olds@).skip(
                        i + 1,
                    ).contains(p) by {
                        assert(p != olds@[i as int]@);
                        let j = choose|j: int|
                            0 <= j < bytes_list(olds@).skip(i as int).len() && bytes_list(
                                olds@,
                            ).skip(i as int)[j] == p;
                        assert(j != 0);
                        assert(bytes_list(olds@).skip(i + 1)[j - 1] == p);
                    }
                }
                i = i + 1;
            }
        }
        let ghost t1 = trie;
        proof {
            if old_prefixes is None {
                assert forall|p: Seq<u8>| !#[trigger] lookup(trie, p).contains(key) by {}
            } else {
                assert forall|p: Seq<u8>| !#[trigger] lookup(trie, p).contains(key) by {
                    if lookup(trie, p).contains(key) {
                        let ol = bytes_list(old_prefixes->0@);
                        assert(ol.skip(ol.len() as int).len() == 0);
                    }
                }
            }
        }
        let mut i: usize = 0;
        while i < prefixes.len()
            invariant
                i <= prefixes@.len(),
                trie_wf(trie),
                forall|p: Seq<u8>, k: usize|
                    k != key ==> #[trigger] lookup(trie, p).contains(k) == lookup(t1, p).contains(
                        k,
                    ),
                forall|p: Seq<u8>|
                    #[trigger] lookup(trie, p).contains(key) <==> bytes_list(prefixes@).take(
                        i as int,
                    ).contains(p),
            decreases prefixes@.len() - i,
        {
            let ghost before = trie;
            trie.insert(prefixes[i].as_slice(), key);
            proof {
                let np = bytes_list(prefixes@);
                assert forall|p: Seq<u8>| #[trigger]
                    lookup(trie, p).contains(key) <==> np.take(i + 1).contains(p) by {
                    assert(lookup(before, p).contains(key) <==> np.take(i as int).contains(p));
                    assert(np[i as int] == prefixes@[i as int]@);
                    assert(np.take(i + 1)[i as int] == np[i as int]);
                    assert(np.take(i + 1) =~= np.take(i as int).push(np[i as int]));
                    if np.take(i as int).contains(p) {
                        let w = np.take(i as int);
                        let j = choose|j: int| 0 <= j < w.len() && w[j] == p;
                        assert(np.take(i + 1)[j] == p);
                    }
                    if np.take(i + 1).contains(p) && p != np[i as int] {
                        let w = np.take(i + 1);
                        let j = choose|j: int| 0 <= j < w.len() && w[j] == p;
                        assert(j < i);
                        assert(np.take(i as int)[j] == p);
                    }
                }
            }
            i = i + 1;
        }
        proof {
            let np = bytes_list(prefixes@);
            assert(np.take(prefixes@.len() as int) =~= np);
            assert(index_agrees(trie, map@)) by {
                assert forall|p: Seq<u8>, k: usize| #[trigger]
                    lookup(trie, p).contains(k) <==> (map@.contains_key(k) && bytes_list(
                        map@[k]@,
                    ).contains(p)) by {
                    if k != key {
                        assert(lookup(t1, p).contains(k) == lookup(t0, p).contains(k));
                    }
                }
            }
        }
        *self = InnerPrefilter { prefix_map: trie, key_to_prefixes: map };
        proof {
            assert(self.spec_routes() =~= old(self).spec_routes().insert(
                key,
                bytes_list(prefixes@),
            ));
        }
    }

    /// Takes a key and its prefixes out.
    pub fn remove(&mut self, key: &usize)
        ensures
            final(self).spec_routes() == old(self).spec_routes().remove(*key),
    {
        let (mut trie, mut map) = self.into_parts();
        let ghost m0 = map@;
        let ghost t0 = trie;
        let removed = map.remove(key);
        if let Some(olds) = removed {
            assert(bytes_list(olds@).skip(0) =~= bytes_list(olds@));
            let mut i: usize = 0;
            while i < olds.len()
                invariant
                    i <= olds@.len(),
                    trie_wf(trie),
                    m0.contains_key(*key) && m0[*key] == olds,
                    index_agrees(t0, m0),
                    forall|p: Seq<u8>, k: usize|
                        k != *key ==> #[trigger] lookup(trie, p).contains(k) == lookup(
                            t0,
                            p,
                        ).contains(k),
                    forall|p: Seq<u8>|
                        #[trigger] lookup(trie, p).contains(*key) ==> bytes_list(olds@).skip(
                            i as int,
                        ).contains(p),
                decreases olds@.len() - i,
            {
                trie.remove(olds[i].as_slice(), *key);
                proof {
                    assert forall|p: Seq<u8>| #[trigger]
                        lookup(trie, p).contains(*key) implies bytes_list(olds@).skip(
                        i + 1,
                    ).contains(p) by {
                        assert(p != olds@[i as int]@);
                        let j = choose|j: int|
                            0 <= j < bytes_list(olds@).skip(i as int).len() && bytes_list(
                                olds@,
                            ).skip(i as int)[j] == p;
                        assert(j != 0);
                        assert(bytes_list(olds@).skip(i + 1)[j - 1] == p);
                    }
                }
                i = i + 1;
            }
            proof {
                assert(index_agrees(trie, map@)) by {
                    assert forall|p: Seq<u8>, k: usize| #[trigger]
                        lookup(trie, p).contains(k) <==> (map@.contains_key(k) && bytes_list(
                            map@[k]@,
                        ).contains(p)) by {
                        if k == *key && lookup(trie, p).contains(k) {
                            let ol = bytes_list(olds@);
                            assert(ol.skip(ol.len() as int).len() == 0);
                        }
                    }
                }
            }
        } else {
            assert(map@ == m0);
        }
        *self = InnerPrefilter { prefix_map: trie, key_to_prefixes: map };
        proof {
            assert(self.spec_routes() =~= old(self).spec_routes().remove(*key));
        }
    }

    /// Forgets every key.
    pub fn clear(&mut self)
        ensures
            final(self).spec_routes() == Map::<usize, Seq<Seq<u8>>>::empty(),
    {
        *self = InnerPrefilter::new();
    }

    /// The keys one of whose prefixes starts `bytes`, in increasing order.
    pub fn check(&self, bytes: &[u8]) -> (r: Vec<usize>)
        ensures
            increasing(r@),
            r@.to_set() == possible_keys(self.spec_routes(), bytes@),
    {
        proof {
            use_type_invariant(self);
        }
        let r = self.prefix_map.collect_prefix_matches(bytes);
        proof {
            let routes = self.spec_routes();
            let m = self.key_to_prefixes@;
            assert forall|k: usize| r@.to_set().contains(k) <==> possible_keys(routes, bytes@).contains(k) by {
                if r@.to_set().contains(k) {
                    let j = choose|j: int|
                        0 <= j < bytes@.len() + 1 && #[trigger] lookup(self.prefix_map, bytes@.take(j)).contains(k);
                    let p = bytes@.take(j);
                    assert(bytes_list(m[k]@).contains(p));
                    let x = choose|x: int| 0 <= x < bytes_list(m[k]@).len() && bytes_list(m[k]@)[x] == p;
                    assert(routes[k][x] == p);
                    assert(starts(bytes@, routes[k][x]));
                }
                if possible_keys(routes, bytes@).contains(k) {
                    let x = choose|x: int| 0 <= x < routes[k].len() && #[trigger] starts(bytes@, routes[k][x]);
                    let p = routes[k][x];
                    assert(bytes_list(m[k]@)[x] == p);
                    assert(bytes_list(m[k]@).contains(p));
                    assert(lookup(self.prefix_map, bytes@.take(p.len() as int)).contains(k));
                    assert(covered(self.prefix_map, bytes@, bytes@.len() + 1int).contains(k));
                }
            }
            assert(r@.to_set() =~= possible_keys(routes, bytes@));
        }
        r
    }
}

/// After a key is stored with some prefixes, checking a value gives the key exactly when one
/// of those prefixes starts the value, and gives every other key as before.
pub proof fn law_check_after_insert(
    routes: Map<usize, Seq<Seq<u8>>>,
    key: usize,
    prefixes: Seq<Seq<u8>>,
    bytes: Seq<u8>,
)
    ensures
        possible_keys(routes.insert(key, prefixes), bytes).contains(key) <==> exists|i: int|
            0 <= i < prefixes.len() && #[trigger] starts(bytes, prefixes[i]),
        forall|k: usize|
            k != key ==> (possible_keys(routes.insert(key, prefixes), bytes).contains(k)
                <==> possible_keys(routes, bytes).contains(k)),
{
    let m = routes.insert(key, prefixes);
    assert(m[key] == prefixes);
    assert forall|k: usize| k != key implies (possible_keys(m, bytes).contains(k)
        <==> possible_keys(routes, bytes).contains(k)) by {
        assert(m.contains_key(k) == routes.contains_key(k));
        if routes.contains_key(k) {
            assert(m[k] == routes[k]);
        }
    }
}

/// After a key is taken out, checking a value never gives it, and gives every other key as
/// before.
pub proof fn law_check_after_remove(routes: Map<usize, Seq<Seq<u8>>>, key: usize, bytes: Seq<u8>)
    ensures
        !possible_keys(routes.remove(key), bytes).contains(key),
        forall|k: usize|
            k != key ==> (possible_keys(routes.remove(key), bytes).contains(k)
                <==> possible_keys(routes, bytes).contains(k)),
{
    let m = routes.remove(key);
    assert forall|k: usize| k != key implies (possible_keys(m, bytes).contains(k)
        <==> possible_keys(routes, bytes).contains(k)) by {
        assert(m.contains_key(k) == routes.contains_key(k));
        if routes.contains_key(k) {
            assert(m[k] == routes[k]);
        }
    }
}

} // verus!
