use vstd::prelude::*;
use crate::ast::Type;
use crate::strmap::StrMap;
use crate::text::chars_of;

verus! {

/// The fields known to a router, with their types. A field named `a.*` gives its type to
/// every field `a.x` whose last component `x` has no dot.
#[derive(Debug)]
pub struct Schema {
    fields: StrMap<Type>,
}

/// Position of the last occurrence of `c` in `s`.
pub open spec fn last_index_of(s: Seq<char>, c: char) -> Option<int>
    decreases s.len(),
{
    if s.len() == 0 {
        None
    } else if s.last() == c {
        Some(s.len() - 1)
    } else {
        last_index_of(s.drop_last(), c)
    }
}

/// The wildcard entry that covers a field: everything before its last dot, then `.*`.
pub open spec fn wildcard_key(field: Seq<char>) -> Option<Seq<char>> {
    match last_index_of(field, '.') {
        Some(i) => Some(field.take(i) + seq!['.', '*']),
        None => None,
    }
}

/// The type of a field in a map of declared fields: its own entry, else the entry of its
/// wildcard.
pub open spec fn field_type(fields: Map<Seq<char>, Type>, field: Seq<char>) -> Option<Type> {
    if fields.contains_key(field) {
        Some(fields[field])
    } else {
        match wildcard_key(field) {
            Some(k) => if fields.contains_key(k) {
                Some(fields[k])
            } else {
                None
            },
            None => None,
        }
    }
}

proof fn lemma_last_index_of(s: Seq<char>, c: char)
    ensures
        last_index_of(s, c) matches Some(i) ==> 0 <= i < s.len() && s[i] == c && forall|j: int|
            i < j < s.len() ==> s[j] != c,
        last_index_of(s, c) is None ==> forall|j: int| 0 <= j < s.len() ==> s[j] != c,
    decreases s.len(),
{
    if s.len() > 0 {
        lemma_last_index_of(s.drop_last(), c);
        assert(forall|j: int| 0 <= j < s.len() - 1 ==> s.drop_last()[j] == s[j]);
    }
}

/// Finds the last position of `c` in `s`.
fn find_last(s: &[char], c: char) -> (r: Option<usize>)
    ensures
        r matches Some(i) ==> last_index_of(s@, c) == Some(i as int),
        r is None ==> last_index_of(s@, c) is None,
{
    let mut i = s.len();
    while i > 0
        invariant
            i <= s@.len(),
            forall|j: int| i <= j < s@.len() ==> s@[j] != c,
        decreases i,
    {
        if s[i - 1] == c {
            proof {
                lemma_unique_last(s@, c, i - 1);
            }
            return Some(i - 1);
        }
        i = i - 1;
    }
    proof {
        lemma_last_index_of(s@, c);
        if let Some(k) = last_index_of(s@, c) {
            assert(s@[k] == c);
        }
    }
    None
}

proof fn lemma_unique_last(s: Seq<char>, c: char, i: int)
    requires
        0 <= i < s.len(),
        s[i] == c,
        forall|j: int| i < j < s.len() ==> s[j] != c,
    ensures
        last_index_of(s, c) == Some(i),
    decreases s.len(),
{
    if i < s.len() - 1 {
        lemma_unique_last(s.drop_last(), c, i);
        assert(s.last() != c);
    }
}

impl View for Schema {
    type V = Map<Seq<char>, Type>;

    closed spec fn view(&self) -> Map<Seq<char>, Type> {
        self.fields@
    }
}

impl Schema {
    /// An empty schema.
    pub fn new() -> (s: Schema)
        ensures
            s@ == Map::<Seq<char>, Type>::empty(),
    {
        Schema { fields: StrMap::new() }
    }

    /// The type that this schema gives to a field.
    pub open spec fn spec_type_of(&self, field: Seq<char>) -> Option<Type> {
        field_type(self@, field)
    }

    /// The type that this schema gives to a field: its own entry, else that of the
    /// wildcard `prefix.*` where `prefix` is everything before the field's last dot.
    pub fn type_of(&self, field: &str) -> (r: Option<Type>)
        ensures
            r == self.spec_type_of(field@),
    {
        let f = chars_of(field);
        if let Some(t) = self.fields.get_chars(f.as_slice()) {
            return Some(*t);
        }
        match find_last(f.as_slice(), '.') {
            Some(i) => {
                proof {
                    lemma_last_index_of(f@, '.');
                }
                let mut k: Vec<char> = Vec::new();
                let mut j: usize = 0;
                while j < i
                    invariant
                        i < f@.len(),
                        j <= i,
                        k@ == f@.take(j as int),
                    decreases i - j,
                {
                    k.push(f[j]);
                    j = j + 1;
                    assert(k@ == f@.take(j as int));
                }
                k.push('.');
                k.push('*');
                assert(k@ == f@.take(i as int) + seq!['.', '*']);
                match self.fields.get_chars(k.as_slice()) {
                    Some(t) => Some(*t),
                    None => None,
                }
            },
            None => None,
        }
    }

    /// Declares a field with its type, replacing any earlier type of that name.
    pub fn add_field(&mut self, field: &str, typ: Type)
        ensures
            final(self)@ == old(self)@.insert(field@, typ),
    {
        self.fields.insert(field.to_owned(), typ);
    }

    /// The number of declared field names.
    pub fn len(&self) -> (n: usize)
        ensures
            n == self@.dom().len(),
    {
        self.fields.len()
    }
}

impl Default for Schema {
    fn default() -> (s: Schema)
        ensures
            s@ == Map::<Seq<char>, Type>::empty(),
    {
        Schema::new()
    }
}

/// Declaring a field gives it the declared type.
pub proof fn law_declared_field_has_its_type(fields: Map<Seq<char>, Type>, field: Seq<char>, typ: Type)
    ensures
        field_type(fields.insert(field, typ), field) == Some(typ),
{
}

} // verus!
