use vstd::prelude::*;
use crate::ast::{MatchedValue, MatchedValueV, Type, Value, ValueV, type_of_value};
use crate::schema::Schema;
use crate::strmap::StrMap;
use crate::text::chars_of;

verus! {

/// The outcome of a successful match: the matcher's id, what each field matched, and the
/// texts of the regular expression groups.
#[derive(Debug)]
pub struct Match {
    pub uuid: u128,
    pub matches: StrMap<MatchedValue>,
    pub captures: StrMap<String>,
}

/// The mathematical form of a [`Match`].
pub struct MatchV {
    pub uuid: u128,
    pub matches: Map<Seq<char>, MatchedValueV>,
    pub captures: Map<Seq<char>, Seq<char>>,
}

impl View for Match {
    type V = MatchV;

    open spec fn view(&self) -> MatchV {
        MatchV {
            uuid: self.uuid,
            matches: self.matches@.map_values(|m: MatchedValue| m@),
            captures: self.captures@.map_values(|s: String| s@),
        }
    }
}

/// A match record with nothing in it.
pub open spec fn empty_match() -> MatchV {
    MatchV { uuid: 0, matches: Map::empty(), captures: Map::empty() }
}

impl Match {
    /// An empty match with the nil id.
    pub fn new() -> (m: Match)
        ensures
            m@ == empty_match(),
    {
        let m = Match { uuid: 0, matches: StrMap::new(), captures: StrMap::new() };
        assert(m@.matches =~= Map::<Seq<char>, MatchedValueV>::empty());
        assert(m@.captures =~= Map::<Seq<char>, Seq<char>>::empty());
        m
    }

    /// Forgets everything recorded.
    pub fn reset(&mut self)
        ensures
            final(self)@ == empty_match(),
    {
        self.uuid = 0;
        self.matches.clear();
        self.captures.clear();
        assert(self@.matches =~= Map::<Seq<char>, MatchedValueV>::empty());
        assert(self@.captures =~= Map::<Seq<char>, Seq<char>>::empty());
    }
}

/// The values provided for a match, by field, checked against a schema.
#[derive(Debug)]
pub struct Context<'a> {
    pub schema: &'a Schema,
    pub values: StrMap<Vec<Value>>,
    pub result: Option<Match>,
}

/// The mathematical form of a list of values.
pub open spec fn values_view(v: Seq<Value>) -> Seq<ValueV> {
    v.map_values(|x: Value| x@)
}

/// The values held for a field: none when the field has no entry.
pub open spec fn values_at(m: Map<Seq<char>, Seq<ValueV>>, field: Seq<char>) -> Seq<ValueV> {
    if m.contains_key(field) {
        m[field]
    } else {
        Seq::empty()
    }
}

impl<'a> Context<'a> {
    /// The values provided, by field.
    pub open spec fn spec_values(&self) -> Map<Seq<char>, Seq<ValueV>> {
        self.values@.map_values(|v: Vec<Value>| values_view(v@))
    }

    /// The schema that the values are checked against.
    pub open spec fn spec_schema(&self) -> Map<Seq<char>, Type> {
        self.schema@
    }

    /// An empty context for a schema.
    pub fn new(schema: &'a Schema) -> (c: Context<'a>)
        ensures
            c.spec_values() == Map::<Seq<char>, Seq<ValueV>>::empty(),
            c.spec_schema() == schema@,
            c.result is None,
    {
        let c = Context { schema, values: StrMap::new(), result: None };
        assert(c.spec_values() =~= Map::<Seq<char>, Seq<ValueV>>::empty());
        c
    }

    /// The schema of this context.
    pub fn schema(&self) -> (s: &'a Schema)
        ensures
            s@ == self.spec_schema(),
    {
        self.schema
    }

    /// Adds a value for a field, after the values already given for it. The field must be
    /// declared with the value's type.
    pub fn add_value(&mut self, field: &str, value: Value)
        requires
            field_type_is(old(self).spec_schema(), field@, type_of_value(value@)),
        ensures
            final(self).spec_values() == old(self).spec_values().insert(
                field@,
                values_at(old(self).spec_values(), field@).push(value@),
            ),
            final(self).spec_schema() == old(self).spec_schema(),
            final(self).result == old(self).result,
    {
        let key = chars_of(field);
        let ghost old_vals = self.spec_values();
        let ghost vv = value@;
        let mut list = match self.values.remove(key.as_slice()) {
            Some(v) => v,
            None => Vec::new(),
        };
        let ghost before = values_view(list@);
        assert(before == values_at(old_vals, field@));
        list.push(value);
        assert(values_view(list@) == before.push(vv));
        self.values.insert(field.to_owned(), list);
        assert(self.spec_values() =~= old_vals.insert(field@, before.push(vv)));
    }

    /// The values given for a field, if any.
    pub fn value_of(&self, field: &str) -> (r: Option<&[Value]>)
        ensures
            r is Some <==> self.spec_values().contains_key(field@),
            r matches Some(s) ==> values_view(s@) == self.spec_values()[field@],
    {
        match self.values.get(field) {
            Some(v) => Some(v.as_slice()),
            None => None,
        }
    }

    /// Forgets all values and the result, keeping the schema.
    pub fn reset(&mut self)
        ensures
            final(self).spec_values() == Map::<Seq<char>, Seq<ValueV>>::empty(),
            final(self).spec_schema() == old(self).spec_schema(),
            final(self).result is None,
    {
        self.values.clear();
        self.result = None;
        assert(self.spec_values() =~= Map::<Seq<char>, Seq<ValueV>>::empty());
    }
}

/// A schema gives a field the type `t`.
pub open spec fn field_type_is(fields: Map<Seq<char>, Type>, field: Seq<char>, t: Type) -> bool {
    crate::schema::field_type(fields, field) == Some(t)
}

} // verus!
