//! Dynamically typed values and their mathematical model.
use vstd::prelude::*;

use crate::key_map::{entries_view, has_key, key_index, lemma_map_of_index, map_of, sorted_keys, KeyMap};

verus! {

/// The model of a value: objects are maps from keys to values.
pub enum SpecValue {
    Null,
    Boolean(bool),
    Integer(int),
    Bytes(Seq<u8>),
    Array(Seq<SpecValue>),
    Object(Map<Seq<char>, SpecValue>),
}

/// A dynamically typed value.
#[derive(Debug, PartialEq, Eq)]
pub enum Value {
    Null,
    Boolean(bool),
    Integer(i64),
    Bytes(Vec<u8>),
    Array(Vec<Value>),
    Object(Object),
}

/// A record: string keys to values, in ascending key order.
pub type Object = KeyMap<Value>;

impl Value {
    pub closed spec fn view(&self) -> SpecValue
        decreases self,
    {
        match self {
            Value::Null => SpecValue::Null,
            Value::Boolean(b) => SpecValue::Boolean(*b),
            Value::Integer(n) => SpecValue::Integer(*n as int),
            Value::Bytes(b) => SpecValue::Bytes(b@),
            Value::Array(v) => SpecValue::Array(
                Seq::new(
                    v@.len(),
                    |i: int|
                        if 0 <= i < v@.len() {
                            v@[i].view()
                        } else {
                            SpecValue::Null
                        },
                ),
            ),
            Value::Object(o) => SpecValue::Object(object_view(o)),
        }
    }
}

/// The model of an object.
pub closed spec fn object_view(o: &Object) -> Map<Seq<char>, SpecValue>
    decreases o,
{
    Map::new(
        |k: Seq<char>| has_key(o.entries(), k),
        |k: Seq<char>|
            {
                let i = key_index(o.entries(), k);
                if 0 <= i < o.entries@.len() {
                    o.entries@[i].1.view()
                } else {
                    SpecValue::Null
                }
            },
    )
}

/// The model of the map that a sequence of entries stands for.
pub open spec fn views_of(s: Seq<(Seq<char>, Value)>) -> Map<Seq<char>, SpecValue> {
    map_of(s).map_values(|v: Value| v@)
}

/// How a value's model is built from its parts.
pub proof fn lemma_view(v: Value)
    ensures
        v matches Value::Null ==> v@ == SpecValue::Null,
        v matches Value::Boolean(b) ==> v@ == SpecValue::Boolean(b),
        v matches Value::Integer(n) ==> v@ == SpecValue::Integer(n as int),
        v matches Value::Bytes(b) ==> v@ == SpecValue::Bytes(b@),
        v matches Value::Array(a) ==> v@ == SpecValue::Array(a@.map_values(|x: Value| x@)),
        v matches Value::Object(o) ==> (o.well_formed() ==> v@ == SpecValue::Object(o.view())),
        v@ is Object == v is Object,
{
    if let Value::Array(a) = v {
        assert(v@->Array_0 =~= a@.map_values(|x: Value| x@));
    }
    if let Value::Object(o) = v {
        if o.well_formed() {
            o.lemma_view();
        }
    }
}

impl KeyMap<Value> {
    /// The model of an object.
    pub open spec fn view(&self) -> Map<Seq<char>, SpecValue> {
        views_of(self.entries())
    }

    pub proof fn lemma_view(&self)
        requires
            self.well_formed(),
        ensures
            object_view(self) == self@,
            forall|i: int|
                0 <= i < self.entries().len() ==> #[trigger] self@.contains_key(self.entries()[i].0)
                    && self@[self.entries()[i].0] == self.entries()[i].1@,
    {
        self.lemma_entries_view();
        assert forall|i: int| 0 <= i < self.entries().len() implies #[trigger] self@.contains_key(
            self.entries()[i].0,
        ) && self@[self.entries()[i].0] == self.entries()[i].1@ by {
            lemma_map_of_index(self.entries(), i);
        }
        assert forall|k: Seq<char>| #[trigger] has_key(self.entries(), k) implies object_view(self)[k]
            == self@[k] by {
            let i = key_index(self.entries(), k);
            lemma_map_of_index(self.entries(), i);
        }
        assert(object_view(self) =~= self@);
    }
}

impl Value {
    /// Whether the value is an object.
    pub fn is_object(&self) -> (r: bool)
        ensures
            r == (self@ is Object),
            r == (self is Object),
    {
        proof {
            lemma_view(*self);
        }
        match self {
            Value::Object(_) => true,
            _ => false,
        }
    }
}

impl Value {
    /// A copy of the value, nested values copied too.
    pub fn duplicate(&self) -> (r: Value)
        ensures
            r@ == self@,
        decreases self,
    {
        match self {
            Value::Null => Value::Null,
            Value::Boolean(b) => Value::Boolean(*b),
            Value::Integer(n) => Value::Integer(*n),
            Value::Bytes(b) => {
                let c = b.clone();
                assert(c@ =~= b@);
                Value::Bytes(c)
            },
            Value::Array(a) => {
                let mut items: Vec<Value> = Vec::new();
                let mut i: usize = 0;
                while i < a.len()
                    invariant
                        *self == Value::Array(*a),
                        i <= a@.len(),
                        items@.len() == i,
                        forall|j: int| 0 <= j < i ==> #[trigger] items@[j]@ == a@[j]@,
                    decreases a@.len() - i,
                {
                    proof {
                        assert(decreases_to!(*self => self->Array_0));
                        assert(decreases_to!(self->Array_0 => self->Array_0@));
                        assert(decreases_to!(self->Array_0@ => a@[i as int]));
                    }
                    items.push(a[i].duplicate());
                    i = i + 1;
                }
                let r = Value::Array(items);
                proof {
                    lemma_view(r);
                    lemma_view(*self);
                    assert(items@.map_values(|x: Value| x@) =~= a@.map_values(|x: Value| x@));
                }
                r
            },
            Value::Object(o) => {
                let c = duplicate_object(o);
                proof {
                    use_type_invariant(o);
                    use_type_invariant(&c);
                    lemma_view(*self);
                    lemma_view(Value::Object(c));
                }
                Value::Object(c)
            },
        }
    }
}

/// A copy of the object, nested values copied too.
pub fn duplicate_object(o: &Object) -> (r: Object)
    ensures
        r@ == o@,
        r.entries().len() == o.entries().len(),
    decreases o,
{
    proof {
        use_type_invariant(o);
        o.lemma_entries_view();
        o.lemma_view();
    }
    let ghost s = o.entries();
    let mut entries: Vec<(String, Value)> = Vec::new();
    let mut i: usize = 0;
    while i < o.entries.len()
        invariant
            s == o.entries(),
            s.len() == o.entries@.len(),
            forall|j: int| 0 <= j < s.len() ==> #[trigger] s[j] == (o.entries@[j].0@, o.entries@[j].1),
            i <= s.len(),
            entries@.len() == i,
            forall|j: int|
                0 <= j < i ==> #[trigger] entries@[j].0@ == s[j].0 && entries@[j].1@ == s[j].1@,
        decreases s.len() - i,
    {
        proof {
            assert(decreases_to!(*o => o.entries));
            assert(decreases_to!(o.entries => o.entries@));
            assert(decreases_to!(o.entries@ => o.entries@[i as int]));
            assert(decreases_to!(o.entries@[i as int] => o.entries@[i as int].1));
        }
        let key = o.entries[i].0.clone();
        let value = o.entries[i].1.duplicate();
        entries.push((key, value));
        i = i + 1;
    }
    let ghost t = entries_view(entries@);
    assert(sorted_keys(t)) by {
        assert forall|a: int, b: int| 0 <= a < b < t.len() implies #[trigger] crate::key::key_lt(
            t[a].0,
            t[b].0,
        ) by {
            assert(crate::key::key_lt(s[a].0, s[b].0));
        }
    }
    let r = KeyMap::from_sorted(entries);
    proof {
        use_type_invariant(o);
        o.lemma_view();
        r.lemma_entries_view();
        r.lemma_view();
        assert forall|k: Seq<char>| has_key(t, k) == has_key(s, k) by {
            if has_key(t, k) {
                let a = choose|a: int| 0 <= a < t.len() && #[trigger] t[a].0 == k;
                assert(s[a].0 == k);
            }
            if has_key(s, k) {
                let a = choose|a: int| 0 <= a < s.len() && #[trigger] s[a].0 == k;
                assert(t[a].0 == k);
            }
        }
        assert forall|k: Seq<char>| #[trigger] r@.contains_key(k) implies o@.contains_key(k) && r@[k]
            == o@[k] by {
            let a = key_index(t, k);
            assert(0 <= a < s.len());
            assert(r@.contains_key(r.entries()[a].0));
            assert(o@.contains_key(o.entries()[a].0));
            assert(r@[t[a].0] == t[a].1@);
            assert(o@[s[a].0] == s[a].1@);
        }
        assert(r@ =~= o@);
    }
    r
}

} // verus!
