//! Static type descriptors, and their shallow merge.
use vstd::prelude::*;

use crate::key::key_lt;
use crate::key_map::{
    entries_view, has_key, key_index, lemma_map_of_drop_first, lemma_map_of_index, map_of,
    sorted_keys, KeyMap,
};
use crate::value::{lemma_view, SpecValue, Value};

verus! {

/// The model of a type descriptor: object descriptors map their known keys
/// to descriptors.
pub enum SpecKind {
    Any,
    Null,
    Boolean,
    Integer,
    Bytes,
    Array,
    Object(Map<Seq<char>, SpecKind>),
}

/// What an expression may produce: any value, a value of one kind, or an
/// object with known fields.
#[derive(Debug, PartialEq, Eq)]
pub enum Kind {
    Any,
    Null,
    Boolean,
    Integer,
    Bytes,
    Array,
    Object(KeyMap<Kind>),
}

/// The static type of an expression: whether evaluating it may fail, and
/// the kind of what it produces.
#[derive(Debug, PartialEq, Eq)]
pub struct TypeDef {
    pub fallible: bool,
    pub kind: Kind,
}

impl Kind {
    pub closed spec fn view(&self) -> SpecKind
        decreases self,
    {
        match self {
            Kind::Any => SpecKind::Any,
            Kind::Null => SpecKind::Null,
            Kind::Boolean => SpecKind::Boolean,
            Kind::Integer => SpecKind::Integer,
            Kind::Bytes => SpecKind::Bytes,
            Kind::Array => SpecKind::Array,
            Kind::Object(m) => SpecKind::Object(fields_view(m)),
        }
    }
}

/// The model of the fields of an object descriptor.
pub closed spec fn fields_view(m: &KeyMap<Kind>) -> Map<Seq<char>, SpecKind>
    decreases m,
{
    Map::new(
        |k: Seq<char>| has_key(m.entries(), k),
        |k: Seq<char>|
            {
                let i = key_index(m.entries(), k);
                if 0 <= i < m.entries@.len() {
                    m.entries@[i].1.view()
                } else {
                    SpecKind::Any
                }
            },
    )
}

/// The fields that a descriptor knows of: none unless it is an object.
pub open spec fn fields_of(k: SpecKind) -> Map<Seq<char>, SpecKind> {
    match k {
        SpecKind::Object(m) => m,
        _ => Map::empty(),
    }
}

/// The descriptor of a value: its kind, with the fields of each object.
pub open spec fn kind_of_value(v: SpecValue) -> SpecKind
    decreases v,
{
    match v {
        SpecValue::Null => SpecKind::Null,
        SpecValue::Boolean(_) => SpecKind::Boolean,
        SpecValue::Integer(_) => SpecKind::Integer,
        SpecValue::Bytes(_) => SpecKind::Bytes,
        SpecValue::Array(_) => SpecKind::Array,
        SpecValue::Object(m) => SpecKind::Object(
            Map::new(
                |k: Seq<char>| m.contains_key(k),
                |k: Seq<char>|
                    if m.contains_key(k) {
                        kind_of_value(m[k])
                    } else {
                        SpecKind::Any
                    },
            ),
        ),
    }
}

impl KeyMap<Kind> {
    /// The model of the fields of an object descriptor.
    pub open spec fn view(&self) -> Map<Seq<char>, SpecKind> {
        map_of(self.entries()).map_values(|k: Kind| k@)
    }

    pub proof fn lemma_view(&self)
        requires
            self.well_formed(),
        ensures
            fields_view(self) == self@,
            forall|i: int|
                0 <= i < self.entries().len() ==> #[trigger] self@.contains_key(self.entries()[i].0)
                    && self@[self.entries()[i].0] == self.entries()[i].1@,
    {
        self.lemma_entries_view();
        assert forall|i: int| 0 <= i < self.entries().len() implies #[trigger] self@.contains_key(
            self.entries()[i].0,
        ) && self@[self.entries()[i].0] == self.entries()[i].1@ by {
            lemma_map_of_index(self.entries(), i);
        }
        assert forall|k: Seq<char>| #[trigger] has_key(self.entries(), k) implies fields_view(self)[k]
            == self@[k] by {
            let i = key_index(self.entries(), k);
            lemma_map_of_index(self.entries(), i);
        }
        assert(fields_view(self) =~= self@);
    }
}

/// How a descriptor's model is built from its parts.
pub proof fn lemma_kind_view(k: Kind)
    ensures
        k matches Kind::Object(m) ==> (m.well_formed() ==> k@ == SpecKind::Object(m@)),
        k@ is Object == k is Object,
        k is Any ==> k@ is Any,
        k@ is Boolean == k is Boolean,
{
    if let Kind::Object(m) = k {
        if m.well_formed() {
            m.lemma_view();
        }
    }
}

/// Builds an object descriptor from entries in ascending key order.
fn fields_from(entries: Vec<(String, Kind)>, s: Ghost<Seq<(Seq<char>, SpecKind)>>) -> (r: KeyMap<Kind>)
    requires
        entries@.len() == s@.len(),
        sorted_keys(s@),
        forall|j: int|
            0 <= j < s@.len() ==> #[trigger] entries@[j].0@ == s@[j].0 && entries@[j].1@ == s@[j].1,
    ensures
        r@ == map_of(s@),
        r.entries().len() == s@.len(),
{
    let ghost t = entries_view(entries@);
    assert(sorted_keys(t)) by {
        assert forall|a: int, b: int| 0 <= a < b < t.len() implies #[trigger] key_lt(t[a].0, t[b].0) by {
            assert(key_lt(s@[a].0, s@[b].0));
        }
    }
    let r = KeyMap::from_sorted(entries);
    proof {
        r.lemma_entries_view();
        r.lemma_view();
        assert forall|k: Seq<char>| has_key(t, k) == has_key(s@, k) by {
            if has_key(t, k) {
                let a = choose|a: int| 0 <= a < t.len() && #[trigger] t[a].0 == k;
                assert(s@[a].0 == k);
            }
            if has_key(s@, k) {
                let a = choose|a: int| 0 <= a < s@.len() && #[trigger] s@[a].0 == k;
                assert(t[a].0 == k);
            }
        }
        assert forall|k: Seq<char>| #[trigger] r@.contains_key(k) implies map_of(s@).contains_key(k)
            && r@[k] == map_of(s@)[k] by {
            let a = key_index(t, k);
            assert(0 <= a < s@.len());
            assert(r@.contains_key(r.entries()[a].0));
            lemma_map_of_index(s@, a);
        }
        assert(r@ =~= map_of(s@));
    }
    r
}

/// The descriptor of a value.
pub fn kind_of(v: &Value) -> (r: Kind)
    ensures
        r@ == kind_of_value(v@),
    decreases v,
{
    proof {
        lemma_view(*v);
    }
    match v {
        Value::Null => Kind::Null,
        Value::Boolean(_) => Kind::Boolean,
        Value::Integer(_) => Kind::Integer,
        Value::Bytes(_) => Kind::Bytes,
        Value::Array(_) => Kind::Array,
        Value::Object(o) => {
            proof {
                use_type_invariant(o);
                o.lemma_entries_view();
                o.lemma_view();
            }
            let ghost s = o.entries();
            let ghost ks = s.map_values(|e: (Seq<char>, Value)| (e.0, kind_of_value(e.1@)));
            let mut entries: Vec<(String, Kind)> = Vec::new();
            let mut i: usize = 0;
            while i < o.entries.len()
                invariant
                    *v == Value::Object(*o),
                    s == o.entries(),
                    s.len() == o.entries@.len(),
                    ks == s.map_values(|e: (Seq<char>, Value)| (e.0, kind_of_value(e.1@))),
                    forall|j: int| 0 <= j < s.len() ==> #[trigger] s[j] == (o.entries@[j].0@, o.entries@[j].1),
                    i <= s.len(),
                    entries@.len() == i,
                    forall|j: int|
                        0 <= j < i ==> #[trigger] entries@[j].0@ == ks[j].0 && entries@[j].1@ == ks[j].1,
                decreases s.len() - i,
            {
                proof {
                    assert(decreases_to!(*v => v->Object_0));
                    assert(decreases_to!(v->Object_0 => o.entries));
                    assert(decreases_to!(o.entries => o.entries@));
                    assert(decreases_to!(o.entries@ => o.entries@[i as int]));
                    assert(decreases_to!(o.entries@[i as int] => o.entries@[i as int].1));
                }
                let key = o.entries[i].0.clone();
                let kind = kind_of(&o.entries[i].1);
                entries.push((key, kind));
                i = i + 1;
            }
            proof {
                use_type_invariant(o);
                o.lemma_view();
                assert(sorted_keys(ks)) by {
                    assert forall|a: int, b: int| 0 <= a < b < ks.len() implies #[trigger] key_lt(
                        ks[a].0,
                        ks[b].0,
                    ) by {
                        assert(key_lt(s[a].0, s[b].0));
                    }
                }
            }
            let m = fields_from(entries, Ghost(ks));
            proof {
                use_type_invariant(&m);
                lemma_kind_view(Kind::Object(m));
                let want = kind_of_value(v@)->Object_0;
                assert forall|k: Seq<char>| #[trigger] want.contains_key(k) == map_of(ks).contains_key(k) by {
                    if has_key(ks, k) {
                        let a = choose|a: int| 0 <= a < ks.len() && #[trigger] ks[a].0 == k;
                        assert(o@.contains_key(o.entries()[a].0));
                    }
                    if o@.contains_key(k) {
                        let a = key_index(s, k);
                        assert(ks[a].0 == k);
                    }
                }
                assert forall|k: Seq<char>| #[trigger] map_of(ks).contains_key(k) implies map_of(ks)[k]
                    == want[k] by {
                    let a = key_index(ks, k);
                    lemma_map_of_index(ks, a);
                    assert(o@.contains_key(o.entries()[a].0));
                }
                assert(m@ =~= want);
            }
            Kind::Object(m)
        },
    }
}

/// A copy of the descriptor, nested descriptors copied too.
pub fn duplicate_kind(kind: &Kind) -> (r: Kind)
    ensures
        r@ == kind@,
    decreases kind,
{
    proof {
        lemma_kind_view(*kind);
    }
    match kind {
        Kind::Any => Kind::Any,
        Kind::Null => Kind::Null,
        Kind::Boolean => Kind::Boolean,
        Kind::Integer => Kind::Integer,
        Kind::Bytes => Kind::Bytes,
        Kind::Array => Kind::Array,
        Kind::Object(m) => {
            proof {
                use_type_invariant(m);
                m.lemma_entries_view();
            }
            let ghost s = m.entries();
            let ghost ks = s.map_values(|e: (Seq<char>, Kind)| (e.0, e.1@));
            let mut entries: Vec<(String, Kind)> = Vec::new();
            let mut i: usize = 0;
            while i < m.entries.len()
                invariant
                    *kind == Kind::Object(*m),
                    s == m.entries(),
                    s.len() == m.entries@.len(),
                    ks == s.map_values(|e: (Seq<char>, Kind)| (e.0, e.1@)),
                    forall|j: int| 0 <= j < s.len() ==> #[trigger] s[j] == (m.entries@[j].0@, m.entries@[j].1),
                    i <= s.len(),
                    entries@.len() == i,
                    forall|j: int|
                        0 <= j < i ==> #[trigger] entries@[j].0@ == ks[j].0 && entries@[j].1@ == ks[j].1,
                decreases s.len() - i,
            {
                proof {
                    assert(decreases_to!(*kind => kind->Object_0));
                    assert(decreases_to!(kind->Object_0 => m.entries));
                    assert(decreases_to!(m.entries => m.entries@));
                    assert(decreases_to!(m.entries@ => m.entries@[i as int]));
                    assert(decreases_to!(m.entries@[i as int] => m.entries@[i as int].1));
                }
                let key = m.entries[i].0.clone();
                let copy = duplicate_kind(&m.entries[i].1);
                entries.push((key, copy));
                i = i + 1;
            }
            proof {
                use_type_invariant(m);
                m.lemma_view();
                assert(sorted_keys(ks)) by {
                    assert forall|a: int, b: int| 0 <= a < b < ks.len() implies #[trigger] key_lt(
                        ks[a].0,
                        ks[b].0,
                    ) by {
                        assert(key_lt(s[a].0, s[b].0));
                    }
                }
            }
            assert(entries@.len() == ks.len());
            let c = fields_from(entries, Ghost(ks));
            proof {
                use_type_invariant(&c);
                lemma_kind_view(Kind::Object(c));
                assert forall|k: Seq<char>| #[trigger] m@.contains_key(k) == map_of(ks).contains_key(k) by {
                    if has_key(ks, k) {
                        let a = choose|a: int| 0 <= a < ks.len() && #[trigger] ks[a].0 == k;
                        assert(s[a].0 == k);
                    }
                    if has_key(s, k) {
                        let a = choose|a: int| 0 <= a < s.len() && #[trigger] s[a].0 == k;
                        assert(ks[a].0 == k);
                    }
                }
                assert forall|k: Seq<char>| #[trigger] map_of(ks).contains_key(k) implies map_of(ks)[k]
                    == m@[k] by {
                    let a = key_index(ks, k);
                    lemma_map_of_index(ks, a);
                    assert(m@.contains_key(m.entries()[a].0));
                }
                assert(c@ =~= m@);
            }
            Kind::Object(c)
        },
    }
}

impl Kind {
    /// Whether the descriptor is of objects.
    pub fn is_object(&self) -> (r: bool)
        ensures
            r == (self@ is Object),
    {
        proof {
            lemma_kind_view(*self);
        }
        match self {
            Kind::Object(_) => true,
            _ => false,
        }
    }

    /// Whether the descriptor is of booleans.
    pub fn is_boolean(&self) -> (r: bool)
        ensures
            r == (self@ is Boolean),
    {
        proof {
            lemma_kind_view(*self);
        }
        match self {
            Kind::Boolean => true,
            _ => false,
        }
    }
}

impl TypeDef {
    /// The shallow union of two object descriptors: the fields of both, each
    /// described as in `other` where `other` knows it, else as in `self`.
    /// A descriptor that is not an object adds no fields. The result may
    /// fail where either may.
    pub fn merge_shallow(self, other: TypeDef) -> (r: TypeDef)
        ensures
            r.fallible == (self.fallible || other.fallible),
            r.kind@ == SpecKind::Object(fields_of(self.kind@).union_prefer_right(fields_of(other.kind@))),
    {
        let ghost to_fields = fields_of(self.kind@);
        let ghost from_fields = fields_of(other.kind@);
        proof {
            lemma_kind_view(self.kind);
            lemma_kind_view(other.kind);
        }
        let mut fields = match self.kind {
            Kind::Object(m) => {
                proof {
                    use_type_invariant(&m);
                    lemma_kind_view(Kind::Object(m));
                }
                m
            },
            _ => {
                let m: KeyMap<Kind> = KeyMap::new();
                proof {
                    assert(m@ =~= Map::empty());
                }
                m
            },
        };
        let mut rest = match other.kind {
            Kind::Object(m) => {
                proof {
                    use_type_invariant(&m);
                    lemma_kind_view(Kind::Object(m));
                }
                m
            },
            _ => {
                let m: KeyMap<Kind> = KeyMap::new();
                proof {
                    assert(m@ =~= Map::empty());
                }
                m
            },
        };
        proof {
            use_type_invariant(&rest);
        }
        let ghost s = rest.entries();
        assert(map_of(s.skip(s.len() as int)).map_values(|k: Kind| k@) =~= Map::empty());
        assert(to_fields.union_prefer_right(Map::empty()) =~= to_fields);
        loop
            invariant
                sorted_keys(s),
                map_of(s).map_values(|k: Kind| k@) == from_fields,
                rest.entries() == s.take(rest.entries().len() as int),
                rest.entries().len() <= s.len(),
                fields@ == to_fields.union_prefer_right(
                    map_of(s.skip(rest.entries().len() as int)).map_values(|k: Kind| k@),
                ),
            ensures
                fields@ == to_fields.union_prefer_right(from_fields),
            decreases rest.entries().len(),
        {
            let ghost n = rest.entries().len() as int;
            match rest.pop_last() {
                None => {
                    proof {
                        assert(s.skip(0) =~= s);
                    }
                    break;
                },
                Some((key, kind)) => {
                    proof {
                        let u = s.skip(n - 1);
                        assert(sorted_keys(u)) by {
                            assert forall|a: int, b: int| 0 <= a < b < u.len() implies #[trigger] key_lt(
                                u[a].0,
                                u[b].0,
                            ) by {
                                assert(key_lt(s[a + n - 1].0, s[b + n - 1].0));
                            }
                        }
                        lemma_map_of_drop_first(u);
                        assert(u.drop_first() =~= s.skip(n));
                        assert(s.take(n).last() == s[n - 1]);
                        assert(u[0] == (key@, kind));
                    }
                    let ghost before = fields@;
                    fields.insert(key, kind);
                    proof {
                        let u = s.skip(n - 1);
                        assert(map_of(u).map_values(|k: Kind| k@) =~= map_of(s.skip(n)).map_values(
                            |k: Kind| k@,
                        ).insert(key@, kind@));
                        assert(fields@ =~= before.insert(key@, kind@));
                        assert(fields@ =~= to_fields.union_prefer_right(
                            map_of(u).map_values(|k: Kind| k@),
                        ));
                        assert(s.skip(n - 1).len() == s.len() - n + 1);
                    }
                },
            }
        }
        proof {
            use_type_invariant(&fields);
            lemma_kind_view(Kind::Object(fields));
        }
        TypeDef { fallible: self.fallible || other.fallible, kind: Kind::Object(fields) }
    }
}

} // verus!
