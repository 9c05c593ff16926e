//! Merging one record into another, shallow or deep.
use vstd::prelude::*;

use crate::key_map::{lemma_map_of_drop_first, sorted_keys};
use crate::value::{lemma_view, views_of, Object, SpecValue, Value};

verus! {

/// What `from` becomes when merged into `to`: where both are objects, the
/// keys of both, each holding `from`'s value merged into `to`'s if `deep`
/// and `to` has the key, else `from`'s value if it has the key, else `to`'s;
/// otherwise `from` itself.
pub open spec fn merge_value(to: SpecValue, from: SpecValue, deep: bool) -> SpecValue
    decreases from,
{
    match (to, from) {
        (SpecValue::Object(t), SpecValue::Object(f)) => SpecValue::Object(
            Map::new(
                |k: Seq<char>| t.contains_key(k) || f.contains_key(k),
                |k: Seq<char>|
                    if f.contains_key(k) {
                        if deep && t.contains_key(k) {
                            merge_value(t[k], f[k], deep)
                        } else {
                            f[k]
                        }
                    } else {
                        t[k]
                    },
            ),
        ),
        _ => from,
    }
}

/// The object that merging `from` into `to` gives.
pub open spec fn merge_objects(
    to: Map<Seq<char>, SpecValue>,
    from: Map<Seq<char>, SpecValue>,
    deep: bool,
) -> Map<Seq<char>, SpecValue> {
    merge_value(SpecValue::Object(to), SpecValue::Object(from), deep)->Object_0
}

/// What the key `k` holds after `v` is merged into `to` at `k`.
pub open spec fn merged_entry(
    to: Map<Seq<char>, SpecValue>,
    k: Seq<char>,
    v: SpecValue,
    deep: bool,
) -> SpecValue {
    if deep && to.contains_key(k) {
        merge_value(to[k], v, deep)
    } else {
        v
    }
}

/// Merging `from` with one more key is merging `from`, then that key.
pub proof fn lemma_merge_insert(
    to: Map<Seq<char>, SpecValue>,
    from: Map<Seq<char>, SpecValue>,
    k: Seq<char>,
    v: SpecValue,
    deep: bool,
)
    requires
        !from.contains_key(k),
    ensures
        merge_objects(to, from.insert(k, v), deep) == merge_objects(to, from, deep).insert(
            k,
            merged_entry(merge_objects(to, from, deep), k, v, deep),
        ),
        merge_objects(to, from, deep).contains_key(k) == to.contains_key(k),
        to.contains_key(k) ==> merge_objects(to, from, deep)[k] == to[k],
{
    assert(merge_objects(to, from.insert(k, v), deep) =~= merge_objects(to, from, deep).insert(
        k,
        merged_entry(merge_objects(to, from, deep), k, v, deep),
    ));
}

/// Merging into an empty object gives the source.
pub proof fn lemma_merge_into_empty(from: Map<Seq<char>, SpecValue>, deep: bool)
    ensures
        merge_objects(Map::empty(), from, deep) == from,
{
    assert(merge_objects(Map::empty(), from, deep) =~= from);
}

/// Merging an empty source leaves the destination as it was.
pub proof fn lemma_merge_empty_source(to: Map<Seq<char>, SpecValue>, deep: bool)
    ensures
        merge_objects(to, Map::empty(), deep) == to,
{
    assert(merge_objects(to, Map::empty(), deep) =~= to);
}

/// In a shallow merge, a key that holds objects on both sides holds the
/// source's object whole: none of the destination's nested fields remain.
pub proof fn lemma_shallow_replaces_objects(
    to: Map<Seq<char>, SpecValue>,
    from: Map<Seq<char>, SpecValue>,
    k: Seq<char>,
)
    requires
        to.contains_key(k),
        from.contains_key(k),
        to[k] is Object,
        from[k] is Object,
    ensures
        merge_objects(to, from, false)[k] == from[k],
{
}

/// In a deep merge, a key that holds objects on both sides holds the two
/// objects merged by the same rule; a nested field that only the
/// destination has keeps its value, one that the source has takes the
/// source's value merged into the destination's.
pub proof fn lemma_deep_merges_objects(
    to: Map<Seq<char>, SpecValue>,
    from: Map<Seq<char>, SpecValue>,
    k: Seq<char>,
)
    requires
        to.contains_key(k),
        from.contains_key(k),
        to[k] is Object,
        from[k] is Object,
    ensures
        merge_objects(to, from, true)[k] == SpecValue::Object(
            merge_objects(to[k]->Object_0, from[k]->Object_0, true),
        ),
        forall|j: Seq<char>|
            #![trigger merge_objects(to[k]->Object_0, from[k]->Object_0, true)[j]]
            to[k]->Object_0.contains_key(j) && !from[k]->Object_0.contains_key(j) ==> merge_objects(
                to[k]->Object_0,
                from[k]->Object_0,
                true,
            )[j] == to[k]->Object_0[j],
{
}

/// Where one side's value at a shared key is not an object, the source's
/// value replaces the destination's, deep or not.
pub proof fn lemma_non_object_replaces(
    to: Map<Seq<char>, SpecValue>,
    from: Map<Seq<char>, SpecValue>,
    k: Seq<char>,
    deep: bool,
)
    requires
        to.contains_key(k),
        from.contains_key(k),
        !(to[k] is Object) || !(from[k] is Object),
    ensures
        merge_objects(to, from, deep)[k] == from[k],
{
    assert(merge_value(to[k], from[k], deep) == from[k]);
}

/// The keys of the result are the keys of both sides.
pub proof fn lemma_merge_keys(
    to: Map<Seq<char>, SpecValue>,
    from: Map<Seq<char>, SpecValue>,
    deep: bool,
)
    ensures
        merge_objects(to, from, deep).dom() == to.dom() + from.dom(),
{
    assert(merge_objects(to, from, deep).dom() =~= to.dom() + from.dom());
}

/// Merging a value into an equal value changes nothing.
pub proof fn lemma_merge_value_idempotent(v: SpecValue, deep: bool)
    ensures
        merge_value(v, v, deep) == v,
    decreases v,
{
    if let SpecValue::Object(m) = v {
        assert forall|k: Seq<char>| #[trigger] m.contains_key(k) implies merge_value(m[k], m[k], deep)
            == m[k] by {
            lemma_merge_value_idempotent(m[k], deep);
        }
        assert(merge_value(v, v, deep)->Object_0 =~= m);
    }
}

/// Merging an object into an equal object, shallow or deep, changes nothing.
pub proof fn lemma_merge_idempotent(from: Map<Seq<char>, SpecValue>, deep: bool)
    ensures
        merge_objects(from, from, deep) == from,
{
    lemma_merge_value_idempotent(SpecValue::Object(from), deep);
}

/// Merges `from` into `to`. With `deep`, a key whose values are objects on
/// both sides has `from`'s object merged into `to`'s by the same rule;
/// otherwise a copy of `from`'s value replaces `to`'s at each of its keys.
/// Keys of `to` that `from` lacks keep their values. The entries stay in key
/// order. The call recurses once for each level of objects that the two
/// sides nest at the same keys.
pub fn merge_maps(to: &mut Object, from: &Object, deep: bool)
    ensures
        final(to)@ == merge_objects(old(to)@, from@, deep),
        final(to)@.dom() == old(to)@.dom() + from@.dom(),
        sorted_keys(final(to).entries()),
    decreases from,
{
    proof {
        use_type_invariant(from);
        from.lemma_entries_view();
    }
    let ghost s = from.entries();
    let ghost start = to@;
    assert(s.skip(s.len() as int) =~= Seq::empty());
    assert(views_of(s.skip(s.len() as int)) =~= Map::empty());
    assert(merge_objects(start, Map::empty(), deep) =~= start);
    let mut n: usize = from.len();
    while n > 0
        invariant
            s == from.entries(),
            sorted_keys(s),
            n <= s.len(),
            to@ == merge_objects(start, views_of(s.skip(n as int)), deep),
            s.len() == from.entries@.len(),
            forall|i: int| 0 <= i < s.len() ==> #[trigger] s[i] == (from.entries@[i].0@, from.entries@[i].1),
        decreases n,
    {
        n = n - 1;
        let key = &from.entries[n].0;
        let value = from.value_at(n);
        let ghost f = views_of(s.skip(n + 1));
        let ghost t = to@;
        let ghost k = key@;
        let ghost v = value@;
        proof {
            let u = s.skip(n as int);
            assert(sorted_keys(u)) by {
                assert forall|a: int, b: int| 0 <= a < b < u.len() implies #[trigger] crate::key::key_lt(
                    u[a].0,
                    u[b].0,
                ) by {
                    assert(crate::key::key_lt(s[a + n].0, s[b + n].0));
                }
            }
            lemma_map_of_drop_first(u);
            assert(u.drop_first() =~= s.skip(n + 1));
            assert(u[0] == (k, *value));
            assert(views_of(u) =~= f.insert(k, v));
            lemma_merge_insert(start, f, k, v, deep);
            use_type_invariant(&*to);
            to.lemma_view();
            lemma_view(*value);
        }
        match to.find(key) {
            Ok(i) => {
                if deep && to.value_at(i).is_object() && value.is_object() {
                    let previous = to.replace_value(i, Value::Null);
                    if let (Value::Object(mut child), Value::Object(source)) = (previous, value) {
                        proof {
                            assert(decreases_to!(*from => from.entries));
                            assert(decreases_to!(from.entries => from.entries@));
                            assert(decreases_to!(from.entries@ => from.entries@[n as int]));
                            assert(decreases_to!(from.entries@[n as int] => from.entries@[n as int].1));
                            assert(decreases_to!(from.entries@[n as int].1 => *source));
                            use_type_invariant(&child);
                            use_type_invariant(source);
                            lemma_view(Value::Object(child));
                            lemma_view(Value::Object(*source));
                        }
                        let ghost before = child@;
                        merge_maps(&mut child, source, deep);
                        proof {
                            use_type_invariant(&child);
                            lemma_view(Value::Object(child));
                            assert(merge_value(SpecValue::Object(before), SpecValue::Object(source@), deep)
                                == SpecValue::Object(child@));
                        }
                        to.replace_value(i, Value::Object(child));
                        proof {
                            assert(to@ =~= t.insert(k, SpecValue::Object(child@)));
                        }
                    }
                } else {
                    to.replace_value(i, value.duplicate());
                    proof {
                        assert(to@ =~= t.insert(k, v));
                    }
                }
            },
            Err(_) => {
                to.insert(key.clone(), value.duplicate());
                proof {
                    assert(to@ =~= t.insert(k, v));
                }
            },
        }
    }
    proof {
        use_type_invariant(&*to);
        assert(s.skip(0) =~= s);
        assert(merge_objects(start, from@, deep).dom() =~= start.dom() + from@.dom());
    }
}

} // verus!
