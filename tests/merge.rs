use std::cmp::Ordering;

use record_merge::function::{
    ArgumentList, CompileError, CompilerState, Context, Expr, ExpressionError, Merge, BOOLEAN,
    BYTES, OBJECT,
};
use record_merge::key::compare_keys;
use record_merge::key_map::KeyMap;
use record_merge::kind::{Kind, TypeDef};
use record_merge::merge::merge_maps;
use record_merge::value::{Object, Value};

fn bytes(s: &str) -> Value {
    Value::Bytes(s.as_bytes().to_vec())
}

fn object(pairs: Vec<(&str, Value)>) -> Object {
    let mut o = Object::new();
    for (k, v) in pairs {
        o.insert(k.to_string(), v);
    }
    o
}

fn value(pairs: Vec<(&str, Value)>) -> Value {
    Value::Object(object(pairs))
}

fn fields(pairs: Vec<(&str, Kind)>) -> Kind {
    let mut m = KeyMap::new();
    for (k, v) in pairs {
        m.insert(k.to_string(), v);
    }
    Kind::Object(m)
}

fn empty_context() -> Context {
    Context { event: Object::new(), variables: Object::new() }
}

fn empty_state() -> CompilerState {
    CompilerState { event: Kind::Any, variables: KeyMap::new() }
}

fn keys(o: &Object) -> Vec<String> {
    (0..o.len()).map(|i| o.key_at(i).clone()).collect()
}

fn call(to: Value, from: Value, deep: Option<bool>) -> Result<Value, ExpressionError> {
    let arguments = ArgumentList {
        to: Some(Expr::Literal(to)),
        from: Some(Expr::Literal(from)),
        deep: deep.map(|b| Expr::Literal(Value::Boolean(b))),
    };
    let f = Merge.compile(&empty_state(), arguments).unwrap();
    f.resolve(&empty_context())
}

fn nested_to() -> Value {
    value(vec![("key1", bytes("val1")), ("child", value(vec![("grandchild1", bytes("val1"))]))])
}

fn nested_from() -> Value {
    value(vec![("key2", bytes("val2")), ("child", value(vec![("grandchild2", Value::Boolean(true))]))])
}

#[test]
fn simple() {
    let to = value(vec![("key1", bytes("val1"))]);
    let from = value(vec![("key2", bytes("val2"))]);
    let arguments = ArgumentList {
        to: Some(Expr::Literal(to)),
        from: Some(Expr::Literal(from)),
        deep: None,
    };
    let f = Merge.compile(&empty_state(), arguments).unwrap();
    assert_eq!(
        f.resolve(&empty_context()),
        Ok(value(vec![("key1", bytes("val1")), ("key2", bytes("val2"))]))
    );
    assert_eq!(
        f.type_def(&empty_state()),
        TypeDef {
            fallible: false,
            kind: fields(vec![("key1", Kind::Bytes), ("key2", Kind::Bytes)]),
        }
    );
}

#[test]
fn shallow() {
    let arguments = ArgumentList {
        to: Some(Expr::Literal(nested_to())),
        from: Some(Expr::Literal(nested_from())),
        deep: None,
    };
    let f = Merge.compile(&empty_state(), arguments).unwrap();
    assert_eq!(
        f.resolve(&empty_context()),
        Ok(value(vec![
            ("key1", bytes("val1")),
            ("key2", bytes("val2")),
            ("child", value(vec![("grandchild2", Value::Boolean(true))])),
        ]))
    );
    assert_eq!(
        f.type_def(&empty_state()),
        TypeDef {
            fallible: false,
            kind: fields(vec![
                ("key1", Kind::Bytes),
                ("key2", Kind::Bytes),
                ("child", fields(vec![("grandchild2", Kind::Boolean)])),
            ]),
        }
    );
}

#[test]
fn deep() {
    let arguments = ArgumentList {
        to: Some(Expr::Literal(nested_to())),
        from: Some(Expr::Literal(nested_from())),
        deep: Some(Expr::Literal(Value::Boolean(true))),
    };
    let f = Merge.compile(&empty_state(), arguments).unwrap();
    assert_eq!(
        f.resolve(&empty_context()),
        Ok(value(vec![
            ("key1", bytes("val1")),
            ("key2", bytes("val2")),
            (
                "child",
                value(vec![("grandchild1", bytes("val1")), ("grandchild2", Value::Boolean(true))]),
            ),
        ]))
    );
    assert_eq!(
        f.type_def(&empty_state()),
        TypeDef {
            fallible: false,
            kind: fields(vec![
                ("key1", Kind::Bytes),
                ("key2", Kind::Bytes),
                ("child", fields(vec![("grandchild2", Kind::Boolean)])),
            ]),
        }
    );
}

#[test]
fn example_merge_objects() {
    let to = value(vec![("a", Value::Integer(1)), ("b", Value::Integer(2))]);
    let from = value(vec![("b", Value::Integer(3)), ("c", Value::Integer(4))]);
    assert_eq!(
        call(to, from, None),
        Ok(value(vec![("a", Value::Integer(1)), ("b", Value::Integer(3)), ("c", Value::Integer(4))]))
    );
}

#[test]
fn missing_from_is_a_binding_error() {
    let arguments = ArgumentList {
        to: Some(Expr::Literal(value(vec![]))),
        from: None,
        deep: None,
    };
    assert_eq!(
        Merge.compile(&empty_state(), arguments),
        Err(CompileError::MissingRequiredArgument)
    );
}

#[test]
fn non_object_destination_is_a_type_error() {
    assert_eq!(
        call(bytes("foo"), value(vec![("a", Value::Integer(1))]), None),
        Err(ExpressionError::TypeError { expected: OBJECT, found: BYTES })
    );
}

#[test]
fn non_object_source_is_a_type_error() {
    assert_eq!(
        call(value(vec![]), Value::Integer(3), None),
        Err(ExpressionError::TypeError { expected: OBJECT, found: record_merge::function::INTEGER })
    );
}

#[test]
fn non_boolean_deep_is_a_type_error() {
    let arguments = ArgumentList {
        to: Some(Expr::Literal(value(vec![]))),
        from: Some(Expr::Literal(value(vec![]))),
        deep: Some(Expr::Literal(Value::Null)),
    };
    let f = Merge.compile(&empty_state(), arguments).unwrap();
    assert_eq!(
        f.resolve(&empty_context()),
        Err(ExpressionError::TypeError { expected: BOOLEAN, found: record_merge::function::NULL })
    );
    assert!(f.type_def(&empty_state()).fallible);
}

#[test]
fn missing_to_merges_into_the_event() {
    let arguments = ArgumentList {
        to: None,
        from: Some(Expr::Variable("patch".to_string())),
        deep: None,
    };
    let f = Merge.compile(&empty_state(), arguments).unwrap();
    assert_eq!(f.to, Expr::Event);
    assert_eq!(f.deep, Expr::Literal(Value::Boolean(false)));
    let ctx = Context {
        event: object(vec![("host", bytes("a")), ("level", Value::Integer(1))]),
        variables: object(vec![("patch", value(vec![("level", Value::Integer(2))]))]),
    };
    assert_eq!(
        f.resolve(&ctx),
        Ok(value(vec![("host", bytes("a")), ("level", Value::Integer(2))]))
    );
    // the event itself is left as it was
    assert_eq!(ctx.event, object(vec![("host", bytes("a")), ("level", Value::Integer(1))]));
}

#[test]
fn undefined_variable_is_null() {
    assert_eq!(
        Expr::Variable("nothing".to_string()).resolve(&empty_context()),
        Value::Null
    );
}

#[test]
fn merge_into_empty_destination_gives_source() {
    let from = object(vec![("x", Value::Integer(1)), ("y", value(vec![("z", Value::Null)]))]);
    for deep in [false, true] {
        let mut to = Object::new();
        merge_maps(&mut to, &from, deep);
        assert_eq!(to, from);
    }
}

#[test]
fn merge_empty_source_leaves_destination() {
    let before = object(vec![("x", Value::Integer(1)), ("y", value(vec![("z", Value::Null)]))]);
    for deep in [false, true] {
        let mut to = object(vec![("x", Value::Integer(1)), ("y", value(vec![("z", Value::Null)]))]);
        merge_maps(&mut to, &Object::new(), deep);
        assert_eq!(to, before);
    }
}

#[test]
fn non_object_on_one_side_replaces_in_deep_merge() {
    let mut to = object(vec![("a", value(vec![("x", Value::Integer(1))])), ("b", Value::Integer(7))]);
    let from = object(vec![("a", Value::Integer(5)), ("b", value(vec![("y", Value::Integer(2))]))]);
    merge_maps(&mut to, &from, true);
    assert_eq!(to, from);
}

#[test]
fn deep_merge_recurses_through_levels() {
    let mut to = object(vec![(
        "a",
        value(vec![("b", value(vec![("c", Value::Integer(1)), ("d", Value::Integer(2))]))]),
    )]);
    let from = object(vec![("a", value(vec![("b", value(vec![("d", Value::Integer(3))]))]))]);
    merge_maps(&mut to, &from, true);
    assert_eq!(
        to,
        object(vec![(
            "a",
            value(vec![("b", value(vec![("c", Value::Integer(1)), ("d", Value::Integer(3))]))]),
        )])
    );
}

#[test]
fn result_keys_are_the_union_in_order() {
    let mut to = object(vec![("m", Value::Null), ("b", Value::Null), ("Z", Value::Null)]);
    let from = object(vec![("a", Value::Null), ("m", Value::Integer(1)), ("zz", Value::Null)]);
    merge_maps(&mut to, &from, false);
    assert_eq!(keys(&to), vec!["Z", "a", "b", "m", "zz"]);
}

#[test]
fn merge_is_idempotent() {
    let from = object(vec![
        ("k", bytes("v")),
        ("n", value(vec![("inner", value(vec![("leaf", Value::Boolean(false))]))])),
        ("list", Value::Array(vec![Value::Integer(1), value(vec![])])),
    ]);
    for deep in [false, true] {
        let mut to = object(vec![
            ("k", bytes("v")),
            ("n", value(vec![("inner", value(vec![("leaf", Value::Boolean(false))]))])),
            ("list", Value::Array(vec![Value::Integer(1), value(vec![])])),
        ]);
        merge_maps(&mut to, &from, deep);
        assert_eq!(to, from);
    }
}

#[test]
fn keys_order_by_bytes() {
    let k = |s: &str| s.to_string();
    assert_eq!(compare_keys(&k("B"), &k("a")), Ordering::Less);
    assert_eq!(compare_keys(&k("a"), &k("ab")), Ordering::Less);
    assert_eq!(compare_keys(&k("ab"), &k("a")), Ordering::Greater);
    assert_eq!(compare_keys(&k("é"), &k("z")), Ordering::Greater);
    assert_eq!(compare_keys(&k(""), &k("")), Ordering::Equal);
    assert_eq!(compare_keys(&k("same"), &k("same")), Ordering::Equal);
}

#[test]
fn key_map_insert_replaces_and_keeps_order() {
    let mut m = Object::new();
    m.insert("b".to_string(), Value::Integer(1));
    m.insert("a".to_string(), Value::Integer(2));
    m.insert("b".to_string(), Value::Integer(3));
    assert_eq!(m.len(), 2);
    assert_eq!(keys(&m), vec!["a", "b"]);
    assert_eq!(m.get(&"b".to_string()), Some(&Value::Integer(3)));
    assert_eq!(m.get(&"c".to_string()), None);
    assert_eq!(m.find(&"aa".to_string()), Err(1));
}

#[test]
fn type_merge_takes_source_field_and_ignores_deep() {
    let to = TypeDef {
        fallible: false,
        kind: fields(vec![("a", Kind::Integer), ("n", fields(vec![("x", Kind::Integer)]))]),
    };
    let from = TypeDef {
        fallible: true,
        kind: fields(vec![("a", Kind::Bytes), ("n", fields(vec![("y", Kind::Boolean)]))]),
    };
    assert_eq!(
        to.merge_shallow(from),
        TypeDef {
            fallible: true,
            kind: fields(vec![("a", Kind::Bytes), ("n", fields(vec![("y", Kind::Boolean)]))]),
        }
    );
}

#[test]
fn type_merge_with_non_object_adds_no_fields() {
    let to = TypeDef { fallible: false, kind: Kind::Any };
    let from = TypeDef { fallible: false, kind: fields(vec![("a", Kind::Null)]) };
    assert_eq!(
        to.merge_shallow(from),
        TypeDef { fallible: false, kind: fields(vec![("a", Kind::Null)]) }
    );
}

#[test]
fn type_def_of_variables_and_event() {
    let mut variables = KeyMap::new();
    variables.insert("v".to_string(), fields(vec![("p", Kind::Integer)]));
    let state = CompilerState { event: fields(vec![("host", Kind::Bytes)]), variables };
    let arguments = ArgumentList {
        to: None,
        from: Some(Expr::Variable("v".to_string())),
        deep: None,
    };
    let f = Merge.compile(&state, arguments).unwrap();
    assert_eq!(
        f.type_def(&state),
        TypeDef {
            fallible: false,
            kind: fields(vec![("host", Kind::Bytes), ("p", Kind::Integer)]),
        }
    );
    let unknown = ArgumentList {
        to: Some(Expr::Variable("missing".to_string())),
        from: Some(Expr::Event),
        deep: None,
    };
    let g = Merge.compile(&state, unknown).unwrap();
    assert_eq!(
        g.type_def(&state),
        TypeDef { fallible: true, kind: fields(vec![("host", Kind::Bytes)]) }
    );
}

#[test]
fn function_declaration() {
    assert_eq!(Merge.identifier(), "merge");
    let p = Merge.parameters();
    assert_eq!(p.len(), 3);
    assert_eq!((p[0].keyword, p[0].kind, p[0].required), ("to", OBJECT, false));
    assert_eq!((p[1].keyword, p[1].kind, p[1].required), ("from", OBJECT, true));
    assert_eq!((p[2].keyword, p[2].kind, p[2].required), ("deep", BOOLEAN, false));
    let e = Merge.examples();
    assert_eq!(e.len(), 1);
    assert_eq!(e[0].title, "merge objects");
    assert_eq!(e[0].result, Ok(r#"{ "a": 1, "b": 3, "c": 4 }"#));
}

#[test]
fn copies_are_equal_and_independent() {
    let v = value(vec![("a", Value::Array(vec![bytes("x"), value(vec![("b", Value::Integer(-4))])]))]);
    let c = v.duplicate();
    assert_eq!(c, v);
    assert_eq!(record_merge::kind::kind_of(&v), fields(vec![("a", Kind::Array)]));
}
