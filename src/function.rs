//! The `merge` function of the remapping language: its parameters, the
//! binding of call-site arguments, run-time evaluation and the static type
//! of its result.
//!
//! Values are passed by value: evaluating a call works on a copy of the
//! destination object, merges the source into that copy and returns it, so
//! no other holder of the destination observes the merge.
use vstd::prelude::*;

use crate::key_map::KeyMap;
use crate::kind::{duplicate_kind, fields_of, kind_of, kind_of_value, lemma_kind_view, Kind, SpecKind, TypeDef};
use crate::merge::{merge_maps, merge_objects};
use crate::value::{duplicate_object, lemma_view, Object, SpecValue, Value};

verus! {

/// Kind bit of the null value.
pub const NULL: u16 = 1;

/// Kind bit of booleans.
pub const BOOLEAN: u16 = 2;

/// Kind bit of integers.
pub const INTEGER: u16 = 4;

/// Kind bit of byte strings.
pub const BYTES: u16 = 8;

/// Kind bit of arrays.
pub const ARRAY: u16 = 16;

/// Kind bit of objects.
pub const OBJECT: u16 = 32;

/// The kind bit of a value.
pub open spec fn kind_bit(v: SpecValue) -> u16 {
    match v {
        SpecValue::Null => NULL,
        SpecValue::Boolean(_) => BOOLEAN,
        SpecValue::Integer(_) => INTEGER,
        SpecValue::Bytes(_) => BYTES,
        SpecValue::Array(_) => ARRAY,
        SpecValue::Object(_) => OBJECT,
    }
}

/// The kind bit of a value.
pub fn value_kind(v: &Value) -> (r: u16)
    ensures
        r == kind_bit(v@),
{
    proof {
        lemma_view(*v);
    }
    match v {
        Value::Null => NULL,
        Value::Boolean(_) => BOOLEAN,
        Value::Integer(_) => INTEGER,
        Value::Bytes(_) => BYTES,
        Value::Array(_) => ARRAY,
        Value::Object(_) => OBJECT,
    }
}

/// A declared parameter: its keyword, the kinds it accepts, and whether a
/// call must supply it.
#[derive(Debug, PartialEq, Eq)]
pub struct Parameter {
    pub keyword: &'static str,
    pub kind: u16,
    pub required: bool,
}

/// A documented call and what it gives.
#[derive(Debug, PartialEq, Eq)]
pub struct Example {
    pub title: &'static str,
    pub source: &'static str,
    pub result: Result<&'static str, &'static str>,
}

/// An operand of a call: a literal, a variable of the program, or the event
/// being processed.
#[derive(Debug, PartialEq, Eq)]
pub enum Expr {
    Literal(Value),
    Variable(String),
    Event,
}

/// What evaluation reads: the event and the program's variables.
pub struct Context {
    pub event: Object,
    pub variables: Object,
}

/// What type inference reads: the event's descriptor and the variables'.
pub struct CompilerState {
    pub event: Kind,
    pub variables: KeyMap<Kind>,
}

/// The arguments of a call, by keyword.
pub struct ArgumentList {
    pub to: Option<Expr>,
    pub from: Option<Expr>,
    pub deep: Option<Expr>,
}

/// Failure to bind a call's arguments.
#[derive(Debug, PartialEq, Eq, Structural)]
pub enum CompileError {
    MissingRequiredArgument,
}

/// Failure while evaluating a call.
#[derive(Debug, PartialEq, Eq, Structural)]
pub enum ExpressionError {
    /// An operand resolved to a value of a kind that its parameter does not
    /// accept.
    TypeError { expected: u16, found: u16 },
}

/// What an operand resolves to in `ctx`. An undefined variable is null.
pub open spec fn resolved(e: Expr, ctx: Context) -> SpecValue {
    match e {
        Expr::Literal(v) => v@,
        Expr::Variable(name) => if ctx.variables@.contains_key(name@) {
            ctx.variables@[name@]
        } else {
            SpecValue::Null
        },
        Expr::Event => SpecValue::Object(ctx.event@),
    }
}

/// The descriptor of what an operand resolves to. Nothing is known of an
/// undefined variable.
pub open spec fn static_kind(e: Expr, state: CompilerState) -> SpecKind {
    match e {
        Expr::Literal(v) => kind_of_value(v@),
        Expr::Variable(name) => if state.variables@.contains_key(name@) {
            state.variables@[name@]
        } else {
            SpecKind::Any
        },
        Expr::Event => state.event@,
    }
}

impl Expr {
    /// Evaluates the operand.
    pub fn resolve(&self, ctx: &Context) -> (r: Value)
        ensures
            r@ == resolved(*self, *ctx),
    {
        match self {
            Expr::Literal(v) => v.duplicate(),
            Expr::Variable(name) => match ctx.variables.get(name) {
                Some(v) => {
                    proof {
                        use_type_invariant(&ctx.variables);
                        ctx.variables.lemma_view();
                    }
                    v.duplicate()
                },
                None => {
                    proof {
                        lemma_view(Value::Null);
                    }
                    Value::Null
                },
            },
            Expr::Event => {
                let o = duplicate_object(&ctx.event);
                proof {
                    use_type_invariant(&o);
                    lemma_view(Value::Object(o));
                }
                Value::Object(o)
            },
        }
    }

    /// The descriptor of what the operand resolves to.
    pub fn kind(&self, state: &CompilerState) -> (r: Kind)
        ensures
            r@ == static_kind(*self, *state),
    {
        match self {
            Expr::Literal(v) => kind_of(v),
            Expr::Variable(name) => match state.variables.get(name) {
                Some(k) => {
                    proof {
                        use_type_invariant(&state.variables);
                        state.variables.lemma_view();
                    }
                    duplicate_kind(k)
                },
                None => {
                    proof {
                        lemma_kind_view(Kind::Any);
                    }
                    Kind::Any
                },
            },
            Expr::Event => duplicate_kind(&state.event),
        }
    }
}

/// The `merge` function: merges the `from` object into the `to` object,
/// shallow unless `deep` is true.
#[derive(Debug, Clone, Copy, PartialEq, Eq)]
pub struct Merge;

/// A bound call of `merge`, ready to evaluate.
#[derive(Debug, PartialEq, Eq)]
pub struct MergeFn {
    pub to: Expr,
    pub from: Expr,
    pub deep: Expr,
}

impl Merge {
    /// The name under which programs call the function.
    pub fn identifier(&self) -> (r: &'static str)
        ensures
            r@ == "merge"@,
    {
        "merge"
    }

    /// The declared parameters: `to`, an optional object; `from`, a required
    /// object; `deep`, an optional boolean.
    pub fn parameters(&self) -> (r: Vec<Parameter>)
        ensures
            r@.len() == 3,
            r@[0].keyword@ == "to"@ && r@[0].kind == OBJECT && !r@[0].required,
            r@[1].keyword@ == "from"@ && r@[1].kind == OBJECT && r@[1].required,
            r@[2].keyword@ == "deep"@ && r@[2].kind == BOOLEAN && !r@[2].required,
    {
        let mut r: Vec<Parameter> = Vec::new();
        r.push(Parameter { keyword: "to", kind: OBJECT, required: false });
        r.push(Parameter { keyword: "from", kind: OBJECT, required: true });
        r.push(Parameter { keyword: "deep", kind: BOOLEAN, required: false });
        r
    }

    /// Documented calls.
    pub fn examples(&self) -> (r: Vec<Example>)
        ensures
            r@.len() == 1,
            r@[0].title@ == "merge objects"@,
            r@[0].source@ == "merge({ \"a\": 1, \"b\": 2 }, { \"b\": 3, \"c\": 4 })"@,
            r@[0].result matches Ok(s) && s@ == "{ \"a\": 1, \"b\": 3, \"c\": 4 }"@,
    {
        let mut r: Vec<Example> = Vec::new();
        r.push(
            Example {
                title: "merge objects",
                source: "merge({ \"a\": 1, \"b\": 2 }, { \"b\": 3, \"c\": 4 })",
                result: Ok("{ \"a\": 1, \"b\": 3, \"c\": 4 }"),
            },
        );
        r
    }

    /// Binds a call's arguments. Without `from` binding fails; without `to`
    /// the destination is the event; without `deep` the merge is shallow.
    pub fn compile(&self, state: &CompilerState, arguments: ArgumentList) -> (r: Result<
        MergeFn,
        CompileError,
    >)
        ensures
            arguments.from is None ==> r == Err::<MergeFn, CompileError>(
                CompileError::MissingRequiredArgument,
            ),
            arguments.from matches Some(from) ==> (r matches Ok(f) && f.from == from && (
            arguments.to matches Some(to) ==> f.to == to) && (arguments.to is None ==> f.to
                is Event) && (arguments.deep matches Some(deep) ==> f.deep == deep) && (
            arguments.deep is None ==> f.deep == Expr::Literal(Value::Boolean(false)))),
    {
        let from = match arguments.from {
            Some(e) => e,
            None => {
                return Err(CompileError::MissingRequiredArgument);
            },
        };
        let to = match arguments.to {
            Some(e) => e,
            None => Expr::Event,
        };
        let deep = match arguments.deep {
            Some(e) => e,
            None => Expr::Literal(Value::Boolean(false)),
        };
        Ok(MergeFn { to, from, deep })
    }
}

impl MergeFn {
    /// Evaluates the call: resolves `to`, `from` and `deep` in that order,
    /// fails with a type error at the first that is not of its parameter's
    /// kind, and otherwise returns `from` merged into a copy of `to`.
    pub fn resolve(&self, ctx: &Context) -> (r: Result<Value, ExpressionError>)
        ensures
            ({
                let t = resolved(self.to, *ctx);
                let f = resolved(self.from, *ctx);
                let d = resolved(self.deep, *ctx);
                &&& !(t is Object) ==> r == Err::<Value, ExpressionError>(
                    ExpressionError::TypeError { expected: OBJECT, found: kind_bit(t) },
                )
                &&& t is Object && !(f is Object) ==> r == Err::<Value, ExpressionError>(
                    ExpressionError::TypeError { expected: OBJECT, found: kind_bit(f) },
                )
                &&& t is Object && f is Object && !(d is Boolean) ==> r == Err::<
                    Value,
                    ExpressionError,
                >(ExpressionError::TypeError { expected: BOOLEAN, found: kind_bit(d) })
                &&& t is Object && f is Object && d is Boolean ==> (r matches Ok(v) && v@
                    == SpecValue::Object(merge_objects(t->Object_0, f->Object_0, d->Boolean_0)))
            }),
    {
        let to_value = self.to.resolve(ctx);
        proof {
            lemma_view(to_value);
        }
        let mut to = match to_value {
            Value::Object(o) => o,
            other => {
                return Err(ExpressionError::TypeError { expected: OBJECT, found: value_kind(&other) });
            },
        };
        let from_value = self.from.resolve(ctx);
        proof {
            lemma_view(from_value);
        }
        let from = match from_value {
            Value::Object(o) => o,
            other => {
                return Err(ExpressionError::TypeError { expected: OBJECT, found: value_kind(&other) });
            },
        };
        let deep_value = self.deep.resolve(ctx);
        proof {
            lemma_view(deep_value);
        }
        let deep = match deep_value {
            Value::Boolean(b) => b,
            other => {
                return Err(ExpressionError::TypeError { expected: BOOLEAN, found: value_kind(&other) });
            },
        };
        proof {
            use_type_invariant(&to);
            use_type_invariant(&from);
        }
        merge_maps(&mut to, &from, deep);
        proof {
            use_type_invariant(&to);
            lemma_view(Value::Object(to));
        }
        Ok(Value::Object(to))
    }

    /// The static type of the call's result: an object with the fields of
    /// `to`'s descriptor and of `from`'s, `from`'s winning where both know a
    /// key, whatever `deep` is. The call may fail where an operand is not
    /// known to be of its parameter's kind.
    pub fn type_def(&self, state: &CompilerState) -> (r: TypeDef)
        ensures
            r.kind@ == SpecKind::Object(
                fields_of(static_kind(self.to, *state)).union_prefer_right(
                    fields_of(static_kind(self.from, *state)),
                ),
            ),
            r.fallible == (!(static_kind(self.to, *state) is Object) || !(static_kind(
                self.from,
                *state,
            ) is Object) || !(static_kind(self.deep, *state) is Boolean)),
    {
        let to_kind = self.to.kind(state);
        let from_kind = self.from.kind(state);
        let deep_kind = self.deep.kind(state);
        proof {
            lemma_kind_view(to_kind);
            lemma_kind_view(from_kind);
            lemma_kind_view(deep_kind);
        }
        let to_fallible = !to_kind.is_object();
        let from_fallible = !from_kind.is_object();
        let deep_fallible = !deep_kind.is_boolean();
        let to_def = TypeDef { fallible: to_fallible, kind: to_kind };
        let from_def = TypeDef { fallible: from_fallible, kind: from_kind };
        let merged = to_def.merge_shallow(from_def);
        TypeDef { fallible: merged.fallible || deep_fallible, kind: merged.kind }
    }
}

} // verus!
