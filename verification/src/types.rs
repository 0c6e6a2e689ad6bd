//! The supported value shapes: type descriptors, runtime values, and the
//! mathematical model that contracts are stated over.

use vstd::prelude::*;

verus! {

/// The shape a decoder is asked to produce: one of the supported primitive
/// kinds, or a container built from further shapes.  Tuples have a fixed
/// arity of two, three or four.
pub enum ValueType {
    Bool,
    U32,
    U64,
    I32,
    I64,
    F32,
    F64,
    Text,
    Unit,
    List(Box<ValueType>),
    DedupSet(Box<ValueType>),
    KeyMap(Box<ValueType>, Box<ValueType>),
    Pair(Box<ValueType>, Box<ValueType>),
    Triple(Box<ValueType>, Box<ValueType>, Box<ValueType>),
    Quad(Box<ValueType>, Box<ValueType>, Box<ValueType>, Box<ValueType>),
}

/// A decoded or to-be-encoded value.  Floating-point values are carried as
/// their IEEE 754 bit patterns; callers convert at the boundary.
#[derive(Debug, PartialEq)]
pub enum Value {
    Bool(bool),
    U32(u32),
    U64(u64),
    I32(i32),
    I64(i64),
    F32Bits(u32),
    F64Bits(u64),
    Text(String),
    Unit,
    List(Vec<Value>),
    DedupSet(Vec<Value>),
    KeyMap(Vec<(Value, Value)>),
    Pair(Box<Value>, Box<Value>),
    Triple(Box<Value>, Box<Value>, Box<Value>),
    Quad(Box<Value>, Box<Value>, Box<Value>, Box<Value>),
}

/// The mathematical model of a [`Value`]: strings become character
/// sequences, containers become sequences, and all tuple arities collapse
/// into one variant.
#[verifier::ext_equal]
pub enum ValueModel {
    Bool(bool),
    U32(u32),
    U64(u64),
    I32(i32),
    I64(i64),
    F32Bits(u32),
    F64Bits(u64),
    Text(Seq<char>),
    Unit,
    List(Seq<ValueModel>),
    DedupSet(Seq<ValueModel>),
    KeyMap(Seq<(ValueModel, ValueModel)>),
    Tuple(Seq<ValueModel>),
}

/// The model of each element of a sequence of values.
pub open spec fn seq_model(vs: Seq<Value>) -> Seq<ValueModel>
    decreases vs,
{
    if vs.len() == 0 {
        Seq::empty()
    } else {
        seq![value_model(vs[0])] + seq_model(vs.drop_first())
    }
}

/// The model of each key/value pair of a sequence of entries.
pub open spec fn entries_model(es: Seq<(Value, Value)>) -> Seq<(ValueModel, ValueModel)>
    decreases es,
{
    if es.len() == 0 {
        Seq::empty()
    } else {
        seq![(value_model(es[0].0), value_model(es[0].1))] + entries_model(es.drop_first())
    }
}

/// The mathematical model of a value.
pub open spec fn value_model(v: Value) -> ValueModel
    decreases v,
{
    match v {
        Value::Bool(b) => ValueModel::Bool(b),
        Value::U32(x) => ValueModel::U32(x),
        Value::U64(x) => ValueModel::U64(x),
        Value::I32(x) => ValueModel::I32(x),
        Value::I64(x) => ValueModel::I64(x),
        Value::F32Bits(x) => ValueModel::F32Bits(x),
        Value::F64Bits(x) => ValueModel::F64Bits(x),
        Value::Text(s) => ValueModel::Text(s@),
        Value::Unit => ValueModel::Unit,
        Value::List(vs) => ValueModel::List(seq_model(vs@)),
        Value::DedupSet(vs) => ValueModel::DedupSet(seq_model(vs@)),
        Value::KeyMap(es) => ValueModel::KeyMap(entries_model(es@)),
        Value::Pair(a, b) => ValueModel::Tuple(seq![value_model(*a), value_model(*b)]),
        Value::Triple(a, b, c) => ValueModel::Tuple(
            seq![value_model(*a), value_model(*b), value_model(*c)],
        ),
        Value::Quad(a, b, c, d) => ValueModel::Tuple(
            seq![value_model(*a), value_model(*b), value_model(*c), value_model(*d)],
        ),
    }
}

impl View for Value {
    type V = ValueModel;

    open spec fn view(&self) -> ValueModel {
        value_model(*self)
    }
}

/// Whether a model value fits a type descriptor.
pub open spec fn has_shape(v: ValueModel, t: ValueType) -> bool
    decreases v,
{
    match v {
        ValueModel::Bool(_) => t is Bool,
        ValueModel::U32(_) => t is U32,
        ValueModel::U64(_) => t is U64,
        ValueModel::I32(_) => t is I32,
        ValueModel::I64(_) => t is I64,
        ValueModel::F32Bits(_) => t is F32,
        ValueModel::F64Bits(_) => t is F64,
        ValueModel::Text(_) => t is Text,
        ValueModel::Unit => t is Unit,
        ValueModel::List(vs) => match t {
            ValueType::List(et) => forall|i: int|
                0 <= i < vs.len() ==> has_shape(#[trigger] vs[i], *et),
            _ => false,
        },
        ValueModel::DedupSet(vs) => match t {
            ValueType::DedupSet(et) => forall|i: int|
                0 <= i < vs.len() ==> has_shape(#[trigger] vs[i], *et),
            _ => false,
        },
        ValueModel::KeyMap(es) => match t {
            ValueType::KeyMap(kt, vt) => forall|i: int|
                0 <= i < es.len() ==> has_shape(
                    (#[trigger] es[i]).0,
                    *kt,
                ) && has_shape(es[i].1, *vt),
            _ => false,
        },
        ValueModel::Tuple(vs) => match t {
            ValueType::Pair(a, b) => vs.len() == 2 && has_shape(vs[0], *a) && has_shape(
                vs[1],
                *b,
            ),
            ValueType::Triple(a, b, c) => vs.len() == 3 && has_shape(vs[0], *a) && has_shape(
                vs[1],
                *b,
            ) && has_shape(vs[2], *c),
            ValueType::Quad(a, b, c, d) => vs.len() == 4 && has_shape(vs[0], *a) && has_shape(
                vs[1],
                *b,
            ) && has_shape(vs[2], *c) && has_shape(vs[3], *d),
            _ => false,
        },
    }
}

/// The model of a sequence of values has the same length and models each
/// element in place.
pub proof fn lemma_seq_model(vs: Seq<Value>)
    ensures
        seq_model(vs).len() == vs.len(),
        forall|i: int| 0 <= i < vs.len() ==> seq_model(vs)[i] == value_model(#[trigger] vs[i]),
    decreases vs.len(),
{
    if vs.len() > 0 {
        lemma_seq_model(vs.drop_first());
        assert forall|i: int| 0 <= i < vs.len() implies seq_model(vs)[i] == value_model(
            #[trigger] vs[i],
        ) by {
            if i > 0 {
                assert(vs.drop_first()[i - 1] == vs[i]);
            }
        }
    }
}

/// Appending a value appends its model.
pub proof fn lemma_seq_model_push(vs: Seq<Value>, v: Value)
    ensures
        seq_model(vs.push(v)) == seq_model(vs).push(value_model(v)),
{
    lemma_seq_model(vs.push(v));
    lemma_seq_model(vs);
    assert forall|i: int| 0 <= i < vs.len() + 1 implies seq_model(vs.push(v))[i] == seq_model(
        vs,
    ).push(value_model(v))[i] by {
        if i < vs.len() {
            assert(vs.push(v)[i] == vs[i]);
        } else {
            assert(vs.push(v)[i] == v);
        }
    }
    assert(seq_model(vs.push(v)) =~= seq_model(vs).push(value_model(v)));
}

/// The model of a sequence of entries has the same length and models each
/// pair in place.
pub proof fn lemma_entries_model(es: Seq<(Value, Value)>)
    ensures
        entries_model(es).len() == es.len(),
        forall|i: int|
            0 <= i < es.len() ==> entries_model(es)[i] == (
            value_model((#[trigger] es[i]).0),
            value_model(es[i].1),
            ),
    decreases es.len(),
{
    if es.len() > 0 {
        lemma_entries_model(es.drop_first());
        assert forall|i: int|
            0 <= i < es.len() implies entries_model(es)[i] == (
            value_model((#[trigger] es[i]).0),
            value_model(es[i].1),
            ) by {
            if i > 0 {
                assert(es.drop_first()[i - 1] == es[i]);
            }
        }
    }
}

/// Appending an entry appends its model.
pub proof fn lemma_entries_model_push(es: Seq<(Value, Value)>, k: Value, v: Value)
    ensures
        entries_model(es.push((k, v))) == entries_model(es).push(
            (value_model(k), value_model(v)),
        ),
{
    lemma_entries_model(es.push((k, v)));
    lemma_entries_model(es);
    assert forall|i: int| 0 <= i < es.len() + 1 implies entries_model(es.push((k, v)))[i]
        == entries_model(es).push((value_model(k), value_model(v)))[i] by {
        if i < es.len() {
            assert(es.push((k, v))[i] == es[i]);
        } else {
            assert(es.push((k, v))[i] == (k, v));
        }
    }
    assert(entries_model(es.push((k, v))) =~= entries_model(es).push(
        (value_model(k), value_model(v)),
    ));
}

/// Prepending a value prepends its model.
pub proof fn lemma_seq_model_cons(v: Value, rest: Seq<Value>)
    ensures
        seq_model(seq![v] + rest) == seq![value_model(v)] + seq_model(rest),
{
    let s = seq![v] + rest;
    assert(s.len() == rest.len() + 1);
    assert(s[0] == v);
    assert(s.drop_first() =~= rest);
}

/// Prepending an entry prepends its model.
pub proof fn lemma_entries_model_cons(e: (Value, Value), rest: Seq<(Value, Value)>)
    ensures
        entries_model(seq![e] + rest) == seq![(value_model(e.0), value_model(e.1))]
            + entries_model(rest),
{
    let s = seq![e] + rest;
    assert(s.len() == rest.len() + 1);
    assert(s[0] == e);
    assert(s.drop_first() =~= rest);
}

/// Well-formedness of a model value: set members are pairwise distinct and
/// mapping keys are pairwise distinct, recursively.
pub open spec fn wf_model(v: ValueModel) -> bool
    decreases v,
{
    match v {
        ValueModel::List(vs) => forall|i: int|
            0 <= i < vs.len() ==> wf_model(#[trigger] vs[i]),
        ValueModel::DedupSet(vs) => (forall|i: int|
            0 <= i < vs.len() ==> wf_model(#[trigger] vs[i])) && (forall|i: int, j: int|
            0 <= i < j < vs.len() ==> vs[i] != vs[j]),
        ValueModel::KeyMap(es) => (forall|i: int|
            0 <= i < es.len() ==> wf_model((#[trigger] es[i]).0) && wf_model(es[i].1)) && (forall|
            i: int,
            j: int,
        |
            0 <= i < j < es.len() ==> (#[trigger] es[i]).0 != (#[trigger] es[j]).0),
        ValueModel::Tuple(vs) => forall|i: int|
            0 <= i < vs.len() ==> wf_model(#[trigger] vs[i]),
        _ => true,
    }
}

} // verus!
