//! Wire types, the values they describe, and the mathematical model of a value.
use vstd::prelude::*;

verus! {

/// The wire shape of a value.
#[derive(Debug)]
pub enum Ty {
    /// No bytes at all (an empty union arm).
    Void,
    Bool,
    /// A signed 32-bit integer.
    Int,
    /// An unsigned 32-bit integer.
    UInt,
    /// A signed 64-bit integer.
    Hyper,
    /// An unsigned 64-bit integer.
    UHyper,
    /// Exactly this many bytes, without a length prefix.
    Opaque(u32),
    /// At most this many bytes, length-prefixed.
    VarOpaque(u32),
    /// At most this many bytes of text, length-prefixed; same wire shape as `VarOpaque`.
    Str(u32),
    /// Exactly this many elements of the inner type, without a length prefix.
    Array(Box<Ty>, u32),
    /// At most this many elements of the inner type, length-prefixed.
    VarArray(Box<Ty>, u32),
    /// A presence flag, then the inner value when present.
    Optional(Box<Ty>),
    /// The fields, in declaration order.
    Struct(Vec<Ty>),
    /// A discriminant, then the payload of the arm it selects.
    Union(Vec<Arm>),
    /// A 32-bit value from a closed, declared set.
    Enum(Vec<i32>),
    /// The type at this index of the schema; recursive types go through it.
    Named(usize),
}

/// One arm of a union: the discriminant that selects it and its payload type.
#[derive(Debug)]
pub struct Arm {
    pub tag: i32,
    pub ty: Ty,
}

/// A value in memory.
#[derive(Debug, PartialEq, Eq)]
pub enum Value {
    Void,
    Bool(bool),
    Int(i32),
    UInt(u32),
    Hyper(i64),
    UHyper(u64),
    /// Contents of fixed or variable opaque data, or of a string.
    Bytes(Vec<u8>),
    /// Elements of a fixed or variable array.
    Array(Vec<Value>),
    Optional(Option<Box<Value>>),
    Struct(Vec<Value>),
    /// The discriminant and the payload of the selected arm.
    Union(i32, Box<Value>),
    Enum(i32),
}

/// The mathematical model of a `Value`.
pub enum Val {
    Void,
    Bool(bool),
    Int(i32),
    UInt(u32),
    Hyper(i64),
    UHyper(u64),
    Bytes(Seq<u8>),
    Array(Seq<Val>),
    Optional(Option<Box<Val>>),
    Struct(Seq<Val>),
    Union(i32, Box<Val>),
    Enum(i32),
}

pub open spec fn value_view(v: Value) -> Val
    decreases v,
{
    match v {
        Value::Void => Val::Void,
        Value::Bool(b) => Val::Bool(b),
        Value::Int(x) => Val::Int(x),
        Value::UInt(x) => Val::UInt(x),
        Value::Hyper(x) => Val::Hyper(x),
        Value::UHyper(x) => Val::UHyper(x),
        Value::Bytes(b) => Val::Bytes(b@),
        Value::Array(vs) => Val::Array(values_view(vs@)),
        Value::Optional(None) => Val::Optional(None),
        Value::Optional(Some(x)) => Val::Optional(Some(Box::new(value_view(*x)))),
        Value::Struct(vs) => Val::Struct(values_view(vs@)),
        Value::Union(d, x) => Val::Union(d, Box::new(value_view(*x))),
        Value::Enum(d) => Val::Enum(d),
    }
}

pub open spec fn values_view(vs: Seq<Value>) -> Seq<Val>
    decreases vs,
{
    if vs.len() == 0 {
        Seq::empty()
    } else {
        values_view(vs.drop_last()).push(value_view(vs.last()))
    }
}

impl View for Value {
    type V = Val;

    open spec fn view(&self) -> Val {
        value_view(*self)
    }
}

pub proof fn lemma_values_view_push(vs: Seq<Value>, x: Value)
    ensures
        values_view(vs.push(x)) == values_view(vs).push(value_view(x)),
{
    assert(vs.push(x).drop_last() =~= vs);
}

pub proof fn lemma_values_view_index(vs: Seq<Value>)
    ensures
        values_view(vs).len() == vs.len(),
        forall|i: int| 0 <= i < vs.len() ==> #[trigger] values_view(vs)[i] == value_view(vs[i]),
    decreases vs.len(),
{
    if vs.len() > 0 {
        lemma_values_view_index(vs.drop_last());
    }
}

} // verus!
