//! Schemas, decode limits, and the top-level entry points.
use vstd::prelude::*;

use crate::codec::{contains_tag, decode_at, decoded, encode_into, find_arm_index};
use crate::error::DecodeError;
use crate::model::{dec, enc, lemma_find_arm_found, rank, resolves, schema_ok, ty_ok, wf_fields, wf_value, wf_values};
use crate::types::{lemma_values_view_index, value_view, values_view, Arm, Ty, Val, Value};

verus! {

/// The named types of a wire format; `Ty::Named(k)` refers to `types[k]`.
pub struct Schema {
    pub types: Vec<Ty>,
}

/// Bounds on one decode: how many composite levels may nest, and how many
/// input bytes may be read.
#[derive(Clone, Copy, Debug, PartialEq, Eq, Structural)]
pub struct Limits {
    pub depth: u32,
    pub len: usize,
}

impl Limits {
    pub fn new(depth: u32, len: usize) -> (r: Limits)
        ensures
            r.depth == depth,
            r.len == len,
    {
        Limits { depth, len }
    }
}

/// The part of `bytes` that a decode under a byte budget of `len` may read.
pub open spec fn window(bytes: Seq<u8>, len: nat) -> Seq<u8> {
    if bytes.len() <= len { bytes } else { bytes.subrange(0, len as int) }
}

/// Decoding a value of `t` from the start of `bytes`: the value and the
/// number of bytes it took, or the first violation met.
pub open spec fn spec_decode_prefix(reg: Seq<Ty>, t: Ty, bytes: Seq<u8>, limits: Limits) -> Result<(Val, nat), DecodeError> {
    dec(reg, t, window(bytes, limits.len as nat), 0, limits.depth as nat)
}

/// Decoding a value of `t` that must take all of `bytes`.
pub open spec fn spec_decode(reg: Seq<Ty>, t: Ty, bytes: Seq<u8>, limits: Limits) -> Result<Val, DecodeError> {
    match spec_decode_prefix(reg, t, bytes, limits) {
        Ok((v, n)) => if n == bytes.len() {
            Ok(v)
        } else {
            Err(DecodeError::TrailingBytes)
        },
        Err(e) => Err(e),
    }
}

impl Schema {
    pub open spec fn wf(&self) -> bool {
        schema_ok(self.types@)
    }

    pub fn new(types: Vec<Ty>) -> (r: Schema)
        ensures
            r.types == types,
    {
        Schema { types }
    }

    /// Whether every entry is a usable definition: none is itself `Named`,
    /// and every reference inside one resolves.
    pub fn check(&self) -> (r: bool)
        ensures
            r == self.wf(),
    {
        let mut i: usize = 0;
        while i < self.types.len()
            invariant
                i <= self.types@.len(),
                forall|j: int| 0 <= j < i ==> !(#[trigger] self.types@[j] is Named) && ty_ok(self.types@, self.types@[j]),
            decreases self.types@.len() - i,
        {
            if let Ty::Named(_) = &self.types[i] {
                return false;
            }
            if !check_type(&self.types, &self.types[i]) {
                return false;
            }
            i = i + 1;
        }
        true
    }

    /// Whether every reference inside `t` resolves in this schema.
    pub fn check_type(&self, t: &Ty) -> (r: bool)
        ensures
            r == ty_ok(self.types@, *t),
    {
        check_type(&self.types, t)
    }

    /// Whether `v` is a value of `t`: shapes agree and all declared bounds hold.
    pub fn conforms(&self, t: &Ty, v: &Value) -> (r: bool)
        ensures
            r == wf_value(self.types@, *t, v@),
    {
        check_value(&self.types, t, v)
    }
}

fn check_type(reg: &Vec<Ty>, t: &Ty) -> (r: bool)
    ensures
        r == ty_ok(reg@, *t),
    decreases t,
{
    match t {
        Ty::Array(e, _) | Ty::VarArray(e, _) | Ty::Optional(e) => check_type(reg, e),
        Ty::Struct(fs) => check_types(reg, fs),
        Ty::Union(arms) => check_arms(reg, arms),
        Ty::Named(k) => {
            if *k >= reg.len() {
                return false;
            }
            if let Ty::Named(_) = &reg[*k] {
                false
            } else {
                true
            }
        },
        _ => true,
    }
}

fn check_types(reg: &Vec<Ty>, fs: &Vec<Ty>) -> (r: bool)
    ensures
        r == forall|j: int| 0 <= j < fs@.len() ==> ty_ok(reg@, #[trigger] fs@[j]),
    decreases fs,
{
    let mut i: usize = 0;
    while i < fs.len()
        invariant
            i <= fs@.len(),
            forall|j: int| 0 <= j < i ==> ty_ok(reg@, #[trigger] fs@[j]),
        decreases fs@.len() - i,
    {
        if !check_type(reg, &fs[i]) {
            assert(!ty_ok(reg@, fs@[i as int]));
            return false;
        }
        i = i + 1;
    }
    true
}

fn check_arms(reg: &Vec<Ty>, arms: &Vec<Arm>) -> (r: bool)
    ensures
        r == forall|j: int| 0 <= j < arms@.len() ==> ty_ok(reg@, #[trigger] arms@[j].ty),
    decreases arms,
{
    let mut i: usize = 0;
    while i < arms.len()
        invariant
            i <= arms@.len(),
            forall|j: int| 0 <= j < i ==> ty_ok(reg@, #[trigger] arms@[j].ty),
        decreases arms@.len() - i,
    {
        if !check_type(reg, &arms[i].ty) {
            assert(!ty_ok(reg@, arms@[i as int].ty));
            return false;
        }
        i = i + 1;
    }
    true
}

fn check_value(reg: &Vec<Ty>, t: &Ty, v: &Value) -> (r: bool)
    ensures
        r == wf_value(reg@, *t, v@),
    decreases v, rank(*t),
{
    match t {
        Ty::Void => matches!(v, Value::Void),
        Ty::Bool => matches!(v, Value::Bool(_)),
        Ty::Int => matches!(v, Value::Int(_)),
        Ty::UInt => matches!(v, Value::UInt(_)),
        Ty::Hyper => matches!(v, Value::Hyper(_)),
        Ty::UHyper => matches!(v, Value::UHyper(_)),
        Ty::Opaque(n) => match v {
            Value::Bytes(b) => b.len() == *n as usize,
            _ => false,
        },
        Ty::VarOpaque(m) | Ty::Str(m) => match v {
            Value::Bytes(b) => b.len() <= *m as usize,
            _ => false,
        },
        Ty::Array(e, n) => match v {
            Value::Array(vs) => {
                proof { lemma_values_view_index(vs@); }
                vs.len() == *n as usize && check_values(reg, e, vs)
            },
            _ => false,
        },
        Ty::VarArray(e, m) => match v {
            Value::Array(vs) => {
                proof { lemma_values_view_index(vs@); }
                vs.len() <= *m as usize && check_values(reg, e, vs)
            },
            _ => false,
        },
        Ty::Optional(e) => match v {
            Value::Optional(None) => true,
            Value::Optional(Some(x)) => check_value(reg, e, x),
            _ => false,
        },
        Ty::Struct(fs) => match v {
            Value::Struct(vs) => check_fields(reg, fs, vs),
            _ => false,
        },
        Ty::Union(arms) => match v {
            Value::Union(d, x) => {
                let found = find_arm_index(arms, *d);
                proof { lemma_find_arm_found(arms@, *d); }
                match found {
                    Some(i) => check_value(reg, &arms[i].ty, x),
                    None => false,
                }
            },
            _ => false,
        },
        Ty::Enum(ds) => match v {
            Value::Enum(d) => contains_tag(ds, *d),
            _ => false,
        },
        Ty::Named(k) => {
            if *k >= reg.len() {
                return false;
            }
            if let Ty::Named(_) = &reg[*k] {
                false
            } else {
                check_value(reg, &reg[*k], v)
            }
        },
    }
}

fn check_values(reg: &Vec<Ty>, e: &Ty, vs: &Vec<Value>) -> (r: bool)
    ensures
        r == wf_values(reg@, *e, values_view(vs@)),
    decreases vs, 0nat,
{
    let ghost all = values_view(vs@);
    proof { lemma_values_view_index(vs@); }
    assert(all.subrange(0, all.len() as int) =~= all);
    let mut i: usize = 0;
    while i < vs.len()
        invariant
            i <= vs@.len(),
            all == values_view(vs@),
            all.len() == vs@.len(),
            forall|j: int| 0 <= j < vs@.len() ==> #[trigger] all[j] == value_view(vs@[j]),
            wf_values(reg@, *e, all) == wf_values(reg@, *e, all.subrange(i as int, all.len() as int)),
        decreases vs@.len() - i,
    {
        let ghost rest = all.subrange(i as int, all.len() as int);
        assert(rest.drop_first() =~= all.subrange(i + 1, all.len() as int));
        assert(rest[0] == vs@[i as int]@);
        if !check_value(reg, e, &vs[i]) {
            return false;
        }
        i = i + 1;
    }
    true
}

fn check_fields(reg: &Vec<Ty>, fs: &Vec<Ty>, vs: &Vec<Value>) -> (r: bool)
    ensures
        r == wf_fields(reg@, fs@, values_view(vs@)),
    decreases vs, 0nat,
{
    let ghost all = values_view(vs@);
    proof { lemma_values_view_index(vs@); }
    if fs.len() != vs.len() {
        proof { lemma_fields_len(reg@, fs@, all); }
        return false;
    }
    assert(all.subrange(0, all.len() as int) =~= all);
    assert(fs@.subrange(0, fs@.len() as int) =~= fs@);
    let mut i: usize = 0;
    while i < vs.len()
        invariant
            i <= vs@.len(),
            fs@.len() == vs@.len(),
            all == values_view(vs@),
            all.len() == vs@.len(),
            forall|j: int| 0 <= j < vs@.len() ==> #[trigger] all[j] == value_view(vs@[j]),
            wf_fields(reg@, fs@, all) == wf_fields(
                reg@,
                fs@.subrange(i as int, fs@.len() as int),
                all.subrange(i as int, all.len() as int),
            ),
        decreases vs@.len() - i,
    {
        let ghost rest = all.subrange(i as int, all.len() as int);
        let ghost frest = fs@.subrange(i as int, fs@.len() as int);
        assert(rest.drop_first() =~= all.subrange(i + 1, all.len() as int));
        assert(frest.drop_first() =~= fs@.subrange(i + 1, fs@.len() as int));
        assert(rest[0] == vs@[i as int]@);
        if !check_value(reg, &fs[i], &vs[i]) {
            return false;
        }
        i = i + 1;
    }
    assert(fs@.subrange(i as int, fs@.len() as int).len() == 0);
    true
}

proof fn lemma_fields_len(reg: Seq<Ty>, fs: Seq<Ty>, vs: Seq<Val>)
    ensures
        wf_fields(reg, fs, vs) ==> fs.len() == vs.len(),
    decreases vs.len(),
{
    if vs.len() > 0 {
        lemma_fields_len(reg, fs.drop_first(), vs.drop_first());
    }
}

/// The encoding of `v` as a value of `t`.
pub fn encode(schema: &Schema, t: &Ty, v: &Value) -> (r: Vec<u8>)
    requires
        wf_value(schema.types@, *t, v@),
    ensures
        r@ == enc(schema.types@, *t, v@),
{
    let mut out: Vec<u8> = Vec::new();
    encode_into(&schema.types, t, v, &mut out);
    assert(out@ =~= enc(schema.types@, *t, v@));
    out
}

/// Decodes a value of `t` from the start of `bytes`, and says how many
/// bytes it took; what follows is left alone.
pub fn decode_prefix(schema: &Schema, t: &Ty, bytes: &[u8], limits: Limits) -> (r: Result<(Value, usize), DecodeError>)
    requires
        schema.wf(),
        ty_ok(schema.types@, *t),
    ensures
        decoded(r, spec_decode_prefix(schema.types@, *t, bytes@, limits)),
{
    let visible = if bytes.len() <= limits.len {
        bytes
    } else {
        vstd::slice::slice_subrange(bytes, 0, limits.len)
    };
    decode_at(&schema.types, t, visible, 0, limits.depth)
}

/// Decodes a value of `t` that must take all of `bytes`.
pub fn decode(schema: &Schema, t: &Ty, bytes: &[u8], limits: Limits) -> (r: Result<Value, DecodeError>)
    requires
        schema.wf(),
        ty_ok(schema.types@, *t),
    ensures
        match (r, spec_decode(schema.types@, *t, bytes@, limits)) {
            (Ok(v), Ok(w)) => v@ == w,
            (Err(e1), Err(e2)) => e1 == e2,
            _ => false,
        },
{
    let (v, n) = decode_prefix(schema, t, bytes, limits)?;
    if n == bytes.len() {
        Ok(v)
    } else {
        Err(DecodeError::TrailingBytes)
    }
}

} // verus!
