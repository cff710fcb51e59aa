//! The wire format as mathematics: which values a type admits, their
//! encoding, the nesting depth that decoding them needs, and decoding itself.
//!
//! `reg` is the schema: the types that `Ty::Named` refers to.
use vstd::prelude::*;

use crate::error::DecodeError;
use crate::opaque::{fixed_opaque_bytes, spec_read_fixed_opaque, spec_read_var_opaque, var_opaque_bytes};
use crate::primitive::{
    bool_bytes, i32_bytes, i64_bytes, spec_read_bool, spec_read_i32, spec_read_i64, spec_read_u32,
    spec_read_u64, spec_read_word, u32_bytes, u64_bytes, word_bytes,
};
use crate::types::{Arm, Ty, Val};

verus! {

/// `Named` adds no depth, so a schema entry may not itself be `Named`.
pub open spec fn rank(t: Ty) -> nat {
    if t is Named { 1 } else { 0 }
}

/// `Named(k)` resolves in `reg` to a type that is not itself `Named`.
pub open spec fn resolves(reg: Seq<Ty>, k: usize) -> bool {
    k < reg.len() && !(reg[k as int] is Named)
}

/// Every `Named` inside `t` resolves in `reg`.
pub open spec fn ty_ok(reg: Seq<Ty>, t: Ty) -> bool
    decreases t,
{
    match t {
        Ty::Array(e, _) => ty_ok(reg, *e),
        Ty::VarArray(e, _) => ty_ok(reg, *e),
        Ty::Optional(e) => ty_ok(reg, *e),
        Ty::Struct(fs) => forall|i: int| 0 <= i < fs.len() ==> ty_ok(reg, #[trigger] fs@[i]),
        Ty::Union(arms) => forall|i: int| 0 <= i < arms.len() ==> ty_ok(reg, #[trigger] arms@[i].ty),
        Ty::Named(k) => resolves(reg, k),
        _ => true,
    }
}

/// A well-formed schema: no entry is itself `Named`, and every reference
/// inside an entry resolves.
pub open spec fn schema_ok(reg: Seq<Ty>) -> bool {
    forall|i: int| 0 <= i < reg.len() ==> !(#[trigger] reg[i] is Named) && ty_ok(reg, reg[i])
}

/// Index of the first arm whose tag is `d`.
pub open spec fn find_arm(arms: Seq<Arm>, d: i32) -> Option<int>
    decreases arms.len(),
{
    if arms.len() == 0 {
        None
    } else {
        match find_arm(arms.drop_last(), d) {
            Some(i) => Some(i),
            None => if arms.last().tag == d { Some(arms.len() - 1) } else { None },
        }
    }
}

/// The arm found carries the tag looked for; no arm carries it when none is found.
pub proof fn lemma_find_arm_found(arms: Seq<Arm>, d: i32)
    ensures
        match find_arm(arms, d) {
            Some(i) => 0 <= i < arms.len() && arms[i].tag == d,
            None => forall|j: int| 0 <= j < arms.len() ==> #[trigger] arms[j].tag != d,
        },
    decreases arms.len(),
{
    if arms.len() > 0 {
        lemma_find_arm_found(arms.drop_last(), d);
        assert forall|j: int| 0 <= j < arms.len() - 1 implies arms.drop_last()[j] == #[trigger] arms[j] by {}
    }
}

/// `v` is a value of type `t`: shapes agree and every declared bound holds.
pub open spec fn wf_value(reg: Seq<Ty>, t: Ty, v: Val) -> bool
    decreases v, rank(t),
{
    match t {
        Ty::Void => v is Void,
        Ty::Bool => v is Bool,
        Ty::Int => v is Int,
        Ty::UInt => v is UInt,
        Ty::Hyper => v is Hyper,
        Ty::UHyper => v is UHyper,
        Ty::Opaque(n) => v matches Val::Bytes(b) && b.len() == n,
        Ty::VarOpaque(m) => v matches Val::Bytes(b) && b.len() <= m,
        Ty::Str(m) => v matches Val::Bytes(b) && b.len() <= m,
        Ty::Array(e, n) => v matches Val::Array(vs) && vs.len() == n && wf_values(reg, *e, vs),
        Ty::VarArray(e, m) => v matches Val::Array(vs) && vs.len() <= m && wf_values(reg, *e, vs),
        Ty::Optional(e) => match v {
            Val::Optional(None) => true,
            Val::Optional(Some(x)) => wf_value(reg, *e, *x),
            _ => false,
        },
        Ty::Struct(fs) => v matches Val::Struct(vs) && wf_fields(reg, fs@, vs),
        Ty::Union(arms) => match v {
            Val::Union(d, x) => match find_arm(arms@, d) {
                Some(i) => wf_value(reg, arms@[i].ty, *x),
                None => false,
            },
            _ => false,
        },
        Ty::Enum(ds) => v matches Val::Enum(d) && ds@.contains(d),
        Ty::Named(k) => resolves(reg, k) && wf_value(reg, reg[k as int], v),
    }
}

/// Every element of `vs` is a value of `e`.
pub open spec fn wf_values(reg: Seq<Ty>, e: Ty, vs: Seq<Val>) -> bool
    decreases vs, 0nat,
{
    vs.len() == 0 || (wf_value(reg, e, vs[0]) && wf_values(reg, e, vs.drop_first()))
}

/// `vs` has one value per field of `fs`, each of its field's type.
pub open spec fn wf_fields(reg: Seq<Ty>, fs: Seq<Ty>, vs: Seq<Val>) -> bool
    decreases vs, 0nat,
{
    if vs.len() == 0 {
        fs.len() == 0
    } else {
        fs.len() > 0 && wf_value(reg, fs[0], vs[0]) && wf_fields(reg, fs.drop_first(), vs.drop_first())
    }
}

/// The bytes of `v` as a value of `t`.
pub open spec fn enc(reg: Seq<Ty>, t: Ty, v: Val) -> Seq<u8>
    decreases v, rank(t),
{
    match (t, v) {
        (Ty::Bool, Val::Bool(b)) => bool_bytes(b),
        (Ty::Int, Val::Int(x)) => i32_bytes(x),
        (Ty::UInt, Val::UInt(x)) => u32_bytes(x),
        (Ty::Hyper, Val::Hyper(x)) => i64_bytes(x),
        (Ty::UHyper, Val::UHyper(x)) => u64_bytes(x),
        (Ty::Opaque(_), Val::Bytes(b)) => fixed_opaque_bytes(b),
        (Ty::VarOpaque(_), Val::Bytes(b)) => var_opaque_bytes(b),
        (Ty::Str(_), Val::Bytes(b)) => var_opaque_bytes(b),
        (Ty::Array(e, _), Val::Array(vs)) => enc_values(reg, *e, vs),
        (Ty::VarArray(e, _), Val::Array(vs)) => word_bytes(vs.len()) + enc_values(reg, *e, vs),
        (Ty::Optional(_), Val::Optional(None)) => word_bytes(0),
        (Ty::Optional(e), Val::Optional(Some(x))) => word_bytes(1) + enc(reg, *e, *x),
        (Ty::Struct(fs), Val::Struct(vs)) => enc_fields(reg, fs@, vs),
        (Ty::Union(arms), Val::Union(d, x)) => i32_bytes(d) + match find_arm(arms@, d) {
            Some(i) => enc(reg, arms@[i].ty, *x),
            None => Seq::empty(),
        },
        (Ty::Enum(_), Val::Enum(d)) => i32_bytes(d),
        (Ty::Named(k), _) => if resolves(reg, k) { enc(reg, reg[k as int], v) } else { Seq::empty() },
        _ => Seq::empty(),
    }
}

/// The elements' encodings, concatenated in order.
pub open spec fn enc_values(reg: Seq<Ty>, e: Ty, vs: Seq<Val>) -> Seq<u8>
    decreases vs, 0nat,
{
    if vs.len() == 0 {
        Seq::empty()
    } else {
        enc(reg, e, vs[0]) + enc_values(reg, e, vs.drop_first())
    }
}

/// The fields' encodings, concatenated in declaration order.
pub open spec fn enc_fields(reg: Seq<Ty>, fs: Seq<Ty>, vs: Seq<Val>) -> Seq<u8>
    decreases vs, 0nat,
{
    if vs.len() == 0 || fs.len() == 0 {
        Seq::empty()
    } else {
        enc(reg, fs[0], vs[0]) + enc_fields(reg, fs.drop_first(), vs.drop_first())
    }
}

pub open spec fn max(a: nat, b: nat) -> nat {
    if a >= b { a } else { b }
}

/// The depth budget that decoding `v` as `t` needs: each struct, union,
/// optional and array level takes one.
pub open spec fn need(reg: Seq<Ty>, t: Ty, v: Val) -> nat
    decreases v, rank(t),
{
    match (t, v) {
        (Ty::Array(e, _), Val::Array(vs)) => 1 + need_values(reg, *e, vs),
        (Ty::VarArray(e, _), Val::Array(vs)) => 1 + need_values(reg, *e, vs),
        (Ty::Optional(_), Val::Optional(None)) => 1,
        (Ty::Optional(e), Val::Optional(Some(x))) => 1 + need(reg, *e, *x),
        (Ty::Struct(fs), Val::Struct(vs)) => 1 + need_fields(reg, fs@, vs),
        (Ty::Union(arms), Val::Union(d, x)) => 1 + match find_arm(arms@, d) {
            Some(i) => need(reg, arms@[i].ty, *x),
            None => 0,
        },
        (Ty::Named(k), _) => if resolves(reg, k) { need(reg, reg[k as int], v) } else { 0 },
        _ => 0,
    }
}

pub open spec fn need_values(reg: Seq<Ty>, e: Ty, vs: Seq<Val>) -> nat
    decreases vs, 0nat,
{
    if vs.len() == 0 {
        0
    } else {
        max(need(reg, e, vs[0]), need_values(reg, e, vs.drop_first()))
    }
}

pub open spec fn need_fields(reg: Seq<Ty>, fs: Seq<Ty>, vs: Seq<Val>) -> nat
    decreases vs, 0nat,
{
    if vs.len() == 0 || fs.len() == 0 {
        0
    } else {
        max(need(reg, fs[0], vs[0]), need_fields(reg, fs.drop_first(), vs.drop_first()))
    }
}

/// Decodes a value of `t` from `s` at `pos` with `fuel` levels of nesting
/// left: the value and the position after it, or the first violation met.
/// Each composite level checks the budget before it reads anything. A name
/// that does not resolve reads as the end of input; `schema_ok` rules it out.
pub open spec fn dec(reg: Seq<Ty>, t: Ty, s: Seq<u8>, pos: nat, fuel: nat) -> Result<(Val, nat), DecodeError>
    decreases fuel, 0nat, rank(t),
{
    match t {
        Ty::Void => Ok((Val::Void, pos)),
        Ty::Bool => match spec_read_bool(s, pos) {
            Ok((b, p)) => Ok((Val::Bool(b), p)),
            Err(e) => Err(e),
        },
        Ty::Int => match spec_read_i32(s, pos) {
            Ok((x, p)) => Ok((Val::Int(x), p)),
            Err(e) => Err(e),
        },
        Ty::UInt => match spec_read_u32(s, pos) {
            Ok((x, p)) => Ok((Val::UInt(x), p)),
            Err(e) => Err(e),
        },
        Ty::Hyper => match spec_read_i64(s, pos) {
            Ok((x, p)) => Ok((Val::Hyper(x), p)),
            Err(e) => Err(e),
        },
        Ty::UHyper => match spec_read_u64(s, pos) {
            Ok((x, p)) => Ok((Val::UHyper(x), p)),
            Err(e) => Err(e),
        },
        Ty::Opaque(n) => match spec_read_fixed_opaque(s, pos, n as nat) {
            Ok((b, p)) => Ok((Val::Bytes(b), p)),
            Err(e) => Err(e),
        },
        Ty::VarOpaque(m) => match spec_read_var_opaque(s, pos, m as nat) {
            Ok((b, p)) => Ok((Val::Bytes(b), p)),
            Err(e) => Err(e),
        },
        Ty::Str(m) => match spec_read_var_opaque(s, pos, m as nat) {
            Ok((b, p)) => Ok((Val::Bytes(b), p)),
            Err(e) => Err(e),
        },
        Ty::Array(e, n) => if fuel == 0 {
            Err(DecodeError::DepthLimitExceeded)
        } else {
            match dec_values(reg, *e, s, pos, n as nat, Seq::empty(), (fuel - 1) as nat) {
                Ok((vs, p)) => Ok((Val::Array(vs), p)),
                Err(e) => Err(e),
            }
        },
        Ty::VarArray(e, m) => if fuel == 0 {
            Err(DecodeError::DepthLimitExceeded)
        } else {
            match spec_read_word(s, pos) {
                Ok((len, p)) => if len > m {
                    Err(DecodeError::LengthExceedsMax)
                } else {
                    match dec_values(reg, *e, s, p, len, Seq::empty(), (fuel - 1) as nat) {
                        Ok((vs, q)) => Ok((Val::Array(vs), q)),
                        Err(e) => Err(e),
                    }
                },
                Err(e) => Err(e),
            }
        },
        Ty::Optional(e) => if fuel == 0 {
            Err(DecodeError::DepthLimitExceeded)
        } else {
            match spec_read_word(s, pos) {
                Ok((flag, p)) => if flag == 0 {
                    Ok((Val::Optional(None), p))
                } else if flag == 1 {
                    match dec(reg, *e, s, p, (fuel - 1) as nat) {
                        Ok((x, q)) => Ok((Val::Optional(Some(Box::new(x))), q)),
                        Err(e) => Err(e),
                    }
                } else {
                    Err(DecodeError::InvalidOptionFlag)
                },
                Err(e) => Err(e),
            }
        },
        Ty::Struct(fs) => if fuel == 0 {
            Err(DecodeError::DepthLimitExceeded)
        } else {
            match dec_fields(reg, fs@, s, pos, Seq::empty(), (fuel - 1) as nat) {
                Ok((vs, p)) => Ok((Val::Struct(vs), p)),
                Err(e) => Err(e),
            }
        },
        Ty::Union(arms) => if fuel == 0 {
            Err(DecodeError::DepthLimitExceeded)
        } else {
            match spec_read_i32(s, pos) {
                Ok((d, p)) => match find_arm(arms@, d) {
                    Some(i) => match dec(reg, arms@[i].ty, s, p, (fuel - 1) as nat) {
                        Ok((x, q)) => Ok((Val::Union(d, Box::new(x)), q)),
                        Err(e) => Err(e),
                    },
                    None => Err(DecodeError::InvalidDiscriminant(d)),
                },
                Err(e) => Err(e),
            }
        },
        Ty::Enum(ds) => match spec_read_i32(s, pos) {
            Ok((d, p)) => if ds@.contains(d) {
                Ok((Val::Enum(d), p))
            } else {
                Err(DecodeError::InvalidDiscriminant(d))
            },
            Err(e) => Err(e),
        },
        Ty::Named(k) => if resolves(reg, k) {
            dec(reg, reg[k as int], s, pos, fuel)
        } else {
            Err(DecodeError::UnexpectedEof)
        },
    }
}

/// Decodes `count` more elements of `e` after those already in `acc`.
pub open spec fn dec_values(
    reg: Seq<Ty>,
    e: Ty,
    s: Seq<u8>,
    pos: nat,
    count: nat,
    acc: Seq<Val>,
    fuel: nat,
) -> Result<(Seq<Val>, nat), DecodeError>
    decreases fuel, count + 1, 0nat,
{
    if count == 0 {
        Ok((acc, pos))
    } else {
        match dec(reg, e, s, pos, fuel) {
            Ok((x, p)) => dec_values(reg, e, s, p, (count - 1) as nat, acc.push(x), fuel),
            Err(err) => Err(err),
        }
    }
}

/// Decodes one value per field of `fs`, after those already in `acc`.
pub open spec fn dec_fields(
    reg: Seq<Ty>,
    fs: Seq<Ty>,
    s: Seq<u8>,
    pos: nat,
    acc: Seq<Val>,
    fuel: nat,
) -> Result<(Seq<Val>, nat), DecodeError>
    decreases fuel, fs.len() + 1, 0nat,
{
    if fs.len() == 0 {
        Ok((acc, pos))
    } else {
        match dec(reg, fs[0], s, pos, fuel) {
            Ok((x, p)) => dec_fields(reg, fs.drop_first(), s, p, acc.push(x), fuel),
            Err(err) => Err(err),
        }
    }
}

} // verus!
