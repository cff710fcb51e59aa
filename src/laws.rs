//! Laws of the codec, stated over the top-level decode model.
use vstd::prelude::*;

use crate::error::DecodeError;
use crate::model::{enc, find_arm, need, wf_value};
use crate::primitive::{holds_at, i32_bytes, lemma_read_scalars, word_at};
use crate::properties::{cut_at, lemma_enc_aligned, flipped_at, lemma_dec_cut, lemma_dec_enc, lemma_dec_flip, lemma_pad_at_range, pad_at};
use crate::schema::{spec_decode, spec_decode_prefix, window, Limits};
use crate::types::{Ty, Val};

verus! {

proof fn lemma_holds_whole(w: Seq<u8>)
    ensures
        holds_at(w, 0, w),
{
    assert(w.subrange(0, w.len() as int) =~= w);
}

/// Alignment: the encoding of every value of its type is a multiple of
/// four bytes long.
pub proof fn law_aligned(reg: Seq<Ty>, t: Ty, v: Val)
    requires
        wf_value(reg, t, v),
    ensures
        enc(reg, t, v).len() % 4 == 0,
{
    lemma_enc_aligned(reg, t, v);
}

/// Round trip: a value of its type, decoded from its own encoding, comes
/// back unchanged, provided the limits allow its nesting depth and length.
pub proof fn law_round_trip(reg: Seq<Ty>, t: Ty, v: Val, limits: Limits)
    requires
        wf_value(reg, t, v),
        need(reg, t, v) <= limits.depth,
        enc(reg, t, v).len() <= limits.len,
    ensures
        spec_decode(reg, t, enc(reg, t, v), limits) == Ok::<Val, DecodeError>(v),
{
    let w = enc(reg, t, v);
    lemma_holds_whole(w);
    lemma_dec_enc(reg, t, v, w, 0, limits.depth as nat);
}

/// Decoding from the start of an encoding followed by anything else gives
/// the value and the length of its encoding, within the same limits.
pub proof fn law_round_trip_prefix(reg: Seq<Ty>, t: Ty, v: Val, rest: Seq<u8>, limits: Limits)
    requires
        wf_value(reg, t, v),
        need(reg, t, v) <= limits.depth,
        enc(reg, t, v).len() <= limits.len,
    ensures
        spec_decode_prefix(reg, t, enc(reg, t, v) + rest, limits) == Ok::<(Val, nat), DecodeError>(
            (v, enc(reg, t, v).len()),
        ),
{
    let w = enc(reg, t, v);
    let s = window(w + rest, limits.len as nat);
    assert(s.subrange(0, w.len() as int) =~= w);
    lemma_dec_enc(reg, t, v, s, 0, limits.depth as nat);
}

/// Depth limit: the encoding of a value nested deeper than the limit allows
/// fails with `DepthLimitExceeded`; with `law_round_trip`, a value nested
/// exactly as deep as the limit decodes.
pub proof fn law_depth_limit(reg: Seq<Ty>, t: Ty, v: Val, limits: Limits)
    requires
        wf_value(reg, t, v),
        need(reg, t, v) > limits.depth,
        enc(reg, t, v).len() <= limits.len,
    ensures
        spec_decode(reg, t, enc(reg, t, v), limits) == Err::<Val, DecodeError>(DecodeError::DepthLimitExceeded),
{
    let w = enc(reg, t, v);
    lemma_holds_whole(w);
    lemma_dec_enc(reg, t, v, w, 0, limits.depth as nat);
}

/// Truncation: any proper prefix of an encoding, such as the encoding with
/// its last byte removed, fails with `UnexpectedEof` when the depth limit
/// allows the value.
pub proof fn law_truncation(reg: Seq<Ty>, t: Ty, v: Val, k: nat, limits: Limits)
    requires
        wf_value(reg, t, v),
        need(reg, t, v) <= limits.depth,
        k < enc(reg, t, v).len(),
    ensures
        spec_decode(reg, t, enc(reg, t, v).subrange(0, k as int), limits) == Err::<Val, DecodeError>(
            DecodeError::UnexpectedEof,
        ),
{
    let w = enc(reg, t, v);
    let s = window(w.subrange(0, k as int), limits.len as nat);
    assert(s =~= w.subrange(0, s.len() as int));
    assert(s.subrange(0, s.len() as int) =~= w.subrange(0, s.len() - 0));
    assert(cut_at(s, 0, w));
    lemma_dec_cut(reg, t, v, s, 0, limits.depth as nat);
}

/// Padding strictness: setting any padding byte of an encoding to a nonzero
/// value makes decoding fail with `NonZeroPadding`, when the limits allow
/// the value.
pub proof fn law_padding(reg: Seq<Ty>, t: Ty, v: Val, i: int, x: u8, limits: Limits)
    requires
        wf_value(reg, t, v),
        need(reg, t, v) <= limits.depth,
        enc(reg, t, v).len() <= limits.len,
        pad_at(reg, t, v, i),
        x != 0,
    ensures
        spec_decode(reg, t, enc(reg, t, v).update(i, x), limits) == Err::<Val, DecodeError>(
            DecodeError::NonZeroPadding,
        ),
{
    let w = enc(reg, t, v);
    lemma_pad_at_range(reg, t, v, i);
    let s = w.update(i, x);
    assert(window(s, limits.len as nat) == s);
    assert(flipped_at(s, 0, w, i));
    lemma_dec_flip(reg, t, v, s, 0, limits.depth as nat, i);
}

/// A container with a length bound: variable opaque data, a string, or a
/// variable array.
pub open spec fn bounded(t: Ty) -> bool {
    t is VarOpaque || t is Str || t is VarArray
}

/// The declared maximum length of a bounded container.
pub open spec fn max_len_of(t: Ty) -> nat {
    match t {
        Ty::VarOpaque(m) => m as nat,
        Ty::Str(m) => m as nat,
        Ty::VarArray(_, m) => m as nat,
        _ => 0,
    }
}

/// Bound enforcement: a length prefix above the declared maximum (such as
/// the maximum plus one) fails with `LengthExceedsMax`, whatever follows.
/// An array first takes its nesting level, so it needs a depth of one.
pub proof fn law_length_exceeds_max(reg: Seq<Ty>, t: Ty, bytes: Seq<u8>, limits: Limits)
    requires
        bounded(t),
        t is VarArray ==> limits.depth > 0,
        4 <= bytes.len(),
        4 <= limits.len,
        word_at(bytes, 0) > max_len_of(t),
    ensures
        spec_decode_prefix(reg, t, bytes, limits) == Err::<(Val, nat), DecodeError>(DecodeError::LengthExceedsMax),
        spec_decode(reg, t, bytes, limits) == Err::<Val, DecodeError>(DecodeError::LengthExceedsMax),
{
    let s = window(bytes, limits.len as nat);
    assert(word_at(s, 0) == word_at(bytes, 0));
}

/// Bound enforcement, other side: a container holding exactly its declared
/// maximum number of items decodes.
pub proof fn law_length_at_max(reg: Seq<Ty>, t: Ty, v: Val, limits: Limits)
    requires
        bounded(t),
        wf_value(reg, t, v),
        match v {
            Val::Bytes(b) => b.len() == max_len_of(t),
            Val::Array(vs) => vs.len() == max_len_of(t),
            _ => false,
        },
        need(reg, t, v) <= limits.depth,
        enc(reg, t, v).len() <= limits.len,
    ensures
        spec_decode(reg, t, enc(reg, t, v), limits) == Ok::<Val, DecodeError>(v),
{
    law_round_trip(reg, t, v, limits);
}

/// Enum discriminants: the encoding of a declared value decodes to it; any
/// other value, such as one past the last declared, fails with
/// `InvalidDiscriminant`.
pub proof fn law_enum_discriminant(reg: Seq<Ty>, t: Ty, d: i32, limits: Limits)
    requires
        t is Enum,
        4 <= limits.len,
    ensures
        spec_decode(reg, t, i32_bytes(d), limits) == (if t->Enum_0@.contains(d) {
            Ok::<Val, DecodeError>(Val::Enum(d))
        } else {
            Err(DecodeError::InvalidDiscriminant(d))
        }),
{
    let w = i32_bytes(d);
    lemma_holds_whole(w);
    lemma_read_scalars(w, 0);
}

/// Union discriminants: a discriminant that selects no arm fails with
/// `InvalidDiscriminant`, whatever follows it. (A declared one, with its
/// payload, decodes by `law_round_trip`.)
pub proof fn law_union_discriminant(reg: Seq<Ty>, t: Ty, d: i32, rest: Seq<u8>, limits: Limits)
    requires
        t is Union,
        find_arm(t->Union_0@, d) is None,
        limits.depth > 0,
        4 <= limits.len,
    ensures
        spec_decode_prefix(reg, t, i32_bytes(d) + rest, limits) == Err::<(Val, nat), DecodeError>(
            DecodeError::InvalidDiscriminant(d),
        ),
{
    let s = window(i32_bytes(d) + rest, limits.len as nat);
    assert(s.subrange(0, 4) =~= i32_bytes(d));
    lemma_read_scalars(s, 0);
}

} // verus!
