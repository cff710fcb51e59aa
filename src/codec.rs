//! Encoding and decoding of values of any schema type.
use vstd::prelude::*;

use crate::error::DecodeError;
use crate::model::{dec, dec_fields, dec_values, schema_ok, ty_ok, lemma_find_arm_found, enc, enc_fields, enc_values, find_arm, rank, wf_fields, wf_value, wf_values};
use crate::opaque::{read_fixed_opaque, read_var_opaque, write_fixed_opaque, write_var_opaque};
use crate::primitive::{read_bool, read_i32, read_i64, read_u32, read_u64, read_word, write_bool, write_i32, write_i64, write_u32, write_u64, write_word};
use crate::types::{lemma_values_view_push, lemma_values_view_index, value_view, values_view, Arm, Ty, Val, Value};

verus! {

/// Index of the first arm of `arms` tagged `d`.
pub fn find_arm_index(arms: &Vec<Arm>, d: i32) -> (r: Option<usize>)
    ensures
        match (r, find_arm(arms@, d)) {
            (Some(i), Some(j)) => i == j,
            (None, None) => true,
            _ => false,
        },
{
    let mut i: usize = 0;
    while i < arms.len()
        invariant
            i <= arms@.len(),
            find_arm(arms@.subrange(0, i as int), d) is None,
        decreases arms@.len() - i,
    {
        assert(arms@.subrange(0, i + 1).drop_last() =~= arms@.subrange(0, i as int));
        if arms[i].tag == d {
            proof { lemma_find_arm_prefix(arms@, d, (i + 1) as int); }
            return Some(i);
        }
        i = i + 1;
    }
    assert(arms@.subrange(0, i as int) =~= arms@);
    None
}

/// A first match inside a prefix is the first match of the whole.
proof fn lemma_find_arm_prefix(arms: Seq<Arm>, d: i32, n: int)
    requires
        0 <= n <= arms.len(),
        find_arm(arms.subrange(0, n), d) is Some,
    ensures
        find_arm(arms, d) == find_arm(arms.subrange(0, n), d),
    decreases arms.len() - n,
{
    if n < arms.len() {
        assert(arms.subrange(0, n + 1).drop_last() =~= arms.subrange(0, n));
        lemma_find_arm_prefix(arms, d, n + 1);
    } else {
        assert(arms.subrange(0, n) =~= arms);
    }
}

/// Appends the encoding of `v` as a value of `t`. `wf_value` rules out a
/// value whose shape differs from `t`, so each arm matches its own variant.
pub fn encode_into(reg: &Vec<Ty>, t: &Ty, v: &Value, out: &mut Vec<u8>)
    requires
        wf_value(reg@, *t, v@),
    ensures
        final(out)@ == old(out)@ + enc(reg@, *t, v@),
    decreases v, rank(*t),
{
    let ghost start = out@;
    match t {
        Ty::Void => {
            assert(out@ =~= start + enc(reg@, *t, v@));
        },
        Ty::Bool => if let Value::Bool(b) = v {
            write_bool(out, *b);
        },
        Ty::Int => if let Value::Int(x) = v {
            write_i32(out, *x);
        },
        Ty::UInt => if let Value::UInt(x) = v {
            write_u32(out, *x);
        },
        Ty::Hyper => if let Value::Hyper(x) = v {
            write_i64(out, *x);
        },
        Ty::UHyper => if let Value::UHyper(x) = v {
            write_u64(out, *x);
        },
        Ty::Opaque(_) => if let Value::Bytes(b) = v {
            write_fixed_opaque(out, b.as_slice());
        },
        Ty::VarOpaque(_) | Ty::Str(_) => if let Value::Bytes(b) = v {
            write_var_opaque(out, b.as_slice());
        },
        Ty::Array(e, _) => if let Value::Array(vs) = v {
            encode_values(reg, e, vs, out);
        },
        Ty::VarArray(e, _) => if let Value::Array(vs) = v {
            proof { lemma_values_view_index(vs@); }
            write_word(out, vs.len() as u32);
            encode_values(reg, e, vs, out);
            assert(out@ =~= start + enc(reg@, *t, v@));
        },
        Ty::Optional(e) => if let Value::Optional(o) = v {
            match o {
                None => write_word(out, 0),
                Some(x) => {
                    write_word(out, 1);
                    encode_into(reg, e, x, out);
                    assert(out@ =~= start + enc(reg@, *t, v@));
                },
            }
        },
        Ty::Struct(fs) => if let Value::Struct(vs) = v {
            encode_fields(reg, fs, vs, out);
        },
        Ty::Union(arms) => if let Value::Union(d, x) = v {
            write_i32(out, *d);
            let i = find_arm_index(arms, *d);
            proof { lemma_find_arm_found(arms@, *d); }
            if let Some(i) = i {
                encode_into(reg, &arms[i].ty, x, out);
            }
            assert(out@ =~= start + enc(reg@, *t, v@));
        },
        Ty::Enum(_) => if let Value::Enum(d) = v {
            write_i32(out, *d);
        },
        Ty::Named(k) => {
            encode_into(reg, &reg[*k], v, out);
        },
    }
}

/// Appends the encodings of the elements of `vs`, in order.
fn encode_values(reg: &Vec<Ty>, e: &Ty, vs: &Vec<Value>, out: &mut Vec<u8>)
    requires
        wf_values(reg@, *e, values_view(vs@)),
    ensures
        final(out)@ == old(out)@ + enc_values(reg@, *e, values_view(vs@)),
    decreases vs, 0nat,
{
    let ghost start = out@;
    let ghost all = values_view(vs@);
    proof { lemma_values_view_index(vs@); }
    assert(all.subrange(0, all.len() as int) =~= all);
    let mut i: usize = 0;
    while i < vs.len()
        invariant
            i <= vs@.len(),
            all == values_view(vs@),
            all.len() == vs@.len(),
            forall|j: int| 0 <= j < vs@.len() ==> #[trigger] all[j] == value_view(vs@[j]),
            wf_values(reg@, *e, all.subrange(i as int, all.len() as int)),
            start + enc_values(reg@, *e, all) == out@ + enc_values(
                reg@,
                *e,
                all.subrange(i as int, all.len() as int),
            ),
        decreases vs@.len() - i,
    {
        let ghost rest = all.subrange(i as int, all.len() as int);
        assert(rest.drop_first() =~= all.subrange(i + 1, all.len() as int));
        assert(rest[0] == vs@[i as int]@);
        let ghost before = out@;
        encode_into(reg, e, &vs[i], out);
        assert(before + enc_values(reg@, *e, rest) =~= out@ + enc_values(
            reg@,
            *e,
            all.subrange(i + 1, all.len() as int),
        ));
        i = i + 1;
    }
    assert(out@ =~= start + enc_values(reg@, *e, all));
}

/// Appends the encodings of the fields `vs` of types `fs`, in order.
fn encode_fields(reg: &Vec<Ty>, fs: &Vec<Ty>, vs: &Vec<Value>, out: &mut Vec<u8>)
    requires
        wf_fields(reg@, fs@, values_view(vs@)),
    ensures
        final(out)@ == old(out)@ + enc_fields(reg@, fs@, values_view(vs@)),
    decreases vs, 0nat,
{
    let ghost start = out@;
    let ghost all = values_view(vs@);
    proof {
        lemma_values_view_index(vs@);
        lemma_wf_fields_len(reg@, fs@, all);
    }
    assert(all.subrange(0, all.len() as int) =~= all);
    assert(fs@.subrange(0, fs@.len() as int) =~= fs@);
    let mut i: usize = 0;
    while i < vs.len()
        invariant
            i <= vs@.len(),
            fs@.len() == vs@.len(),
            all == values_view(vs@),
            all.len() == vs@.len(),
            forall|j: int| 0 <= j < vs@.len() ==> #[trigger] all[j] == value_view(vs@[j]),
            wf_fields(
                reg@,
                fs@.subrange(i as int, fs@.len() as int),
                all.subrange(i as int, all.len() as int),
            ),
            start + enc_fields(reg@, fs@, all) == out@ + enc_fields(
                reg@,
                fs@.subrange(i as int, fs@.len() as int),
                all.subrange(i as int, all.len() as int),
            ),
        decreases vs@.len() - i,
    {
        let ghost rest = all.subrange(i as int, all.len() as int);
        let ghost frest = fs@.subrange(i as int, fs@.len() as int);
        assert(rest.drop_first() =~= all.subrange(i + 1, all.len() as int));
        assert(frest.drop_first() =~= fs@.subrange(i + 1, fs@.len() as int));
        assert(rest[0] == vs@[i as int]@);
        let ghost before = out@;
        encode_into(reg, &fs[i], &vs[i], out);
        assert(before + enc_fields(reg@, frest, rest) =~= out@ + enc_fields(
            reg@,
            fs@.subrange(i + 1, fs@.len() as int),
            all.subrange(i + 1, all.len() as int),
        ));
        i = i + 1;
    }
    assert(out@ =~= start + enc_fields(reg@, fs@, all));
}

proof fn lemma_wf_fields_len(reg: Seq<Ty>, fs: Seq<Ty>, vs: Seq<Val>)
    requires
        wf_fields(reg, fs, vs),
    ensures
        fs.len() == vs.len(),
    decreases vs.len(),
{
    if vs.len() > 0 {
        lemma_wf_fields_len(reg, fs.drop_first(), vs.drop_first());
    }
}

/// An executable decode result `r` matches the modelled result `m`: a value
/// with the same model and the same end position, or the same error.
pub open spec fn decoded(r: Result<(Value, usize), DecodeError>, m: Result<(Val, nat), DecodeError>) -> bool {
    match (r, m) {
        (Ok((v, p)), Ok((w, q))) => v@ == w && p == q,
        (Err(e1), Err(e2)) => e1 == e2,
        _ => false,
    }
}

/// `r` matches the modelled result `m` of decoding a sequence of values.
pub open spec fn decoded_seq(r: Result<(Vec<Value>, usize), DecodeError>, m: Result<(Seq<Val>, nat), DecodeError>) -> bool {
    match (r, m) {
        (Ok((vs, p)), Ok((ws, q))) => values_view(vs@) == ws && p == q,
        (Err(e1), Err(e2)) => e1 == e2,
        _ => false,
    }
}

/// `ds` holds `d`.
pub fn contains_tag(ds: &Vec<i32>, d: i32) -> (r: bool)
    ensures
        r == ds@.contains(d),
{
    let mut i: usize = 0;
    while i < ds.len()
        invariant
            i <= ds@.len(),
            forall|j: int| 0 <= j < i ==> ds@[j] != d,
        decreases ds@.len() - i,
    {
        if ds[i] == d {
            return true;
        }
        i = i + 1;
    }
    false
}

/// Decodes a value of `t` at `pos` with `fuel` levels of nesting left.
/// Every composite level checks the budget before it reads, and hands one
/// level less to what it contains.
pub fn decode_at(reg: &Vec<Ty>, t: &Ty, s: &[u8], pos: usize, fuel: u32) -> (r: Result<(Value, usize), DecodeError>)
    requires
        pos <= s@.len(),
        schema_ok(reg@),
        ty_ok(reg@, *t),
    ensures
        decoded(r, dec(reg@, *t, s@, pos as nat, fuel as nat)),
        r matches Ok((_, p)) ==> pos <= p <= s@.len(),
    decreases fuel, rank(*t),
{
    match t {
        Ty::Void => Ok((Value::Void, pos)),
        Ty::Bool => {
            let (b, p) = read_bool(s, pos)?;
            Ok((Value::Bool(b), p))
        },
        Ty::Int => {
            let (x, p) = read_i32(s, pos)?;
            Ok((Value::Int(x), p))
        },
        Ty::UInt => {
            let (x, p) = read_u32(s, pos)?;
            Ok((Value::UInt(x), p))
        },
        Ty::Hyper => {
            let (x, p) = read_i64(s, pos)?;
            Ok((Value::Hyper(x), p))
        },
        Ty::UHyper => {
            let (x, p) = read_u64(s, pos)?;
            Ok((Value::UHyper(x), p))
        },
        Ty::Opaque(n) => {
            let (b, p) = read_fixed_opaque(s, pos, *n as usize)?;
            Ok((Value::Bytes(b), p))
        },
        Ty::VarOpaque(m) | Ty::Str(m) => {
            let (b, p) = read_var_opaque(s, pos, *m)?;
            Ok((Value::Bytes(b), p))
        },
        Ty::Array(e, n) => {
            if fuel == 0 {
                return Err(DecodeError::DepthLimitExceeded);
            }
            let (vs, p) = decode_values(reg, e, s, pos, *n, fuel - 1)?;
            Ok((Value::Array(vs), p))
        },
        Ty::VarArray(e, m) => {
            if fuel == 0 {
                return Err(DecodeError::DepthLimitExceeded);
            }
            let (len, p) = read_word(s, pos)?;
            if len > *m {
                return Err(DecodeError::LengthExceedsMax);
            }
            let (vs, q) = decode_values(reg, e, s, p, len, fuel - 1)?;
            Ok((Value::Array(vs), q))
        },
        Ty::Optional(e) => {
            if fuel == 0 {
                return Err(DecodeError::DepthLimitExceeded);
            }
            let (flag, p) = read_word(s, pos)?;
            if flag == 0 {
                Ok((Value::Optional(None), p))
            } else if flag == 1 {
                let (x, q) = decode_at(reg, e, s, p, fuel - 1)?;
                Ok((Value::Optional(Some(Box::new(x))), q))
            } else {
                Err(DecodeError::InvalidOptionFlag)
            }
        },
        Ty::Struct(fs) => {
            if fuel == 0 {
                return Err(DecodeError::DepthLimitExceeded);
            }
            let (vs, p) = decode_fields(reg, fs, s, pos, fuel - 1)?;
            Ok((Value::Struct(vs), p))
        },
        Ty::Union(arms) => {
            if fuel == 0 {
                return Err(DecodeError::DepthLimitExceeded);
            }
            let (d, p) = read_i32(s, pos)?;
            let found = find_arm_index(arms, d);
            proof { lemma_find_arm_found(arms@, d); }
            match found {
                Some(i) => {
                    let (x, q) = decode_at(reg, &arms[i].ty, s, p, fuel - 1)?;
                    Ok((Value::Union(d, Box::new(x)), q))
                },
                None => Err(DecodeError::InvalidDiscriminant(d)),
            }
        },
        Ty::Enum(ds) => {
            let (d, p) = read_i32(s, pos)?;
            if contains_tag(ds, d) {
                Ok((Value::Enum(d), p))
            } else {
                Err(DecodeError::InvalidDiscriminant(d))
            }
        },
        Ty::Named(k) => decode_at(reg, &reg[*k], s, pos, fuel),
    }
}

/// Decodes `count` values of `e`, one after the other.
fn decode_values(reg: &Vec<Ty>, e: &Ty, s: &[u8], pos: usize, count: u32, fuel: u32) -> (r: Result<(Vec<Value>, usize), DecodeError>)
    requires
        pos <= s@.len(),
        schema_ok(reg@),
        ty_ok(reg@, *e),
    ensures
        decoded_seq(r, dec_values(reg@, *e, s@, pos as nat, count as nat, Seq::empty(), fuel as nat)),
        r matches Ok((_, p)) ==> pos <= p <= s@.len(),
    decreases fuel, 2nat,
{
    let mut acc: Vec<Value> = Vec::new();
    let mut p = pos;
    let mut i: u32 = 0;
    while i < count
        invariant
            i <= count,
            pos <= p <= s@.len(),
            schema_ok(reg@),
            ty_ok(reg@, *e),
            dec_values(reg@, *e, s@, pos as nat, count as nat, Seq::empty(), fuel as nat)
                == dec_values(reg@, *e, s@, p as nat, (count - i) as nat, values_view(acc@), fuel as nat),
        decreases count - i,
    {
        let (x, q) = decode_at(reg, e, s, p, fuel)?;
        proof { lemma_values_view_push(acc@, x); }
        acc.push(x);
        p = q;
        i = i + 1;
    }
    Ok((acc, p))
}

/// Decodes one value per field of `fs`, in declaration order.
fn decode_fields(reg: &Vec<Ty>, fs: &Vec<Ty>, s: &[u8], pos: usize, fuel: u32) -> (r: Result<(Vec<Value>, usize), DecodeError>)
    requires
        pos <= s@.len(),
        schema_ok(reg@),
        forall|i: int| 0 <= i < fs.len() ==> ty_ok(reg@, #[trigger] fs@[i]),
    ensures
        decoded_seq(r, dec_fields(reg@, fs@, s@, pos as nat, Seq::empty(), fuel as nat)),
        r matches Ok((_, p)) ==> pos <= p <= s@.len(),
    decreases fuel, 2nat,
{
    let mut acc: Vec<Value> = Vec::new();
    let mut p = pos;
    let mut i: usize = 0;
    assert(fs@.subrange(0, fs@.len() as int) =~= fs@);
    while i < fs.len()
        invariant
            i <= fs@.len(),
            pos <= p <= s@.len(),
            schema_ok(reg@),
            forall|j: int| 0 <= j < fs.len() ==> ty_ok(reg@, #[trigger] fs@[j]),
            dec_fields(reg@, fs@, s@, pos as nat, Seq::empty(), fuel as nat)
                == dec_fields(reg@, fs@.subrange(i as int, fs@.len() as int), s@, p as nat, values_view(acc@), fuel as nat),
        decreases fs@.len() - i,
    {
        let ghost rest = fs@.subrange(i as int, fs@.len() as int);
        assert(rest.drop_first() =~= fs@.subrange(i + 1, fs@.len() as int));
        let (x, q) = decode_at(reg, &fs[i], s, p, fuel)?;
        proof { lemma_values_view_push(acc@, x); }
        acc.push(x);
        p = q;
        i = i + 1;
    }
    Ok((acc, p))
}

} // verus!
