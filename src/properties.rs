//! What holds of encoding and decoding together.
use vstd::prelude::*;

use crate::error::DecodeError;
use crate::model::{
    dec, dec_fields, dec_values, enc, enc_fields, enc_values, find_arm, need, need_fields,
    need_values, rank, resolves, wf_fields, wf_value, wf_values,
};
use crate::opaque::{fixed_opaque_bytes, lemma_pad_len, var_opaque_bytes, lemma_read_fixed_opaque_bytes, lemma_read_var_opaque_bytes};
use crate::primitive::{holds_at, i32_bytes, lemma_read_scalars, lemma_read_word_bytes, word_bytes};
use crate::types::{Ty, Val};

verus! {

/// `s` holds `a + b` at `pos` exactly when it holds `a` there and `b` right after.
pub proof fn lemma_holds_concat(s: Seq<u8>, pos: nat, a: Seq<u8>, b: Seq<u8>)
    ensures
        holds_at(s, pos, a + b) <==> holds_at(s, pos, a) && holds_at(s, pos + a.len(), b),
{
    let p = pos as int;
    if holds_at(s, pos, a + b) {
        assert(s.subrange(p, p + a.len()) =~= (a + b).subrange(0, a.len() as int));
        assert((a + b).subrange(0, a.len() as int) =~= a);
        assert(s.subrange(p + a.len(), p + a.len() + b.len()) =~= (a + b).subrange(
            a.len() as int,
            (a.len() + b.len()) as int,
        ));
        assert((a + b).subrange(a.len() as int, (a.len() + b.len()) as int) =~= b);
    }
    if holds_at(s, pos, a) && holds_at(s, pos + a.len(), b) {
        assert forall|i: int| 0 <= i < a.len() + b.len() implies s.subrange(
            p,
            p + a.len() + b.len(),
        )[i] == (a + b)[i] by {
            if i < a.len() {
                assert(s.subrange(p, p + a.len())[i] == a[i]);
            } else {
                assert(s.subrange(p + a.len(), p + a.len() + b.len())[i - a.len()] == b[i - a.len()]);
            }
        }
        assert(s.subrange(p, p + (a + b).len()) =~= a + b);
    }
}

/// Decoding the encoding of a value gives the value back and stops right
/// after it, when the depth budget covers the value's nesting; otherwise it
/// fails with `DepthLimitExceeded`. Whatever follows in `s` does not matter.
pub proof fn lemma_dec_enc(reg: Seq<Ty>, t: Ty, v: Val, s: Seq<u8>, pos: nat, fuel: nat)
    requires
        wf_value(reg, t, v),
        holds_at(s, pos, enc(reg, t, v)),
    ensures
        dec(reg, t, s, pos, fuel) == (if need(reg, t, v) <= fuel {
            Ok::<(Val, nat), DecodeError>((v, pos + enc(reg, t, v).len()))
        } else {
            Err(DecodeError::DepthLimitExceeded)
        }),
    decreases v, rank(t),
{
    lemma_read_scalars(s, pos);
    match t {
        Ty::Opaque(_) => {
            let b = v->Bytes_0;
            lemma_read_fixed_opaque_bytes(b, s, pos);
        },
        Ty::VarOpaque(m) => {
            let b = v->Bytes_0;
            lemma_read_var_opaque_bytes(b, m as nat, s, pos);
        },
        Ty::Str(m) => {
            let b = v->Bytes_0;
            lemma_read_var_opaque_bytes(b, m as nat, s, pos);
        },
        Ty::Array(e, _) => {
            let vs = v->Array_0;
            if fuel > 0 {
                lemma_dec_enc_values(reg, *e, vs, s, pos, Seq::empty(), (fuel - 1) as nat);
                assert(Seq::<Val>::empty() + vs =~= vs);
            }
        },
        Ty::VarArray(e, _) => {
            let vs = v->Array_0;
            if fuel > 0 {
                lemma_holds_concat(s, pos, word_bytes(vs.len()), enc_values(reg, *e, vs));
                lemma_read_word_bytes(vs.len(), s, pos);
                lemma_dec_enc_values(reg, *e, vs, s, pos + 4, Seq::empty(), (fuel - 1) as nat);
                assert(Seq::<Val>::empty() + vs =~= vs);
            }
        },
        Ty::Optional(e) => {
            if fuel > 0 {
                match v {
                    Val::Optional(None) => {
                        lemma_read_word_bytes(0, s, pos);
                    },
                    Val::Optional(Some(x)) => {
                        lemma_holds_concat(s, pos, word_bytes(1), enc(reg, *e, *x));
                        lemma_read_word_bytes(1, s, pos);
                        lemma_dec_enc(reg, *e, *x, s, pos + 4, (fuel - 1) as nat);
                    },
                    _ => {},
                }
            }
        },
        Ty::Struct(fs) => {
            let vs = v->Struct_0;
            if fuel > 0 {
                lemma_dec_enc_fields(reg, fs@, vs, s, pos, Seq::empty(), (fuel - 1) as nat);
                assert(Seq::<Val>::empty() + vs =~= vs);
            }
        },
        Ty::Union(arms) => {
            if fuel > 0 {
                if let Val::Union(d, x) = v {
                    let i = find_arm(arms@, d)->Some_0;
                    lemma_holds_concat(s, pos, i32_bytes(d), enc(reg, arms@[i].ty, *x));
                    lemma_dec_enc(reg, arms@[i].ty, *x, s, pos + 4, (fuel - 1) as nat);
                }
            }
        },
        Ty::Named(k) => {
            lemma_dec_enc(reg, reg[k as int], v, s, pos, fuel);
        },
        _ => {},
    }
}

/// Every encoding of a value of its type is a whole number of 4-byte words.
pub proof fn lemma_enc_aligned(reg: Seq<Ty>, t: Ty, v: Val)
    requires
        wf_value(reg, t, v),
    ensures
        enc(reg, t, v).len() % 4 == 0,
    decreases v, rank(t),
{
    match t {
        Ty::Opaque(_) | Ty::VarOpaque(_) | Ty::Str(_) => lemma_pad_len(v->Bytes_0.len()),
        Ty::Array(e, _) | Ty::VarArray(e, _) => lemma_enc_values_aligned(reg, *e, v->Array_0),
        Ty::Optional(e) => {
            if let Val::Optional(Some(x)) = v {
                lemma_enc_aligned(reg, *e, *x);
            }
        },
        Ty::Struct(fs) => lemma_enc_fields_aligned(reg, fs@, v->Struct_0),
        Ty::Union(arms) => {
            if let Val::Union(d, x) = v {
                lemma_enc_aligned(reg, arms@[find_arm(arms@, d)->Some_0].ty, *x);
            }
        },
        Ty::Named(k) => lemma_enc_aligned(reg, reg[k as int], v),
        _ => {},
    }
}

pub proof fn lemma_enc_values_aligned(reg: Seq<Ty>, e: Ty, vs: Seq<Val>)
    requires
        wf_values(reg, e, vs),
    ensures
        enc_values(reg, e, vs).len() % 4 == 0,
    decreases vs, 0nat,
{
    if vs.len() > 0 {
        lemma_enc_aligned(reg, e, vs[0]);
        lemma_enc_values_aligned(reg, e, vs.drop_first());
    }
}

pub proof fn lemma_enc_fields_aligned(reg: Seq<Ty>, fs: Seq<Ty>, vs: Seq<Val>)
    requires
        wf_fields(reg, fs, vs),
    ensures
        enc_fields(reg, fs, vs).len() % 4 == 0,
    decreases vs, 0nat,
{
    if vs.len() > 0 {
        lemma_enc_aligned(reg, fs[0], vs[0]);
        lemma_enc_fields_aligned(reg, fs.drop_first(), vs.drop_first());
    }
}

/// `s` ends partway through the bytes `w` placed at `pos`: what is there
/// agrees with `w`, but at least one byte of `w` is missing.
pub open spec fn cut_at(s: Seq<u8>, pos: nat, w: Seq<u8>) -> bool {
    pos <= s.len() < pos + w.len() && s.subrange(pos as int, s.len() as int) == w.subrange(0, s.len() - pos)
}

/// A cut through `a + b` falls inside `a`, or leaves `a` whole and falls inside `b`.
pub proof fn lemma_cut_concat(s: Seq<u8>, pos: nat, a: Seq<u8>, b: Seq<u8>)
    requires
        cut_at(s, pos, a + b),
    ensures
        cut_at(s, pos, a) || (holds_at(s, pos, a) && cut_at(s, pos + a.len(), b)),
{
    let p = pos as int;
    let n = s.len() as int;
    if n < p + a.len() {
        assert(s.subrange(p, n) =~= a.subrange(0, n - p)) by {
            assert forall|i: int| 0 <= i < n - p implies s.subrange(p, n)[i] == a[i] by {
                assert(s.subrange(p, n)[i] == (a + b).subrange(0, n - p)[i]);
            }
        }
    } else {
        assert(s.subrange(p, p + a.len()) =~= a) by {
            assert forall|i: int| 0 <= i < a.len() implies s.subrange(p, p + a.len())[i] == a[i] by {
                assert(s.subrange(p, n)[i] == (a + b).subrange(0, n - p)[i]);
            }
        }
        assert(s.subrange(p + a.len(), n) =~= b.subrange(0, n - p - a.len())) by {
            assert forall|i: int| 0 <= i < n - p - a.len() implies s.subrange(p + a.len(), n)[i] == b[i] by {
                assert(s.subrange(p, n)[i + a.len()] == (a + b).subrange(0, n - p)[i + a.len()]);
            }
        }
    }
}

/// Decoding a valid encoding that the input cuts short fails with
/// `UnexpectedEof`, provided the depth budget covers the value.
#[verifier::rlimit(40)]
pub proof fn lemma_dec_cut(reg: Seq<Ty>, t: Ty, v: Val, s: Seq<u8>, pos: nat, fuel: nat)
    requires
        wf_value(reg, t, v),
        need(reg, t, v) <= fuel,
        cut_at(s, pos, enc(reg, t, v)),
    ensures
        dec(reg, t, s, pos, fuel) == Err::<(Val, nat), DecodeError>(DecodeError::UnexpectedEof),
    decreases v, rank(t),
{
    match t {
        Ty::VarOpaque(_) | Ty::Str(_) => {
            let b = v->Bytes_0;
            lemma_cut_concat(s, pos, word_bytes(b.len()), fixed_opaque_bytes(b));
            if holds_at(s, pos, word_bytes(b.len())) {
                lemma_read_word_bytes(b.len(), s, pos);
            }
        },
        Ty::Array(e, _) => {
            lemma_dec_cut_values(reg, *e, v->Array_0, s, pos, Seq::empty(), (fuel - 1) as nat);
        },
        Ty::VarArray(e, _) => {
            let vs = v->Array_0;
            lemma_cut_concat(s, pos, word_bytes(vs.len()), enc_values(reg, *e, vs));
            if holds_at(s, pos, word_bytes(vs.len())) {
                lemma_read_word_bytes(vs.len(), s, pos);
                lemma_dec_cut_values(reg, *e, vs, s, pos + 4, Seq::empty(), (fuel - 1) as nat);
            }
        },
        Ty::Optional(e) => {
            if let Val::Optional(Some(x)) = v {
                lemma_cut_concat(s, pos, word_bytes(1), enc(reg, *e, *x));
                if holds_at(s, pos, word_bytes(1)) {
                    lemma_read_word_bytes(1, s, pos);
                    lemma_dec_cut(reg, *e, *x, s, pos + 4, (fuel - 1) as nat);
                }
            }
        },
        Ty::Struct(fs) => {
            lemma_dec_cut_fields(reg, fs@, v->Struct_0, s, pos, Seq::empty(), (fuel - 1) as nat);
        },
        Ty::Union(arms) => {
            if let Val::Union(d, x) = v {
                let i = find_arm(arms@, d)->Some_0;
                lemma_cut_concat(s, pos, i32_bytes(d), enc(reg, arms@[i].ty, *x));
                if holds_at(s, pos, i32_bytes(d)) {
                    lemma_read_scalars(s, pos);
                    lemma_dec_cut(reg, arms@[i].ty, *x, s, pos + 4, (fuel - 1) as nat);
                }
            }
        },
        Ty::Named(k) => {
            lemma_dec_cut(reg, reg[k as int], v, s, pos, fuel);
        },
        _ => {},
    }
}

/// Element by element form of `lemma_dec_cut`.
pub proof fn lemma_dec_cut_values(reg: Seq<Ty>, e: Ty, vs: Seq<Val>, s: Seq<u8>, pos: nat, acc: Seq<Val>, fuel: nat)
    requires
        wf_values(reg, e, vs),
        need_values(reg, e, vs) <= fuel,
        cut_at(s, pos, enc_values(reg, e, vs)),
    ensures
        dec_values(reg, e, s, pos, vs.len(), acc, fuel) == Err::<(Seq<Val>, nat), DecodeError>(
            DecodeError::UnexpectedEof,
        ),
    decreases vs, 0nat,
{
    let first = enc(reg, e, vs[0]);
    lemma_cut_concat(s, pos, first, enc_values(reg, e, vs.drop_first()));
    if holds_at(s, pos, first) {
        lemma_dec_enc(reg, e, vs[0], s, pos, fuel);
        lemma_dec_cut_values(reg, e, vs.drop_first(), s, pos + first.len(), acc.push(vs[0]), fuel);
    } else {
        lemma_dec_cut(reg, e, vs[0], s, pos, fuel);
    }
}

/// Field by field form of `lemma_dec_cut`.
pub proof fn lemma_dec_cut_fields(reg: Seq<Ty>, fs: Seq<Ty>, vs: Seq<Val>, s: Seq<u8>, pos: nat, acc: Seq<Val>, fuel: nat)
    requires
        wf_fields(reg, fs, vs),
        need_fields(reg, fs, vs) <= fuel,
        cut_at(s, pos, enc_fields(reg, fs, vs)),
    ensures
        dec_fields(reg, fs, s, pos, acc, fuel) == Err::<(Seq<Val>, nat), DecodeError>(
            DecodeError::UnexpectedEof,
        ),
    decreases vs, 0nat,
{
    let first = enc(reg, fs[0], vs[0]);
    lemma_cut_concat(s, pos, first, enc_fields(reg, fs.drop_first(), vs.drop_first()));
    if holds_at(s, pos, first) {
        lemma_dec_enc(reg, fs[0], vs[0], s, pos, fuel);
        lemma_dec_cut_fields(reg, fs.drop_first(), vs.drop_first(), s, pos + first.len(), acc.push(vs[0]), fuel);
    } else {
        lemma_dec_cut(reg, fs[0], vs[0], s, pos, fuel);
    }
}

/// Byte `i` of the encoding of `v` as `t` is alignment padding.
pub open spec fn pad_at(reg: Seq<Ty>, t: Ty, v: Val, i: int) -> bool
    decreases v, rank(t),
{
    match (t, v) {
        (Ty::Opaque(_), Val::Bytes(b)) => b.len() <= i < fixed_opaque_bytes(b).len(),
        (Ty::VarOpaque(_), Val::Bytes(b)) => 4 + b.len() <= i < var_opaque_bytes(b).len(),
        (Ty::Str(_), Val::Bytes(b)) => 4 + b.len() <= i < var_opaque_bytes(b).len(),
        (Ty::Array(e, _), Val::Array(vs)) => pad_at_values(reg, *e, vs, i),
        (Ty::VarArray(e, _), Val::Array(vs)) => pad_at_values(reg, *e, vs, i - 4),
        (Ty::Optional(e), Val::Optional(Some(x))) => pad_at(reg, *e, *x, i - 4),
        (Ty::Struct(fs), Val::Struct(vs)) => pad_at_fields(reg, fs@, vs, i),
        (Ty::Union(arms), Val::Union(d, x)) => match find_arm(arms@, d) {
            Some(j) => pad_at(reg, arms@[j].ty, *x, i - 4),
            None => false,
        },
        (Ty::Named(k), _) => resolves(reg, k) && pad_at(reg, reg[k as int], v, i),
        _ => false,
    }
}

/// Byte `i` of the concatenated encodings of `vs` is padding.
pub open spec fn pad_at_values(reg: Seq<Ty>, e: Ty, vs: Seq<Val>, i: int) -> bool
    decreases vs, 0nat,
{
    if vs.len() == 0 {
        false
    } else if i < enc(reg, e, vs[0]).len() {
        pad_at(reg, e, vs[0], i)
    } else {
        pad_at_values(reg, e, vs.drop_first(), i - enc(reg, e, vs[0]).len())
    }
}

/// Byte `i` of the concatenated encodings of the fields `vs` is padding.
pub open spec fn pad_at_fields(reg: Seq<Ty>, fs: Seq<Ty>, vs: Seq<Val>, i: int) -> bool
    decreases vs, 0nat,
{
    if vs.len() == 0 || fs.len() == 0 {
        false
    } else if i < enc(reg, fs[0], vs[0]).len() {
        pad_at(reg, fs[0], vs[0], i)
    } else {
        pad_at_fields(reg, fs.drop_first(), vs.drop_first(), i - enc(reg, fs[0], vs[0]).len())
    }
}

/// `s` holds `w` at `pos` except at offset `i`, where it holds a nonzero byte.
pub open spec fn flipped_at(s: Seq<u8>, pos: nat, w: Seq<u8>, i: int) -> bool {
    &&& pos + w.len() <= s.len()
    &&& 0 <= i < w.len()
    &&& s[pos + i] != 0
    &&& forall|j: int| 0 <= j < w.len() && j != i ==> s[pos + j] == #[trigger] w[j]
}

/// A flip inside `a + b` falls inside `a`, or leaves `a` whole and falls inside `b`.
pub proof fn lemma_flip_concat(s: Seq<u8>, pos: nat, a: Seq<u8>, b: Seq<u8>, i: int)
    requires
        flipped_at(s, pos, a + b, i),
    ensures
        i < a.len() ==> flipped_at(s, pos, a, i),
        i >= a.len() ==> holds_at(s, pos, a) && flipped_at(s, pos + a.len(), b, i - a.len()),
{
    let p = pos as int;
    assert forall|j: int| 0 <= j < a.len() && j != i implies s[p + j] == #[trigger] a[j] by {
        assert((a + b)[j] == a[j]);
    }
    if i >= a.len() {
        assert(s.subrange(p, p + a.len()) =~= a) by {
            assert forall|j: int| 0 <= j < a.len() implies s.subrange(p, p + a.len())[j] == a[j] by {
                assert((a + b)[j] == a[j]);
            }
        }
        assert forall|j: int| 0 <= j < b.len() && j != i - a.len() implies s[p + a.len() + j] == #[trigger] b[j] by {
            assert((a + b)[a.len() + j] == b[j]);
        }
    }
}

/// A padding position lies inside the encoding.
pub proof fn lemma_pad_at_range(reg: Seq<Ty>, t: Ty, v: Val, i: int)
    requires
        pad_at(reg, t, v, i),
    ensures
        0 <= i < enc(reg, t, v).len(),
    decreases v, rank(t),
{
    match (t, v) {
        (Ty::Array(e, _), Val::Array(vs)) => lemma_pad_at_values_range(reg, *e, vs, i),
        (Ty::VarArray(e, _), Val::Array(vs)) => lemma_pad_at_values_range(reg, *e, vs, i - 4),
        (Ty::Optional(e), Val::Optional(Some(x))) => lemma_pad_at_range(reg, *e, *x, i - 4),
        (Ty::Struct(fs), Val::Struct(vs)) => lemma_pad_at_fields_range(reg, fs@, vs, i),
        (Ty::Union(arms), Val::Union(d, x)) => {
            let j = find_arm(arms@, d)->Some_0;
            lemma_pad_at_range(reg, arms@[j].ty, *x, i - 4);
        },
        (Ty::Named(k), _) => lemma_pad_at_range(reg, reg[k as int], v, i),
        _ => {},
    }
}

pub proof fn lemma_pad_at_values_range(reg: Seq<Ty>, e: Ty, vs: Seq<Val>, i: int)
    requires
        pad_at_values(reg, e, vs, i),
    ensures
        0 <= i < enc_values(reg, e, vs).len(),
    decreases vs, 0nat,
{
    if i < enc(reg, e, vs[0]).len() {
        lemma_pad_at_range(reg, e, vs[0], i);
    } else {
        lemma_pad_at_values_range(reg, e, vs.drop_first(), i - enc(reg, e, vs[0]).len());
    }
}

pub proof fn lemma_pad_at_fields_range(reg: Seq<Ty>, fs: Seq<Ty>, vs: Seq<Val>, i: int)
    requires
        pad_at_fields(reg, fs, vs, i),
    ensures
        0 <= i < enc_fields(reg, fs, vs).len(),
    decreases vs, 0nat,
{
    if i < enc(reg, fs[0], vs[0]).len() {
        lemma_pad_at_range(reg, fs[0], vs[0], i);
    } else {
        lemma_pad_at_fields_range(reg, fs.drop_first(), vs.drop_first(), i - enc(reg, fs[0], vs[0]).len());
    }
}

/// Decoding a valid encoding in which one padding byte is nonzero fails
/// with `NonZeroPadding`, provided the depth budget covers the value.
#[verifier::rlimit(40)]
pub proof fn lemma_dec_flip(reg: Seq<Ty>, t: Ty, v: Val, s: Seq<u8>, pos: nat, fuel: nat, i: int)
    requires
        wf_value(reg, t, v),
        need(reg, t, v) <= fuel,
        pad_at(reg, t, v, i),
        flipped_at(s, pos, enc(reg, t, v), i),
    ensures
        dec(reg, t, s, pos, fuel) == Err::<(Val, nat), DecodeError>(DecodeError::NonZeroPadding),
    decreases v, rank(t),
{
    match t {
        Ty::Opaque(_) => {
            let b = v->Bytes_0;
            assert(s[pos + i] != 0);
        },
        Ty::VarOpaque(_) | Ty::Str(_) => {
            let b = v->Bytes_0;
            lemma_flip_concat(s, pos, word_bytes(b.len()), fixed_opaque_bytes(b), i);
            lemma_read_word_bytes(b.len(), s, pos);
            assert(s[pos + 4 + (i - 4)] != 0);
        },
        Ty::Array(e, _) => {
            lemma_dec_flip_values(reg, *e, v->Array_0, s, pos, Seq::empty(), (fuel - 1) as nat, i);
        },
        Ty::VarArray(e, _) => {
            let vs = v->Array_0;
            lemma_pad_at_values_range(reg, *e, vs, i - 4);
            lemma_flip_concat(s, pos, word_bytes(vs.len()), enc_values(reg, *e, vs), i);
            lemma_read_word_bytes(vs.len(), s, pos);
            lemma_dec_flip_values(reg, *e, vs, s, pos + 4, Seq::empty(), (fuel - 1) as nat, i - 4);
        },
        Ty::Optional(e) => {
            if let Val::Optional(Some(x)) = v {
                lemma_pad_at_range(reg, *e, *x, i - 4);
                lemma_flip_concat(s, pos, word_bytes(1), enc(reg, *e, *x), i);
                lemma_read_word_bytes(1, s, pos);
                lemma_dec_flip(reg, *e, *x, s, pos + 4, (fuel - 1) as nat, i - 4);
            }
        },
        Ty::Struct(fs) => {
            lemma_dec_flip_fields(reg, fs@, v->Struct_0, s, pos, Seq::empty(), (fuel - 1) as nat, i);
        },
        Ty::Union(arms) => {
            if let Val::Union(d, x) = v {
                let j = find_arm(arms@, d)->Some_0;
                lemma_pad_at_range(reg, arms@[j].ty, *x, i - 4);
                lemma_flip_concat(s, pos, i32_bytes(d), enc(reg, arms@[j].ty, *x), i);
                lemma_read_scalars(s, pos);
                lemma_dec_flip(reg, arms@[j].ty, *x, s, pos + 4, (fuel - 1) as nat, i - 4);
            }
        },
        Ty::Named(k) => {
            lemma_dec_flip(reg, reg[k as int], v, s, pos, fuel, i);
        },
        _ => {},
    }
}

/// Element by element form of `lemma_dec_flip`.
pub proof fn lemma_dec_flip_values(
    reg: Seq<Ty>,
    e: Ty,
    vs: Seq<Val>,
    s: Seq<u8>,
    pos: nat,
    acc: Seq<Val>,
    fuel: nat,
    i: int,
)
    requires
        wf_values(reg, e, vs),
        need_values(reg, e, vs) <= fuel,
        pad_at_values(reg, e, vs, i),
        flipped_at(s, pos, enc_values(reg, e, vs), i),
    ensures
        dec_values(reg, e, s, pos, vs.len(), acc, fuel) == Err::<(Seq<Val>, nat), DecodeError>(
            DecodeError::NonZeroPadding,
        ),
    decreases vs, 0nat,
{
    let first = enc(reg, e, vs[0]);
    lemma_flip_concat(s, pos, first, enc_values(reg, e, vs.drop_first()), i);
    if i < first.len() {
        lemma_dec_flip(reg, e, vs[0], s, pos, fuel, i);
    } else {
        lemma_dec_enc(reg, e, vs[0], s, pos, fuel);
        lemma_dec_flip_values(reg, e, vs.drop_first(), s, pos + first.len(), acc.push(vs[0]), fuel, i - first.len());
    }
}

/// Field by field form of `lemma_dec_flip`.
pub proof fn lemma_dec_flip_fields(
    reg: Seq<Ty>,
    fs: Seq<Ty>,
    vs: Seq<Val>,
    s: Seq<u8>,
    pos: nat,
    acc: Seq<Val>,
    fuel: nat,
    i: int,
)
    requires
        wf_fields(reg, fs, vs),
        need_fields(reg, fs, vs) <= fuel,
        pad_at_fields(reg, fs, vs, i),
        flipped_at(s, pos, enc_fields(reg, fs, vs), i),
    ensures
        dec_fields(reg, fs, s, pos, acc, fuel) == Err::<(Seq<Val>, nat), DecodeError>(
            DecodeError::NonZeroPadding,
        ),
    decreases vs, 0nat,
{
    let first = enc(reg, fs[0], vs[0]);
    lemma_flip_concat(s, pos, first, enc_fields(reg, fs.drop_first(), vs.drop_first()), i);
    if i < first.len() {
        lemma_dec_flip(reg, fs[0], vs[0], s, pos, fuel, i);
    } else {
        lemma_dec_enc(reg, fs[0], vs[0], s, pos, fuel);
        lemma_dec_flip_fields(reg, fs.drop_first(), vs.drop_first(), s, pos + first.len(), acc.push(vs[0]), fuel, i - first.len());
    }
}

/// Element by element form of `lemma_dec_enc`, after the values in `acc`.
pub proof fn lemma_dec_enc_values(reg: Seq<Ty>, e: Ty, vs: Seq<Val>, s: Seq<u8>, pos: nat, acc: Seq<Val>, fuel: nat)
    requires
        wf_values(reg, e, vs),
        holds_at(s, pos, enc_values(reg, e, vs)),
    ensures
        dec_values(reg, e, s, pos, vs.len(), acc, fuel) == (if need_values(reg, e, vs) <= fuel {
            Ok::<(Seq<Val>, nat), DecodeError>((acc + vs, pos + enc_values(reg, e, vs).len()))
        } else {
            Err(DecodeError::DepthLimitExceeded)
        }),
    decreases vs, 0nat,
{
    if vs.len() == 0 {
        assert(acc + vs =~= acc);
    } else {
        let first = enc(reg, e, vs[0]);
        lemma_holds_concat(s, pos, first, enc_values(reg, e, vs.drop_first()));
        lemma_dec_enc(reg, e, vs[0], s, pos, fuel);
        if need(reg, e, vs[0]) <= fuel {
            lemma_dec_enc_values(reg, e, vs.drop_first(), s, pos + first.len(), acc.push(vs[0]), fuel);
            assert(acc.push(vs[0]) + vs.drop_first() =~= acc + vs);
        }
    }
}

/// Field by field form of `lemma_dec_enc`, after the values in `acc`.
pub proof fn lemma_dec_enc_fields(reg: Seq<Ty>, fs: Seq<Ty>, vs: Seq<Val>, s: Seq<u8>, pos: nat, acc: Seq<Val>, fuel: nat)
    requires
        wf_fields(reg, fs, vs),
        holds_at(s, pos, enc_fields(reg, fs, vs)),
    ensures
        dec_fields(reg, fs, s, pos, acc, fuel) == (if need_fields(reg, fs, vs) <= fuel {
            Ok::<(Seq<Val>, nat), DecodeError>((acc + vs, pos + enc_fields(reg, fs, vs).len()))
        } else {
            Err(DecodeError::DepthLimitExceeded)
        }),
    decreases vs, 0nat,
{
    if vs.len() == 0 {
        assert(acc + vs =~= acc);
    } else {
        let first = enc(reg, fs[0], vs[0]);
        lemma_holds_concat(s, pos, first, enc_fields(reg, fs.drop_first(), vs.drop_first()));
        lemma_dec_enc(reg, fs[0], vs[0], s, pos, fuel);
        if need(reg, fs[0], vs[0]) <= fuel {
            lemma_dec_enc_fields(reg, fs.drop_first(), vs.drop_first(), s, pos + first.len(), acc.push(vs[0]), fuel);
            assert(acc.push(vs[0]) + vs.drop_first() =~= acc + vs);
        }
    }
}

} // verus!
