//! Byte containers: fixed-size opaque data, and length-prefixed opaque data
//! and strings, each padded with zeros to a multiple of four bytes.
use vstd::prelude::*;

use crate::error::DecodeError;
use crate::primitive::{holds_at, lemma_read_word_bytes, read_word, spec_read_word, word_bytes, write_word};

verus! {

/// Number of zero bytes that follow `n` content bytes.
pub open spec fn pad_len(n: nat) -> nat {
    ((4 - n % 4) % 4) as nat
}

pub open spec fn zeros(k: nat) -> Seq<u8> {
    Seq::new(k, |i: int| 0u8)
}

/// Wire form of fixed-size opaque data: the bytes, then padding.
pub open spec fn fixed_opaque_bytes(b: Seq<u8>) -> Seq<u8> {
    b + zeros(pad_len(b.len()))
}

/// Wire form of variable-size opaque data or a string: the length as a
/// word, the bytes, then padding.
pub open spec fn var_opaque_bytes(b: Seq<u8>) -> Seq<u8> {
    word_bytes(b.len()) + fixed_opaque_bytes(b)
}

/// Reads `n` content bytes at `pos` followed by their padding, which must be
/// present in full and all zero.
pub open spec fn spec_read_fixed_opaque(s: Seq<u8>, pos: nat, n: nat) -> Result<(Seq<u8>, nat), DecodeError> {
    let end = pos + n;
    if end + pad_len(n) > s.len() {
        Err(DecodeError::UnexpectedEof)
    } else if exists|i: int| end <= i < end + pad_len(n) && s[i] != 0 {
        Err(DecodeError::NonZeroPadding)
    } else {
        Ok((s.subrange(pos as int, end as int), end + pad_len(n)))
    }
}

/// Reads a length prefix, rejects it if above `max`, then reads that many
/// bytes with their padding.
pub open spec fn spec_read_var_opaque(s: Seq<u8>, pos: nat, max: nat) -> Result<(Seq<u8>, nat), DecodeError> {
    match spec_read_word(s, pos) {
        Ok((len, p)) => if len > max {
            Err(DecodeError::LengthExceedsMax)
        } else {
            spec_read_fixed_opaque(s, p, len)
        },
        Err(e) => Err(e),
    }
}

pub proof fn lemma_pad_len(n: nat)
    ensures
        pad_len(n) < 4,
        (n + pad_len(n)) % 4 == 0,
{
}

/// Fixed-size opaque data, read back at `pos`, gives the same bytes.
pub proof fn lemma_read_fixed_opaque_bytes(b: Seq<u8>, s: Seq<u8>, pos: nat)
    requires
        holds_at(s, pos, fixed_opaque_bytes(b)),
    ensures
        spec_read_fixed_opaque(s, pos, b.len()) == Ok::<(Seq<u8>, nat), DecodeError>(
            (b, pos + fixed_opaque_bytes(b).len()),
        ),
{
    let w = fixed_opaque_bytes(b);
    let end = pos + b.len();
    assert forall|i: int| end <= i < end + pad_len(b.len()) implies s[i] == 0 by {
        assert(s[i] == w[i - pos]);
    }
    assert(s.subrange(pos as int, end as int) =~= b) by {
        assert forall|i: int| 0 <= i < b.len() implies s.subrange(pos as int, end as int)[i] == b[i] by {
            assert(s[pos + i] == w[i]);
        }
    }
}

/// Variable-size opaque data within `max`, read back at `pos`, gives the same bytes.
pub proof fn lemma_read_var_opaque_bytes(b: Seq<u8>, max: nat, s: Seq<u8>, pos: nat)
    requires
        b.len() <= max,
        b.len() < 0x1_0000_0000,
        holds_at(s, pos, var_opaque_bytes(b)),
    ensures
        spec_read_var_opaque(s, pos, max) == Ok::<(Seq<u8>, nat), DecodeError>(
            (b, pos + var_opaque_bytes(b).len()),
        ),
{
    let w = var_opaque_bytes(b);
    let f = fixed_opaque_bytes(b);
    let p = pos as int;
    assert(s.subrange(p, p + 4) =~= w.subrange(0, 4));
    assert(w.subrange(0, 4) =~= word_bytes(b.len()));
    lemma_read_word_bytes(b.len(), s, pos);
    assert(s.subrange(p + 4, p + 4 + f.len()) =~= f) by {
        assert forall|i: int| 0 <= i < f.len() implies s.subrange(p + 4, p + 4 + f.len())[i] == f[i] by {
            assert(s[pos + 4 + i] == w[4 + i]);
        }
    }
    assert(holds_at(s, pos + 4, f));
    lemma_read_fixed_opaque_bytes(b, s, pos + 4);
}

/// The padding after `n` content bytes, as a `usize`.
pub fn padding(n: usize) -> (r: usize)
    ensures
        r == pad_len(n as nat),
{
    (4 - n % 4) % 4
}

/// Appends `k` zero bytes.
fn write_zeros(out: &mut Vec<u8>, k: usize)
    ensures
        final(out)@ == old(out)@ + zeros(k as nat),
{
    let ghost start = out@;
    let mut i: usize = 0;
    while i < k
        invariant
            i <= k,
            out@ == start + zeros(i as nat),
        decreases k - i,
    {
        out.push(0u8);
        i = i + 1;
        assert(out@ =~= start + zeros(i as nat));
    }
}

/// Appends `b` followed by its padding.
pub fn write_fixed_opaque(out: &mut Vec<u8>, b: &[u8])
    ensures
        final(out)@ == old(out)@ + fixed_opaque_bytes(b@),
{
    let ghost start = out@;
    let mut i: usize = 0;
    while i < b.len()
        invariant
            i <= b@.len(),
            out@ == start + b@.subrange(0, i as int),
        decreases b@.len() - i,
    {
        out.push(b[i]);
        i = i + 1;
        assert(out@ =~= start + b@.subrange(0, i as int));
    }
    assert(b@.subrange(0, b@.len() as int) =~= b@);
    write_zeros(out, padding(b.len()));
    assert(out@ =~= start + fixed_opaque_bytes(b@));
}

/// Appends the length of `b` as a word, then `b` and its padding.
pub fn write_var_opaque(out: &mut Vec<u8>, b: &[u8])
    requires
        b@.len() < 0x1_0000_0000,
    ensures
        final(out)@ == old(out)@ + var_opaque_bytes(b@),
{
    let ghost start = out@;
    write_word(out, b.len() as u32);
    write_fixed_opaque(out, b);
    assert(out@ =~= start + var_opaque_bytes(b@));
}

/// Reads `n` bytes at `pos` and checks their padding.
pub fn read_fixed_opaque(s: &[u8], pos: usize, n: usize) -> (r: Result<(Vec<u8>, usize), DecodeError>)
    requires
        pos <= s@.len(),
    ensures
        match (r, spec_read_fixed_opaque(s@, pos as nat, n as nat)) {
            (Ok((b, p)), Ok((c, q))) => b@ == c && p == q,
            (Err(e1), Err(e2)) => e1 == e2,
            _ => false,
        },
{
    let pad = padding(n);
    let len = s.len();
    let rest = len - pos;
    if n > rest || pad > rest - n {
        return Err(DecodeError::UnexpectedEof);
    }
    let end = pos + n;
    let mut i: usize = 0;
    while i < pad
        invariant
            i <= pad,
            pad == pad_len(n as nat),
            end == pos + n,
            end + pad <= len,
            len == s@.len(),
            forall|j: int| end <= j < end + i ==> s@[j] == 0,
        decreases pad - i,
    {
        if s[end + i] != 0 {
            assert(s@[end + i] != 0);
            return Err(DecodeError::NonZeroPadding);
        }
        i = i + 1;
    }
    let content = vstd::slice::slice_to_vec(vstd::slice::slice_subrange(s, pos, end));
    Ok((content, end + pad))
}

/// Reads a length prefix at `pos`, rejects it when above `max` before any
/// storage is set aside, then reads the bytes and their padding.
pub fn read_var_opaque(s: &[u8], pos: usize, max: u32) -> (r: Result<(Vec<u8>, usize), DecodeError>)
    requires
        pos <= s@.len(),
    ensures
        match (r, spec_read_var_opaque(s@, pos as nat, max as nat)) {
            (Ok((b, p)), Ok((c, q))) => b@ == c && p == q,
            (Err(e1), Err(e2)) => e1 == e2,
            _ => false,
        },
{
    let (len, p) = read_word(s, pos)?;
    if len > max {
        return Err(DecodeError::LengthExceedsMax);
    }
    read_fixed_opaque(s, p, len as usize)
}

} // verus!
