//! Fixed-width scalars: 4-byte words and 8-byte hypers, big-endian.
use vstd::prelude::*;

use crate::error::DecodeError;

verus! {

pub const WORD: usize = 4;

/// The four big-endian bytes of a word value `n < 2^32`.
pub open spec fn word_bytes(n: nat) -> Seq<u8> {
    seq![
        (n / 0x100_0000) as u8,
        ((n / 0x1_0000) % 0x100) as u8,
        ((n / 0x100) % 0x100) as u8,
        (n % 0x100) as u8,
    ]
}

/// The big-endian word stored in `s[pos..pos + 4]`.
pub open spec fn word_at(s: Seq<u8>, pos: int) -> nat {
    (s[pos] * 0x100_0000 + s[pos + 1] * 0x1_0000 + s[pos + 2] * 0x100 + s[pos + 3]) as nat
}

/// `s` holds the bytes `w` starting at `pos`.
pub open spec fn holds_at(s: Seq<u8>, pos: nat, w: Seq<u8>) -> bool {
    pos + w.len() <= s.len() && s.subrange(pos as int, pos + w.len() as int) == w
}

/// Two's complement bit pattern of a 32-bit signed value.
pub open spec fn i32_bits(x: i32) -> nat {
    if x < 0 { (x + 0x1_0000_0000) as nat } else { x as nat }
}

/// Two's complement bit pattern of a 64-bit signed value.
pub open spec fn i64_bits(x: i64) -> nat {
    if x < 0 { (x + 0x1_0000_0000_0000_0000) as nat } else { x as nat }
}

/// The signed value whose bit pattern is the word `w`.
pub open spec fn i32_of_bits(w: nat) -> i32 {
    if w >= 0x8000_0000 { (w - 0x1_0000_0000) as i32 } else { w as i32 }
}

/// The signed value whose bit pattern is `h`.
pub open spec fn i64_of_bits(h: nat) -> i64 {
    if h >= 0x8000_0000_0000_0000 { (h - 0x1_0000_0000_0000_0000) as i64 } else { h as i64 }
}

/// Eight big-endian bytes of `n < 2^64`: the high word, then the low word.
pub open spec fn hyper_bytes(n: nat) -> Seq<u8> {
    word_bytes(n / 0x1_0000_0000) + word_bytes(n % 0x1_0000_0000)
}

/// The big-endian 8-byte value stored in `s[pos..pos + 8]`.
pub open spec fn hyper_at(s: Seq<u8>, pos: int) -> nat {
    word_at(s, pos) * 0x1_0000_0000 + word_at(s, pos + 4)
}

pub open spec fn u32_bytes(x: u32) -> Seq<u8> {
    word_bytes(x as nat)
}

pub open spec fn i32_bytes(x: i32) -> Seq<u8> {
    word_bytes(i32_bits(x))
}

pub open spec fn u64_bytes(x: u64) -> Seq<u8> {
    hyper_bytes(x as nat)
}

pub open spec fn i64_bytes(x: i64) -> Seq<u8> {
    hyper_bytes(i64_bits(x))
}

pub open spec fn bool_bytes(b: bool) -> Seq<u8> {
    word_bytes(if b { 1 } else { 0 })
}

/// Reads a word at `pos`, or fails when fewer than four bytes remain.
pub open spec fn spec_read_word(s: Seq<u8>, pos: nat) -> Result<(nat, nat), DecodeError> {
    if pos + 4 <= s.len() {
        Ok((word_at(s, pos as int), pos + 4))
    } else {
        Err(DecodeError::UnexpectedEof)
    }
}

pub open spec fn spec_read_u32(s: Seq<u8>, pos: nat) -> Result<(u32, nat), DecodeError> {
    match spec_read_word(s, pos) {
        Ok((w, p)) => Ok((w as u32, p)),
        Err(e) => Err(e),
    }
}

pub open spec fn spec_read_i32(s: Seq<u8>, pos: nat) -> Result<(i32, nat), DecodeError> {
    match spec_read_word(s, pos) {
        Ok((w, p)) => Ok((i32_of_bits(w), p)),
        Err(e) => Err(e),
    }
}

pub open spec fn spec_read_u64(s: Seq<u8>, pos: nat) -> Result<(u64, nat), DecodeError> {
    if pos + 8 <= s.len() {
        Ok((hyper_at(s, pos as int) as u64, pos + 8))
    } else {
        Err(DecodeError::UnexpectedEof)
    }
}

pub open spec fn spec_read_i64(s: Seq<u8>, pos: nat) -> Result<(i64, nat), DecodeError> {
    if pos + 8 <= s.len() {
        Ok((i64_of_bits(hyper_at(s, pos as int)), pos + 8))
    } else {
        Err(DecodeError::UnexpectedEof)
    }
}

pub open spec fn spec_read_bool(s: Seq<u8>, pos: nat) -> Result<(bool, nat), DecodeError> {
    match spec_read_word(s, pos) {
        Ok((w, p)) => if w == 0 {
            Ok((false, p))
        } else if w == 1 {
            Ok((true, p))
        } else {
            Err(DecodeError::InvalidBoolean)
        },
        Err(e) => Err(e),
    }
}

/// A word written at `pos` reads back as the same word.
pub proof fn lemma_word_round_trip(n: nat, s: Seq<u8>, pos: int)
    requires
        n < 0x1_0000_0000,
        0 <= pos,
        pos + 4 <= s.len(),
        s.subrange(pos, pos + 4) == word_bytes(n),
    ensures
        word_at(s, pos) == n,
{
    assert(s[pos] == word_bytes(n)[0]);
    assert(s[pos + 1] == word_bytes(n)[1]);
    assert(s[pos + 2] == word_bytes(n)[2]);
    assert(s[pos + 3] == word_bytes(n)[3]);
    let a = n / 0x100_0000;
    let b = (n / 0x1_0000) % 0x100;
    let c = (n / 0x100) % 0x100;
    let d = n % 0x100;
    assert(a < 0x100 && b < 0x100 && c < 0x100 && d < 0x100) by (nonlinear_arith)
        requires
            n < 0x1_0000_0000,
            a == n / 0x100_0000,
            b == (n / 0x1_0000) % 0x100,
            c == (n / 0x100) % 0x100,
            d == n % 0x100,
    ;
    assert(a * 0x100_0000 + b * 0x1_0000 + c * 0x100 + d == n) by (nonlinear_arith)
        requires
            a == n / 0x100_0000,
            b == (n / 0x1_0000) % 0x100,
            c == (n / 0x100) % 0x100,
            d == n % 0x100,
    ;
}

/// An 8-byte value written at `pos` reads back as the same value.
pub proof fn lemma_hyper_round_trip(n: nat, s: Seq<u8>, pos: int)
    requires
        n < 0x1_0000_0000_0000_0000,
        0 <= pos,
        pos + 8 <= s.len(),
        s.subrange(pos, pos + 8) == hyper_bytes(n),
    ensures
        hyper_at(s, pos) == n,
{
    let hi = n / 0x1_0000_0000;
    let lo = n % 0x1_0000_0000;
    assert(hi < 0x1_0000_0000) by (nonlinear_arith)
        requires
            n < 0x1_0000_0000_0000_0000,
            hi == n / 0x1_0000_0000,
    ;
    assert(s.subrange(pos, pos + 4) == s.subrange(pos, pos + 8).subrange(0, 4));
    assert(s.subrange(pos + 4, pos + 8) == s.subrange(pos, pos + 8).subrange(4, 8));
    assert(hyper_bytes(n).subrange(0, 4) == word_bytes(hi));
    assert(hyper_bytes(n).subrange(4, 8) == word_bytes(lo));
    lemma_word_round_trip(hi, s, pos);
    lemma_word_round_trip(lo, s, pos + 4);
    assert(hi * 0x1_0000_0000 + lo == n) by (nonlinear_arith)
        requires
            hi == n / 0x1_0000_0000,
            lo == n % 0x1_0000_0000,
    ;
}

pub proof fn lemma_i32_bits(x: i32)
    ensures
        i32_bits(x) < 0x1_0000_0000,
        i32_of_bits(i32_bits(x)) == x,
{
}

pub proof fn lemma_i64_bits(x: i64)
    ensures
        i64_bits(x) < 0x1_0000_0000_0000_0000,
        i64_of_bits(i64_bits(x)) == x,
{
}

/// The encoding of a word, read back at `pos`.
pub proof fn lemma_read_word_bytes(n: nat, s: Seq<u8>, pos: nat)
    requires
        n < 0x1_0000_0000,
        pos + 4 <= s.len(),
        s.subrange(pos as int, pos + 4int) == word_bytes(n),
    ensures
        spec_read_word(s, pos) == Ok::<(nat, nat), DecodeError>((n, pos + 4)),
{
    lemma_word_round_trip(n, s, pos as int);
}

/// Each scalar's encoding, read back at `pos`, gives the scalar.
pub proof fn lemma_read_scalars(s: Seq<u8>, pos: nat)
    ensures
        forall|x: u32|
            pos + 4 <= s.len() && s.subrange(pos as int, pos + 4int) == #[trigger] u32_bytes(x)
                ==> spec_read_u32(s, pos) == Ok::<(u32, nat), DecodeError>((x, pos + 4)),
        forall|x: i32|
            pos + 4 <= s.len() && s.subrange(pos as int, pos + 4int) == #[trigger] i32_bytes(x)
                ==> spec_read_i32(s, pos) == Ok::<(i32, nat), DecodeError>((x, pos + 4)),
        forall|b: bool|
            pos + 4 <= s.len() && s.subrange(pos as int, pos + 4int) == #[trigger] bool_bytes(b)
                ==> spec_read_bool(s, pos) == Ok::<(bool, nat), DecodeError>((b, pos + 4)),
        forall|x: u64|
            pos + 8 <= s.len() && s.subrange(pos as int, pos + 8int) == #[trigger] u64_bytes(x)
                ==> spec_read_u64(s, pos) == Ok::<(u64, nat), DecodeError>((x, pos + 8)),
        forall|x: i64|
            pos + 8 <= s.len() && s.subrange(pos as int, pos + 8int) == #[trigger] i64_bytes(x)
                ==> spec_read_i64(s, pos) == Ok::<(i64, nat), DecodeError>((x, pos + 8)),
{
    assert forall|x: u32|
        pos + 4 <= s.len() && s.subrange(pos as int, pos + 4int) == #[trigger] u32_bytes(x)
            implies spec_read_u32(s, pos) == Ok::<(u32, nat), DecodeError>((x, pos + 4)) by {
        lemma_read_word_bytes(x as nat, s, pos);
    }
    assert forall|x: i32|
        pos + 4 <= s.len() && s.subrange(pos as int, pos + 4int) == #[trigger] i32_bytes(x)
            implies spec_read_i32(s, pos) == Ok::<(i32, nat), DecodeError>((x, pos + 4)) by {
        lemma_i32_bits(x);
        lemma_read_word_bytes(i32_bits(x), s, pos);
    }
    assert forall|b: bool|
        pos + 4 <= s.len() && s.subrange(pos as int, pos + 4int) == #[trigger] bool_bytes(b)
            implies spec_read_bool(s, pos) == Ok::<(bool, nat), DecodeError>((b, pos + 4)) by {
        lemma_read_word_bytes(if b { 1 } else { 0 }, s, pos);
    }
    assert forall|x: u64|
        pos + 8 <= s.len() && s.subrange(pos as int, pos + 8int) == #[trigger] u64_bytes(x)
            implies spec_read_u64(s, pos) == Ok::<(u64, nat), DecodeError>((x, pos + 8)) by {
        lemma_hyper_round_trip(x as nat, s, pos as int);
    }
    assert forall|x: i64|
        pos + 8 <= s.len() && s.subrange(pos as int, pos + 8int) == #[trigger] i64_bytes(x)
            implies spec_read_i64(s, pos) == Ok::<(i64, nat), DecodeError>((x, pos + 8)) by {
        lemma_i64_bits(x);
        lemma_hyper_round_trip(i64_bits(x), s, pos as int);
    }
}

/// An executable read result `r` matches the modelled result `m`: the same
/// value and end position, or the same error.
pub open spec fn same_result<A>(r: Result<(A, usize), DecodeError>, m: Result<(A, nat), DecodeError>) -> bool {
    match (r, m) {
        (Ok((a, p)), Ok((b, q))) => a == b && p == q,
        (Err(e1), Err(e2)) => e1 == e2,
        _ => false,
    }
}

/// Appends the four big-endian bytes of `w`.
pub fn write_word(out: &mut Vec<u8>, w: u32)
    ensures
        final(out)@ == old(out)@ + word_bytes(w as nat),
{
    out.push((w / 0x100_0000) as u8);
    out.push(((w / 0x1_0000) % 0x100) as u8);
    out.push(((w / 0x100) % 0x100) as u8);
    out.push((w % 0x100) as u8);
    assert(final(out)@ =~= old(out)@ + word_bytes(w as nat));
}

pub fn write_u32(out: &mut Vec<u8>, x: u32)
    ensures
        final(out)@ == old(out)@ + u32_bytes(x),
{
    write_word(out, x);
}

pub fn write_i32(out: &mut Vec<u8>, x: i32)
    ensures
        final(out)@ == old(out)@ + i32_bytes(x),
{
    let w: u32 = if x < 0 {
        (x as i64 + 0x1_0000_0000i64) as u32
    } else {
        x as u32
    };
    write_word(out, w);
}

/// Appends the high word, then the low word, of `h`.
fn write_hyper(out: &mut Vec<u8>, h: u64)
    ensures
        final(out)@ == old(out)@ + hyper_bytes(h as nat),
{
    let hi: u32 = (h / 0x1_0000_0000) as u32;
    let lo: u32 = (h % 0x1_0000_0000) as u32;
    write_word(out, hi);
    write_word(out, lo);
    assert(final(out)@ =~= old(out)@ + hyper_bytes(h as nat));
}

pub fn write_u64(out: &mut Vec<u8>, x: u64)
    ensures
        final(out)@ == old(out)@ + u64_bytes(x),
{
    write_hyper(out, x);
}

pub fn write_i64(out: &mut Vec<u8>, x: i64)
    ensures
        final(out)@ == old(out)@ + i64_bytes(x),
{
    let h: u64 = if x < 0 {
        (x as i128 + 0x1_0000_0000_0000_0000i128) as u64
    } else {
        x as u64
    };
    write_hyper(out, h);
}

pub fn write_bool(out: &mut Vec<u8>, b: bool)
    ensures
        final(out)@ == old(out)@ + bool_bytes(b),
{
    write_word(out, if b { 1 } else { 0 });
}

/// Reads the big-endian word at `pos`.
pub fn read_word(s: &[u8], pos: usize) -> (r: Result<(u32, usize), DecodeError>)
    requires
        pos <= s@.len(),
    ensures
        match (r, spec_read_word(s@, pos as nat)) {
            (Ok((w, p)), Ok((v, q))) => w == v && p == q,
            (Err(e1), Err(e2)) => e1 == e2,
            _ => false,
        },
{
    if s.len() - pos < 4 {
        return Err(DecodeError::UnexpectedEof);
    }
    let w: u32 = (s[pos] as u32) * 0x100_0000 + (s[pos + 1] as u32) * 0x1_0000
        + (s[pos + 2] as u32) * 0x100 + (s[pos + 3] as u32);
    Ok((w, pos + 4))
}

pub fn read_u32(s: &[u8], pos: usize) -> (r: Result<(u32, usize), DecodeError>)
    requires
        pos <= s@.len(),
    ensures
        same_result(r, spec_read_u32(s@, pos as nat)),
{
    read_word(s, pos)
}

pub fn read_i32(s: &[u8], pos: usize) -> (r: Result<(i32, usize), DecodeError>)
    requires
        pos <= s@.len(),
    ensures
        same_result(r, spec_read_i32(s@, pos as nat)),
{
    let (w, p) = read_word(s, pos)?;
    let x: i32 = if w >= 0x8000_0000 {
        (w as i64 - 0x1_0000_0000i64) as i32
    } else {
        w as i32
    };
    Ok((x, p))
}

/// Reads the big-endian 8-byte value at `pos`.
fn read_hyper(s: &[u8], pos: usize) -> (r: Result<(u64, usize), DecodeError>)
    requires
        pos <= s@.len(),
    ensures
        match r {
            Ok((h, p)) => pos + 8 <= s@.len() && h == hyper_at(s@, pos as int) && p == pos + 8,
            Err(e) => pos + 8 > s@.len() && e == DecodeError::UnexpectedEof,
        },
{
    if s.len() - pos < 8 {
        return Err(DecodeError::UnexpectedEof);
    }
    let (hi, p) = read_word(s, pos)?;
    let (lo, q) = read_word(s, p)?;
    Ok(((hi as u64) * 0x1_0000_0000 + lo as u64, q))
}

pub fn read_u64(s: &[u8], pos: usize) -> (r: Result<(u64, usize), DecodeError>)
    requires
        pos <= s@.len(),
    ensures
        same_result(r, spec_read_u64(s@, pos as nat)),
{
    read_hyper(s, pos)
}

pub fn read_i64(s: &[u8], pos: usize) -> (r: Result<(i64, usize), DecodeError>)
    requires
        pos <= s@.len(),
    ensures
        same_result(r, spec_read_i64(s@, pos as nat)),
{
    let (h, p) = read_hyper(s, pos)?;
    let x: i64 = if h >= 0x8000_0000_0000_0000 {
        (h as i128 - 0x1_0000_0000_0000_0000i128) as i64
    } else {
        h as i64
    };
    Ok((x, p))
}

pub fn read_bool(s: &[u8], pos: usize) -> (r: Result<(bool, usize), DecodeError>)
    requires
        pos <= s@.len(),
    ensures
        same_result(r, spec_read_bool(s@, pos as nat)),
{
    let (w, p) = read_word(s, pos)?;
    if w == 0 {
        Ok((false, p))
    } else if w == 1 {
        Ok((true, p))
    } else {
        Err(DecodeError::InvalidBoolean)
    }
}

} // verus!
