//! A `(u32, i64, f64)` record as 20 bytes in either byte order, written and
//! read with `byteorder`. The `f64` travels as its IEEE-754 bit pattern (the
//! `u64` that `f64::to_bits` gives), which is exactly what `byteorder` writes
//! for it.
use vstd::prelude::*;
use byteorder::{BigEndian, ByteOrder, LittleEndian};

verus! {

/// The least significant `k` bytes of `n`, least significant first.
pub open spec fn le_bytes(n: nat, k: nat) -> Seq<u8>
    decreases k,
{
    if k == 0 {
        Seq::empty()
    } else {
        seq![(n % 256) as u8] + le_bytes(n / 256, (k - 1) as nat)
    }
}

/// The number that bytes spell, least significant first.
pub open spec fn le_value(b: Seq<u8>) -> nat
    decreases b.len(),
{
    if b.len() == 0 {
        0
    } else {
        b[0] as nat + 256 * le_value(b.drop_first())
    }
}

/// The least significant `k` bytes of `n`, most significant first.
pub open spec fn be_bytes(n: nat, k: nat) -> Seq<u8> {
    le_bytes(n, k).reverse()
}

/// The number that bytes spell, most significant first.
pub open spec fn be_value(b: Seq<u8>) -> nat {
    le_value(b.reverse())
}

/// `LittleEndian::write_u32`: the claim is that the 4 bytes written are
/// `n`'s, least significant first.
#[verifier::external_body]
fn le_write_u32(n: u32) -> (r: Vec<u8>)
    ensures
        r@ == le_bytes(n as nat, 4),
{
    let mut b = vec![0u8; 4];
    LittleEndian::write_u32(&mut b, n);
    b
}

/// `BigEndian::write_u32`: the claim is that the 4 bytes written are `n`'s,
/// most significant first.
#[verifier::external_body]
fn be_write_u32(n: u32) -> (r: Vec<u8>)
    ensures
        r@ == be_bytes(n as nat, 4),
{
    let mut b = vec![0u8; 4];
    BigEndian::write_u32(&mut b, n);
    b
}

/// `LittleEndian::write_u64`: the 8 bytes of `n`, least significant first.
#[verifier::external_body]
fn le_write_u64(n: u64) -> (r: Vec<u8>)
    ensures
        r@ == le_bytes(n as nat, 8),
{
    let mut b = vec![0u8; 8];
    LittleEndian::write_u64(&mut b, n);
    b
}

/// `BigEndian::write_u64`: the 8 bytes of `n`, most significant first.
#[verifier::external_body]
fn be_write_u64(n: u64) -> (r: Vec<u8>)
    ensures
        r@ == be_bytes(n as nat, 8),
{
    let mut b = vec![0u8; 8];
    BigEndian::write_u64(&mut b, n);
    b
}

/// `LittleEndian::read_u32`: the number the first 4 bytes spell, least
/// significant first. It panics on fewer than 4 bytes; excluded.
#[verifier::external_body]
fn le_read_u32(buf: &[u8]) -> (r: u32)
    requires
        buf@.len() >= 4,
    ensures
        r as nat == le_value(buf@.take(4)),
{
    LittleEndian::read_u32(buf)
}

/// `BigEndian::read_u32`: the number the first 4 bytes spell, most
/// significant first. It panics on fewer than 4 bytes; excluded.
#[verifier::external_body]
fn be_read_u32(buf: &[u8]) -> (r: u32)
    requires
        buf@.len() >= 4,
    ensures
        r as nat == be_value(buf@.take(4)),
{
    BigEndian::read_u32(buf)
}

/// `LittleEndian::read_u64`: the number the first 8 bytes spell, least
/// significant first. It panics on fewer than 8 bytes; excluded.
#[verifier::external_body]
fn le_read_u64(buf: &[u8]) -> (r: u64)
    requires
        buf@.len() >= 8,
    ensures
        r as nat == le_value(buf@.take(8)),
{
    LittleEndian::read_u64(buf)
}

/// `BigEndian::read_u64`: the number the first 8 bytes spell, most
/// significant first. It panics on fewer than 8 bytes; excluded.
#[verifier::external_body]
fn be_read_u64(buf: &[u8]) -> (r: u64)
    requires
        buf@.len() >= 8,
    ensures
        r as nat == be_value(buf@.take(8)),
{
    BigEndian::read_u64(buf)
}

/// A byte order.
#[derive(Debug, Clone, Copy, PartialEq, Eq, Structural)]
pub enum Endian {
    Little,
    Big,
}

/// Why a record could not be read.
#[derive(Debug, Clone, Copy, PartialEq, Eq, Structural)]
pub enum ReadError {
    /// The buffer ended before the record did.
    UnexpectedEof,
}

/// `k` bytes of `n` in the given order.
pub open spec fn bytes_of(order: Endian, n: nat, k: nat) -> Seq<u8> {
    match order {
        Endian::Little => le_bytes(n, k),
        Endian::Big => be_bytes(n, k),
    }
}

/// The number that bytes spell in the given order.
pub open spec fn value_of(order: Endian, b: Seq<u8>) -> nat {
    match order {
        Endian::Little => le_value(b),
        Endian::Big => be_value(b),
    }
}

/// The 20 bytes of a record: the `u32`, then the `i64` (two's complement),
/// then the `f64`'s bit pattern.
pub open spec fn record_bytes(order: Endian, vals: (u32, i64, u64)) -> Seq<u8> {
    bytes_of(order, vals.0 as nat, 4) + bytes_of(order, (vals.1 as u64) as nat, 8) + bytes_of(
        order,
        vals.2 as nat,
        8,
    )
}

/// The record the first 20 bytes of `b` spell.
pub open spec fn record_of(order: Endian, b: Seq<u8>) -> (u32, i64, u64) {
    (
        value_of(order, b.subrange(0, 4)) as u32,
        (value_of(order, b.subrange(4, 12)) as u64) as i64,
        value_of(order, b.subrange(12, 20)) as u64,
    )
}

fn write_u32_in(order: Endian, n: u32) -> (r: Vec<u8>)
    ensures
        r@ == bytes_of(order, n as nat, 4),
{
    match order {
        Endian::Little => le_write_u32(n),
        Endian::Big => be_write_u32(n),
    }
}

fn write_u64_in(order: Endian, n: u64) -> (r: Vec<u8>)
    ensures
        r@ == bytes_of(order, n as nat, 8),
{
    match order {
        Endian::Little => le_write_u64(n),
        Endian::Big => be_write_u64(n),
    }
}

fn append(out: &mut Vec<u8>, more: Vec<u8>)
    ensures
        final(out)@ == old(out)@ + more@,
{
    let mut i: usize = 0;
    while i < more.len()
        invariant
            i <= more@.len(),
            out@ == old(out)@ + more@.take(i as int),
        decreases more@.len() - i,
    {
        out.push(more[i]);
        i += 1;
        assert(out@ =~= old(out)@ + more@.take(i as int));
    }
    assert(more@.take(i as int) =~= more@);
}

/// The record as 20 bytes in the given order.
pub fn write_endian(order: Endian, vals: (u32, i64, u64)) -> (r: Vec<u8>)
    ensures
        r@ == record_bytes(order, vals),
        r@.len() == 20,
{
    let mut out: Vec<u8> = Vec::with_capacity(20);
    append(&mut out, write_u32_in(order, vals.0));
    append(&mut out, write_u64_in(order, vals.1 as u64));
    append(&mut out, write_u64_in(order, vals.2));
    proof {
        lemma_le_bytes_len(vals.0 as nat, 4);
        lemma_le_bytes_len((vals.1 as u64) as nat, 8);
        lemma_le_bytes_len(vals.2 as nat, 8);
    }
    out
}

/// Reads a record from the front of `buf`, and how many bytes that took (20).
/// A buffer shorter than 20 bytes is `UnexpectedEof`.
pub fn read_endian(order: Endian, buf: &[u8]) -> (r: Result<((u32, i64, u64), u64), ReadError>)
    ensures
        buf@.len() < 20 ==> r == Err::<((u32, i64, u64), u64), ReadError>(ReadError::UnexpectedEof),
        buf@.len() >= 20 ==> r == Ok::<((u32, i64, u64), u64), ReadError>(
            (record_of(order, buf@), 20),
        ),
{
    if buf.len() < 20 {
        return Err(ReadError::UnexpectedEof);
    }
    let a_bytes = vstd::slice::slice_subrange(buf, 0, 4);
    let b_bytes = vstd::slice::slice_subrange(buf, 4, 12);
    let c_bytes = vstd::slice::slice_subrange(buf, 12, 20);
    assert(a_bytes@.take(4) =~= buf@.subrange(0, 4));
    assert(b_bytes@.take(8) =~= buf@.subrange(4, 12));
    assert(c_bytes@.take(8) =~= buf@.subrange(12, 20));
    let (a, b, c) = match order {
        Endian::Little => (le_read_u32(a_bytes), le_read_u64(b_bytes), le_read_u64(c_bytes)),
        Endian::Big => (be_read_u32(a_bytes), be_read_u64(b_bytes), be_read_u64(c_bytes)),
    };
    Ok(((a, b as i64, c), 20))
}

/// `le_bytes(n, k)` has `k` bytes.
pub proof fn lemma_le_bytes_len(n: nat, k: nat)
    ensures
        le_bytes(n, k).len() == k,
    decreases k,
{
    if k > 0 {
        lemma_le_bytes_len(n / 256, (k - 1) as nat);
    }
}

/// Reading back `k` bytes of `n` gives `n` modulo `256^k`; for `n` that fits, `n`.
pub proof fn lemma_le_round_trip(n: nat, k: nat)
    ensures
        le_value(le_bytes(n, k)) == (n as int) % vstd::arithmetic::power::pow(256, k),
    decreases k,
{
    vstd::arithmetic::power::lemma_pow_positive(256, k);
    if k == 0 {
        assert(vstd::arithmetic::power::pow(256, 0) == 1) by {
            vstd::arithmetic::power::lemma_pow0(256);
        }
    } else {
        let rest = le_bytes(n / 256, (k - 1) as nat);
        lemma_le_round_trip(n / 256, (k - 1) as nat);
        assert((seq![(n % 256) as u8] + rest).drop_first() =~= rest);
        let p = vstd::arithmetic::power::pow(256, (k - 1) as nat);
        vstd::arithmetic::power::lemma_pow_positive(256, (k - 1) as nat);
        assert(vstd::arithmetic::power::pow(256, k) == 256 * p) by {
            vstd::arithmetic::power::lemma_pow1(256);
            vstd::arithmetic::power::lemma_pow_adds(256, 1, (k - 1) as nat);
        }
        let ni = n as int;
        assert(ni % 256 + 256 * ((ni / 256) % p) == ni % (256 * p)) by {
            vstd::arithmetic::div_mod::lemma_breakdown(ni, 256, p);
        }
    }
}

/// Reading back `k` bytes of `n` in either order gives `n`, when `n` fits.
pub proof fn lemma_bytes_of_round_trip(order: Endian, n: nat, k: nat)
    requires
        n < vstd::arithmetic::power::pow(256, k),
    ensures
        value_of(order, bytes_of(order, n, k)) == n,
        bytes_of(order, n, k).len() == k,
{
    lemma_le_round_trip(n, k);
    lemma_le_bytes_len(n, k);
    vstd::arithmetic::div_mod::lemma_small_mod(n, vstd::arithmetic::power::pow(256, k) as nat);
    assert(le_bytes(n, k).reverse().reverse() =~= le_bytes(n, k));
}

/// Writing a record and reading it back gives the same record, in either byte order.
pub proof fn lemma_record_round_trip(order: Endian, vals: (u32, i64, u64))
    ensures
        record_bytes(order, vals).len() == 20,
        record_of(order, record_bytes(order, vals)) == vals,
{
    assert(vstd::arithmetic::power::pow(256, 4) == 0x1_0000_0000) by {
        reveal_with_fuel(vstd::arithmetic::power::pow, 5);
    }
    assert(vstd::arithmetic::power::pow(256, 8) == 0x1_0000_0000_0000_0000) by {
        reveal_with_fuel(vstd::arithmetic::power::pow, 9);
    }
    let x = bytes_of(order, vals.0 as nat, 4);
    let y = bytes_of(order, (vals.1 as u64) as nat, 8);
    let z = bytes_of(order, vals.2 as nat, 8);
    lemma_bytes_of_round_trip(order, vals.0 as nat, 4);
    lemma_bytes_of_round_trip(order, (vals.1 as u64) as nat, 8);
    lemma_bytes_of_round_trip(order, vals.2 as nat, 8);
    let b = record_bytes(order, vals);
    assert(b.subrange(0, 4) =~= x);
    assert(b.subrange(4, 12) =~= y);
    assert(b.subrange(12, 20) =~= z);
    let v1 = vals.1;
    assert(((v1 as u64) as i64) == v1) by (bit_vector);
}

} // verus!
