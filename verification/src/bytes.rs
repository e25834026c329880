//! Big-endian integer coding and range splicing over byte buffers.
//!
//! Every multi-byte integer in a record header is an unsigned 32-bit value in
//! big-endian order; integer payloads are 64-bit two's-complement values in
//! big-endian order.

use vstd::prelude::*;
use vstd::arithmetic::div_mod::lemma_breakdown;
use vstd::arithmetic::div_mod::lemma_fundamental_div_mod;
use byteorder::BigEndian;
use byteorder::WriteBytesExt;

verus! {

/// The unsigned value of a big-endian byte string.
pub open spec fn be_val(b: Seq<u8>) -> int
    decreases b.len(),
{
    if b.len() == 0 {
        0
    } else {
        be_val(b.drop_last()) * 256 + b.last()
    }
}

/// The `n` low-order bytes of `v`, most significant first.
pub open spec fn be_bytes(v: int, n: nat) -> Seq<u8>
    decreases n,
{
    if n == 0 {
        Seq::empty()
    } else {
        be_bytes(v / 256, (n - 1) as nat).push((v % 256) as u8)
    }
}

/// 256 raised to `n`: the number of byte strings of length `n`.
pub open spec fn pow256(n: nat) -> int
    decreases n,
{
    if n == 0 {
        1
    } else {
        256 * pow256((n - 1) as nat)
    }
}

pub proof fn lemma_be_bytes_len(v: int, n: nat)
    ensures
        be_bytes(v, n).len() == n,
    decreases n,
{
    if n > 0 {
        lemma_be_bytes_len(v / 256, (n - 1) as nat);
    }
}

/// Reading back the bytes of `v` yields `v` reduced modulo `256^n`.
pub proof fn lemma_be_val_of_bytes(v: int, n: nat)
    requires
        0 <= v,
    ensures
        be_val(be_bytes(v, n)) == v % pow256(n),
    decreases n,
{
    if n == 0 {
        assert(v % 1 == 0) by (nonlinear_arith)
            requires 0 <= v;
    } else {
        let b = be_bytes(v, n);
        lemma_be_bytes_len(v, n);
        lemma_be_bytes_len(v / 256, (n - 1) as nat);
        assert(b.drop_last() =~= be_bytes(v / 256, (n - 1) as nat));
        lemma_fundamental_div_mod(v, 256);
        lemma_be_val_of_bytes(v / 256, (n - 1) as nat);
        lemma_pow256_pos((n - 1) as nat);
        lemma_breakdown(v, 256, pow256((n - 1) as nat));
    }
}

pub proof fn lemma_be_val_bound(b: Seq<u8>)
    ensures
        0 <= be_val(b) < pow256(b.len()),
    decreases b.len(),
{
    if b.len() > 0 {
        lemma_be_val_bound(b.drop_last());
    }
}

/// On values below `256^n` the two directions are exact inverses.
pub proof fn lemma_be_round_trip(v: int, n: nat)
    requires
        0 <= v < pow256(n),
    ensures
        be_val(be_bytes(v, n)) == v,
{
    lemma_be_val_of_bytes(v, n);
    assert(v % pow256(n) == v) by (nonlinear_arith)
        requires 0 <= v < pow256(n);
}

/// The signed reading of an unsigned 64-bit value, as two's complement.
pub open spec fn i64_val(u: int) -> int {
    if u < 0x8000000000000000 {
        u
    } else {
        u - 0x10000000000000000
    }
}

/// The unsigned 64-bit representative of a signed value.
pub open spec fn u64_rep(v: int) -> int {
    if v >= 0 {
        v
    } else {
        v + 0x10000000000000000
    }
}

/// `b` with the range `[a, c)` replaced by `payload`.
pub open spec fn spec_splice(b: Seq<u8>, a: int, c: int, payload: Seq<u8>) -> Seq<u8> {
    b.subrange(0, a) + payload + b.subrange(c, b.len() as int)
}

/// Big-endian unsigned 32-bit value at offset `p`.
pub fn read_u32_at(data: &Vec<u8>, p: usize) -> (r: u32)
    requires
        p + 4 <= data@.len(),
    ensures
        r == be_val(data@.subrange(p as int, p as int + 4)),
{
    let s = Ghost(data@.subrange(p as int, p as int + 4));
    let n_len = data.len();
    let a0: u32 = data[p] as u32;
    let a1: u32 = a0 * 256 + data[p + 1] as u32;
    let a2: u32 = a1 * 256 + data[p + 2] as u32;
    let a3: u32 = a2 * 256 + data[p + 3] as u32;
    proof {
        assert(s@.subrange(0, 1).drop_last() =~= s@.subrange(0, 0));
        assert(s@.subrange(0, 2).drop_last() =~= s@.subrange(0, 1));
        assert(s@.subrange(0, 3).drop_last() =~= s@.subrange(0, 2));
        assert(s@.drop_last() =~= s@.subrange(0, 3));
        assert(s@.subrange(0, 0) =~= Seq::<u8>::empty());
        reveal_with_fuel(be_val, 3);
        assert(a0 == be_val(s@.subrange(0, 1)));
        assert(a1 == be_val(s@.subrange(0, 2)));
        assert(a2 == be_val(s@.subrange(0, 3)));
    }
    a3
}

/// Big-endian signed 64-bit value at offset `p`, read as two's complement.
pub fn read_i64_at(data: &Vec<u8>, p: usize) -> (r: i64)
    requires
        p + 8 <= data@.len(),
    ensures
        r == i64_val(be_val(data@.subrange(p as int, p as int + 8))),
{
    let s = Ghost(data@.subrange(p as int, p as int + 8));
    let n_len = data.len();
    let mut u: u64 = 0;
    let mut i: usize = 0;
    while i < 8
        invariant
            i <= 8,
            p + 8 <= data@.len(),
            data@.len() == n_len,
            s@ == data@.subrange(p as int, p as int + 8),
            u == be_val(s@.subrange(0, i as int)),
            u < pow256(i as nat),
        decreases 8 - i,
    {
        proof {
            reveal_with_fuel(be_val, 2);
            assert(s@.subrange(0, i + 1).drop_last() =~= s@.subrange(0, i as int));
            assert(pow256((i + 1) as nat) == 256 * pow256(i as nat));
            reveal_with_fuel(pow256, 9);
            assert(pow256(8nat) == 0x10000000000000000);
            lemma_pow256_le((i + 1) as nat, 8nat);
        }
        u = u * 256 + data[p + i] as u64;
        i = i + 1;
    }
    proof {
        assert(s@.subrange(0, 8) =~= s@);
        reveal_with_fuel(pow256, 9);
        assert(pow256(8nat) == 0x10000000000000000);
    }
    if u >= 0x8000000000000000u64 {
        let m: u64 = u - 0x8000000000000000u64;
        (m as i64) + i64::MIN
    } else {
        u as i64
    }
}

proof fn lemma_pow256_le(m: nat, n: nat)
    requires
        m <= n,
    ensures
        pow256(m) <= pow256(n),
    decreases n,
{
    if m < n && n > 0 {
        lemma_pow256_le(m, (n - 1) as nat);
        lemma_pow256_pos((n - 1) as nat);
    }
}

proof fn lemma_pow256_pos(n: nat)
    ensures
        pow256(n) > 0,
    decreases n,
{
    if n > 0 {
        lemma_pow256_pos((n - 1) as nat);
    }
}

/// Relies on byteorder's `WriteBytesExt::write_u32::<BigEndian>`, which
/// appends the four bytes of `v` to the vector, most significant first;
/// writing into a `Vec` cannot fail.
#[verifier::external_body]
pub fn u32_be_vec(v: u32) -> (r: Vec<u8>)
    ensures
        r@ == be_bytes(v as int, 4),
{
    let mut out: Vec<u8> = Vec::new();
    let _ = out.write_u32::<BigEndian>(v);
    out
}

/// Relies on byteorder's `WriteBytesExt::write_i64::<BigEndian>`, which
/// appends the eight bytes of the two's-complement form of `v`, most
/// significant first; writing into a `Vec` cannot fail.
#[verifier::external_body]
pub fn i64_be_vec(v: i64) -> (r: Vec<u8>)
    ensures
        r@ == be_bytes(u64_rep(v as int), 8),
{
    let mut out: Vec<u8> = Vec::new();
    let _ = out.write_i64::<BigEndian>(v);
    out
}

/// Replace the byte range `[a, c)` of `data` with `payload`.
pub fn splice_bytes(data: &mut Vec<u8>, a: usize, c: usize, payload: &Vec<u8>)
    requires
        a <= c <= old(data)@.len(),
    ensures
        final(data)@ == spec_splice(old(data)@, a as int, c as int, payload@),
{
    let ghost orig = data@;
    let mut out: Vec<u8> = Vec::new();
    let mut i: usize = 0;
    while i < a
        invariant
            i <= a,
            a <= c <= orig.len(),
            data@ == orig,
            out@ == orig.subrange(0, i as int),
        decreases a - i,
    {
        out.push(data[i]);
        proof {
            assert(out@ =~= orig.subrange(0, i + 1));
        }
        i = i + 1;
    }
    let mut j: usize = 0;
    while j < payload.len()
        invariant
            j <= payload@.len(),
            a <= c <= orig.len(),
            data@ == orig,
            out@ == orig.subrange(0, a as int) + payload@.subrange(0, j as int),
        decreases payload@.len() - j,
    {
        out.push(payload[j]);
        proof {
            assert(out@ =~= orig.subrange(0, a as int) + payload@.subrange(0, j + 1));
        }
        j = j + 1;
    }
    proof {
        assert(payload@.subrange(0, payload@.len() as int) =~= payload@);
    }
    let mut k: usize = c;
    while k < data.len()
        invariant
            c <= k <= orig.len(),
            a <= c,
            data@ == orig,
            out@ == orig.subrange(0, a as int) + payload@ + orig.subrange(c as int, k as int),
        decreases orig.len() - k,
    {
        out.push(data[k]);
        proof {
            assert(out@ =~= orig.subrange(0, a as int) + payload@ + orig.subrange(
                c as int,
                k + 1,
            ));
        }
        k = k + 1;
    }
    proof {
        assert(out@ =~= spec_splice(orig, a as int, c as int, payload@));
    }
    *data = out;
}

} // verus!
