//! The sign-magnitude 8-byte integer encoding shared by the patch header,
//! the control tuples and the raw stream form.
//!
//! The 8 bytes are read as a little-endian unsigned 64-bit value; bit 63 is
//! a sign flag and the low 63 bits are the magnitude. This is not two's
//! complement: the all-but-sign-zero pattern decodes to zero as well.

use vstd::prelude::*;

verus! {

/// The little-endian value of a byte sequence, least significant byte first.
pub open spec fn le_bytes(b: Seq<u8>) -> nat
    decreases b.len(),
{
    if b.len() == 0 {
        0
    } else {
        b[0] as nat + 256 * le_bytes(b.skip(1))
    }
}

/// The `n` little-endian bytes of the value `v`.
pub open spec fn le_seq(v: nat, n: nat) -> Seq<u8>
    decreases n,
{
    if n == 0 {
        Seq::<u8>::empty()
    } else {
        seq![(v % 256) as u8] + le_seq(v / 256, (n - 1) as nat)
    }
}

/// 256 raised to the power `n`.
pub open spec fn pow256(n: nat) -> nat
    decreases n,
{
    if n == 0 {
        1
    } else {
        256 * pow256((n - 1) as nat)
    }
}

pub proof fn lemma_pow256_8()
    ensures
        pow256(8) == 0x1_0000_0000_0000_0000,
{
    assert(pow256(0) == 1);
    assert(pow256(1) == 256);
    assert(pow256(2) == 0x1_0000);
    assert(pow256(3) == 0x100_0000);
    assert(pow256(4) == 0x1_0000_0000);
    assert(pow256(5) == 0x100_0000_0000);
    assert(pow256(6) == 0x1_0000_0000_0000);
    assert(pow256(7) == 0x100_0000_0000_0000);
}

pub proof fn lemma_pow256_le(a: nat, b: nat)
    requires
        a <= b,
    ensures
        pow256(a) <= pow256(b),
    decreases b,
{
    if a < b {
        lemma_pow256_le(a, (b - 1) as nat);
    }
}

pub proof fn lemma_le_bytes_bound(b: Seq<u8>)
    ensures
        le_bytes(b) < pow256(b.len()),
    decreases b.len(),
{
    if b.len() > 0 {
        lemma_le_bytes_bound(b.skip(1));
    }
}

pub proof fn lemma_le_round_trip(v: nat, n: nat)
    requires
        v < pow256(n),
    ensures
        le_bytes(le_seq(v, n)) == v,
    decreases n,
{
    if n > 0 {
        let rest = le_seq(v / 256, (n - 1) as nat);
        let whole = seq![(v % 256) as u8] + rest;
        assert(whole.skip(1) =~= rest);
        assert(v / 256 < pow256((n - 1) as nat)) by {
            assert(v < 256 * pow256((n - 1) as nat));
        }
        lemma_le_round_trip(v / 256, (n - 1) as nat);
        assert(v == 256 * (v / 256) + v % 256) by {
            vstd::arithmetic::div_mod::lemma_fundamental_div_mod(v as int, 256);
        }
    }
}

pub proof fn lemma_le_seq_len(v: nat, n: nat)
    ensures
        le_seq(v, n).len() == n,
    decreases n,
{
    if n > 0 {
        lemma_le_seq_len(v / 256, (n - 1) as nat);
    }
}

/// The signed value that 8 bytes stand for under the sign-magnitude reading.
pub open spec fn decode_spec(b: Seq<u8>) -> int
    recommends
        b.len() == 8,
{
    let y = le_bytes(b);
    if y < 0x8000_0000_0000_0000 {
        y as int
    } else {
        -((y - 0x8000_0000_0000_0000) as int)
    }
}

/// The 8-byte sign-magnitude encoding of `x`.
pub open spec fn encode_spec(x: int) -> Seq<u8>
    recommends
        -0x7fff_ffff_ffff_ffff <= x <= 0x7fff_ffff_ffff_ffff,
{
    if x >= 0 {
        le_seq(x as nat, 8)
    } else {
        le_seq((0x8000_0000_0000_0000 + (-x)) as nat, 8)
    }
}

/// The integer codec round trip: every value whose magnitude fits in 63 bits
/// decodes back from its encoding.
pub proof fn lemma_codec_round_trip(x: int)
    requires
        -0x7fff_ffff_ffff_ffff <= x <= 0x7fff_ffff_ffff_ffff,
    ensures
        decode_spec(encode_spec(x)) == x,
{
    lemma_pow256_8();
    if x >= 0 {
        lemma_le_round_trip(x as nat, 8);
    } else {
        let v = (0x8000_0000_0000_0000 + (-x)) as nat;
        lemma_le_round_trip(v, 8);
    }
}

/// An encoding is always exactly 8 bytes.
pub proof fn lemma_encode_len(x: int)
    ensures
        encode_spec(x).len() == 8,
{
    if x >= 0 {
        lemma_le_seq_len(x as nat, 8);
    } else {
        lemma_le_seq_len((0x8000_0000_0000_0000 + (-x)) as nat, 8);
    }
}

/// Every 8-byte pattern decodes to a value whose magnitude fits in 63 bits.
pub proof fn lemma_decode_bounds(b: Seq<u8>)
    requires
        b.len() == 8,
    ensures
        -0x7fff_ffff_ffff_ffff <= decode_spec(b) <= 0x7fff_ffff_ffff_ffff,
{
    lemma_le_bytes_bound(b);
    lemma_pow256_8();
}

/// Reads a sign-magnitude 64-bit integer from 8 bytes.
pub fn offtin(buf: &[u8]) -> (r: i64)
    requires
        buf@.len() == 8,
    ensures
        r == decode_spec(buf@),
{
    let mut y: u64 = 0;
    let mut j: usize = 8;
    while j > 0
        invariant
            buf@.len() == 8,
            j <= 8,
            y == le_bytes(buf@.skip(j as int)),
            y < pow256((8 - j) as nat),
        decreases j,
    {
        let b = *vstd::slice::slice_index_get(buf, j - 1);
        proof {
            let tail = buf@.skip(j as int);
            let head = buf@.skip(j - 1 as int);
            assert(head.skip(1) =~= tail);
            assert(head[0] == buf@[j - 1]);
            assert(le_bytes(head) == b as nat + 256 * le_bytes(tail));
            assert(pow256((8 - (j - 1)) as nat) == 256 * pow256((8 - j) as nat));
            lemma_pow256_le((8 - (j - 1)) as nat, 8);
            lemma_pow256_8();
        }
        y = y * 256 + b as u64;
        j = j - 1;
    }
    proof {
        assert(buf@.skip(0) =~= buf@);
    }
    if y < 0x8000_0000_0000_0000u64 {
        y as i64
    } else {
        -((y - 0x8000_0000_0000_0000u64) as i64)
    }
}

/// Appends the 8-byte sign-magnitude encoding of `x` to `out`.
pub fn encode_int64(x: i64, out: &mut Vec<u8>)
    requires
        x != i64::MIN,
    ensures
        final(out)@ == old(out)@ + encode_spec(x as int),
{
    let mut v: u64 = if x >= 0 {
        x as u64
    } else {
        0x8000_0000_0000_0000u64 + ((-x) as u64)
    };
    let ghost v0: u64 = v;
    let ghost n0: int = out@.len() as int;
    proof {
        assert(encode_spec(x as int) == le_seq(v0 as nat, 8));
    }
    let mut j: usize = 0;
    while j < 8
        invariant
            j <= 8,
            out@.len() == n0 + j,
            0 <= n0 <= out@.len(),
            out@.take(n0) == old(out)@,
            le_seq(v0 as nat, 8) == out@.skip(n0) + le_seq(v as nat, (8 - j) as nat),
        decreases 8 - j,
    {
        let byte: u8 = (v % 256) as u8;
        let ghost pre = out@;
        out.push(byte);
        proof {
            assert(out@ == pre.push(byte));
            assert(out@.len() == n0 + j + 1);
            assert(forall|i: int| 0 <= i < pre.len() ==> out@[i] == pre[i]);
            assert(out@.take(n0) =~= pre.take(n0));
            let rest = le_seq((v / 256) as nat, (7 - j) as nat);
            assert(le_seq(v as nat, (8 - j) as nat) == seq![byte] + rest);
            assert(out@.skip(n0) =~= pre.skip(n0) + seq![byte]);
            assert(out@.skip(n0) + rest =~= pre.skip(n0) + (seq![byte] + rest));
        }
        v = v / 256;
        j = j + 1;
    }
    proof {
        assert(le_seq(v as nat, 0) =~= Seq::<u8>::empty());
        assert(out@.skip(n0) + Seq::<u8>::empty() =~= out@.skip(n0));
        assert(out@ =~= out@.take(n0) + out@.skip(n0));
    }
}

} // verus!
