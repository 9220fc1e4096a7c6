//! Pure bit logic: framing a payload into a bitstream (32-bit big-endian
//! length header followed by the payload bytes, each expanded MSB-first), and
//! reassembling a bitstream back into the payload.

use vstd::prelude::*;
use vstd::arithmetic::div_mod::{
    lemma_div_denominator, lemma_fundamental_div_mod, lemma_fundamental_div_mod_converse,
};
use vstd::arithmetic::power2::{
    lemma2_to64, lemma_pow2_adds, lemma_pow2_pos, lemma_pow2_strictly_increases, pow2,
};
use vstd::bits::{lemma_u32_shr_is_div, lemma_u8_shr_is_div};
use crate::config::CodecError;

verus! {

/// The unsigned value of a bit sequence read most-significant bit first.
pub open spec fn bits_val(s: Seq<bool>) -> nat
    decreases s.len(),
{
    if s.len() == 0 {
        0
    } else {
        2 * bits_val(s.drop_last()) + if s.last() {
            1nat
        } else {
            0nat
        }
    }
}

/// The `w`-bit big-endian representation of `n`.
pub open spec fn num_bits(n: nat, w: nat) -> Seq<bool> {
    Seq::new(w, |i: int| (n / pow2((w - 1 - i) as nat)) % 2 == 1)
}

/// The eight bits of one payload byte, most significant first.
pub open spec fn byte_bits(b: u8) -> Seq<bool> {
    num_bits(b as nat, 8)
}

/// The 32 header bits carrying the payload length, most significant first.
pub open spec fn header_bits(n: u32) -> Seq<bool> {
    num_bits(n as nat, 32)
}

/// All payload bits: each byte expanded MSB-first, in payload order.
pub open spec fn payload_bits(p: Seq<u8>) -> Seq<bool> {
    Seq::new(8 * p.len(), |i: int| byte_bits(p[i / 8])[i % 8])
}

/// The whole framed bitstream: the 32 header bits carrying the payload
/// length, then the payload bits.
pub open spec fn framed_bits(p: Seq<u8>) -> Seq<bool>
    recommends
        p.len() < 0x1_0000_0000,
{
    header_bits(p.len() as u32) + payload_bits(p)
}

/// What reassembling a bitstream yields: `None` when fewer than 32 bits are
/// available, or fewer than the `8 * N` the header demands; otherwise the `N`
/// bytes packed MSB-first from the bits after the header, any further bits
/// ignored.
pub open spec fn reassemble_spec(bits: Seq<bool>) -> Option<Seq<u8>> {
    if bits.len() < 32 {
        None
    } else {
        let n = bits_val(bits.take(32)) as int;
        if bits.len() - 32 < 8 * n {
            None
        } else {
            Some(Seq::new(n as nat, |k: int| bits_val(bits.subrange(32 + 8 * k, 40 + 8 * k)) as u8))
        }
    }
}

/// A sequence of `w` bits holds a value below `2^w`.
pub proof fn lemma_bits_val_bound(s: Seq<bool>)
    ensures
        bits_val(s) < pow2(s.len()),
    decreases s.len(),
{
    if s.len() == 0 {
        lemma2_to64();
    } else {
        lemma_bits_val_bound(s.drop_last());
        lemma_pow2_adds((s.len() - 1) as nat, 1);
        lemma2_to64();
    }
}

/// Reading the big-endian bits of `n` back as a number returns `n`.
pub proof fn lemma_num_bits_val(n: nat, w: nat)
    requires
        n < pow2(w),
    ensures
        bits_val(num_bits(n, w)) == n,
    decreases w,
{
    if w == 0 {
        lemma2_to64();
        assert(num_bits(n, 0) =~= Seq::<bool>::empty());
    } else {
        let s = num_bits(n, w);
        assert(pow2(0) == 1 && pow2(1) == 2) by {
            lemma2_to64();
        }
        assert forall|i: int| 0 <= i < w - 1 implies s[i] == num_bits(n / 2, (w - 1) as nat)[i] by {
            let e = (w - 2 - i) as nat;
            lemma_pow2_pos(e);
            lemma_pow2_adds(1, e);
            lemma_div_denominator(n as int, 2, pow2(e) as int);
        }
        assert(s.drop_last() =~= num_bits(n / 2, (w - 1) as nat));
        vstd::arithmetic::div_mod::lemma_div_basics(n as int);
        assert(s.last() == (n % 2 == 1));
        let p2 = pow2((w - 1) as nat) as int;
        assert(n / 2 < p2) by {
            lemma_pow2_pos((w - 1) as nat);
            lemma_pow2_adds((w - 1) as nat, 1);
            assert(n <= 2 * p2 - 1);
            vstd::arithmetic::div_mod::lemma_div_is_ordered(n as int, 2 * p2 - 1, 2);
            lemma_fundamental_div_mod_converse(2 * p2 - 1, 2, p2 - 1, 1);
        }
        lemma_num_bits_val(n / 2, (w - 1) as nat);
        lemma_fundamental_div_mod(n as int, 2);
    }
}

/// The bits at positions `8k..8k+8` of the payload bit expansion are exactly
/// the bits of byte `k`.
pub proof fn lemma_payload_bits_byte(p: Seq<u8>, k: int)
    requires
        0 <= k < p.len(),
    ensures
        payload_bits(p).subrange(8 * k, 8 * k + 8) =~= byte_bits(p[k]),
{
    assert forall|i: int| 0 <= i < 8 implies payload_bits(p)[8 * k + i] == byte_bits(p[k])[i] by {
        lemma_fundamental_div_mod_converse(8 * k + i, 8, k, i);
    }
}

/// Reassembling any stream that extends the framed bits of a payload (the
/// underfull last frame may append padding bits) recovers that payload.
pub proof fn lemma_reassemble_framed(p: Seq<u8>, pad: Seq<bool>)
    requires
        p.len() < 0x1_0000_0000,
    ensures
        reassemble_spec(framed_bits(p) + pad) == Some(p),
{
    let bits = framed_bits(p) + pad;
    let n = p.len() as int;
    assert(bits.take(32) =~= header_bits(p.len() as u32));
    assert(pow2(32) == 0x1_0000_0000) by {
        lemma2_to64();
    }
    lemma_num_bits_val(p.len(), 32);
    assert(bits_val(bits.take(32)) == n);
    assert(bits.len() - 32 >= 8 * n);
    let out = reassemble_spec(bits)->Some_0;
    assert forall|k: int| 0 <= k < n implies out[k] == p[k] by {
        assert(bits.subrange(32 + 8 * k, 40 + 8 * k) =~= payload_bits(p).subrange(
            8 * k,
            8 * k + 8,
        ));
        lemma_payload_bits_byte(p, k);
        assert(pow2(8) == 256) by {
            lemma2_to64();
        }
        lemma_num_bits_val(p[k] as nat, 8);
    }
    assert(out =~= p);
}

/// Appends the eight bits of `b`, most significant first.
fn push_byte_bits(bits: &mut Vec<bool>, b: u8)
    ensures
        final(bits)@ == old(bits)@ + byte_bits(b),
{
    let ghost prefix = bits@;
    let mut j: u8 = 0;
    while j < 8
        invariant
            j <= 8,
            bits@ == prefix + byte_bits(b).take(j as int),
        decreases 8 - j,
    {
        let sh: u8 = 7 - j;
        let bit = ((b >> sh) & 1) == 1;
        proof {
            lemma_u8_shr_is_div(b, sh);
            let x = (b >> sh);
            assert((x & 1) == x % 2) by (bit_vector);
            assert(byte_bits(b)[j as int] == bit);
            assert(byte_bits(b).take(j as int).push(bit) =~= byte_bits(b).take(j + 1));
        }
        bits.push(bit);
        j = j + 1;
    }
    proof {
        assert(byte_bits(b).take(8) =~= byte_bits(b));
    }
}

/// Frames a payload into its bitstream: the 32-bit big-endian length header,
/// then every payload byte expanded MSB-first. A payload whose length does
/// not fit the 32-bit header is rejected, never truncated.
pub fn build_bitstream(payload: &Vec<u8>) -> (r: Result<Vec<bool>, CodecError>)
    ensures
        match r {
            Ok(bits) => payload@.len() < 0x1_0000_0000 && bits@ == framed_bits(payload@),
            Err(e) => e == CodecError::Precondition && payload@.len() >= 0x1_0000_0000,
        },
{
    if payload.len() as u64 >= 0x1_0000_0000u64 {
        return Err(CodecError::Precondition);
    }
    let n: u32 = payload.len() as u32;
    let mut bits: Vec<bool> = Vec::new();
    let mut i: u8 = 0;
    while i < 32
        invariant
            i <= 32,
            n == payload@.len(),
            bits@ == header_bits(n).take(i as int),
        decreases 32 - i,
    {
        let sh: u32 = 31 - (i as u32);
        let bit = ((n >> sh) & 1) == 1;
        proof {
            lemma_u32_shr_is_div(n, sh);
            let x = (n >> sh);
            assert((x & 1) == x % 2) by (bit_vector);
            assert(header_bits(n)[i as int] == bit);
            assert(header_bits(n).take(i as int).push(bit) =~= header_bits(n).take(i + 1));
        }
        bits.push(bit);
        i = i + 1;
    }
    proof {
        assert(header_bits(n).take(32) =~= header_bits(n));
    }
    let mut k: usize = 0;
    while k < payload.len()
        invariant
            k <= payload@.len(),
            n == payload@.len(),
            payload@.len() < 0x1_0000_0000,
            bits@ == header_bits(n) + payload_bits(payload@).take(8 * k as int),
        decreases payload@.len() - k,
    {
        push_byte_bits(&mut bits, payload[k]);
        proof {
            let p = payload@;
            assert forall|i: int| 8 * k <= i < 8 * k + 8 implies payload_bits(p)[i] == byte_bits(
                p[k as int],
            )[i - 8 * k] by {
                lemma_fundamental_div_mod_converse(i, 8, k as int, i - 8 * k);
            }
            assert(payload_bits(p).take(8 * k as int) + byte_bits(p[k as int]) =~= payload_bits(
                p,
            ).take(8 * (k + 1) as int));
        }
        k = k + 1;
    }
    proof {
        assert(payload_bits(payload@).take(8 * payload@.len() as int) =~= payload_bits(payload@));
    }
    Ok(bits)
}

/// Reads the `len` bits at `start` as one big-endian unsigned number.
fn bits_to_num(bits: &Vec<bool>, start: usize, len: usize) -> (r: u32)
    requires
        len <= 32,
        start + len <= bits@.len(),
    ensures
        r as nat == bits_val(bits@.subrange(start as int, start + len)),
{
    let total: usize = bits.len();
    proof {
        lemma2_to64();
    }
    let mut acc: u32 = 0;
    let mut i: usize = 0;
    while i < len
        invariant
            i <= len,
            len <= 32,
            start + len <= bits@.len(),
            bits@.len() == total,
            acc as nat == bits_val(bits@.subrange(start as int, start + i)),
            acc < pow2(i as nat),
        decreases len - i,
    {
        let bit = bits[start + i];
        let b: u32 = if bit {
            1
        } else {
            0
        };
        proof {
            let sub = bits@.subrange(start as int, start + i);
            let sub1 = bits@.subrange(start as int, start + i + 1);
            assert(sub1.drop_last() =~= sub);
            assert(sub1.last() == bit);
            if i < 31 {
                lemma_pow2_strictly_increases(i as nat, 31);
            }
            assert(pow2(31) == 0x8000_0000) by {
                lemma2_to64();
            }
            assert(acc < 0x8000_0000);
            assert(((acc << 1u32) | b) == 2 * acc + b) by (bit_vector)
                requires
                    acc < 0x8000_0000u32 && b <= 1u32,
            ;
            lemma_pow2_adds(i as nat, 1);
            assert(pow2(1) == 2) by {
                lemma2_to64();
            }
        }
        acc = (acc << 1u32) | b;
        i = i + 1;
    }
    acc
}

/// Reassembles a bitstream into the payload it frames: the first 32 bits name
/// the payload length `N` big-endian; the next `8 * N` bits are packed
/// MSB-first into `N` bytes; any further bits are padding and are discarded.
/// Fails with `TruncatedStream` exactly when fewer than 32 bits are present,
/// or fewer than `8 * N` bits follow the header.
pub fn reassemble(bits: &Vec<bool>) -> (r: Result<Vec<u8>, CodecError>)
    ensures
        match r {
            Ok(out) => reassemble_spec(bits@) == Some(out@),
            Err(e) => e == CodecError::TruncatedStream && reassemble_spec(bits@) is None,
        },
{
    let total: usize = bits.len();
    if total < 32 {
        return Err(CodecError::TruncatedStream);
    }
    let n: u32 = bits_to_num(bits, 0, 32);
    proof {
        assert(bits@.subrange(0, 32) =~= bits@.take(32));
    }
    let avail: usize = total - 32;
    if (avail as u64) < 8u64 * (n as u64) {
        return Err(CodecError::TruncatedStream);
    }
    let count: usize = n as usize;
    let mut out: Vec<u8> = Vec::new();
    let mut k: usize = 0;
    while k < count
        invariant
            k <= count,
            count == bits_val(bits@.take(32)),
            8 * count <= bits@.len() - 32,
            bits@.len() == total,
            total <= usize::MAX,
            out@.len() == k,
            forall|j: int|
                0 <= j < k ==> out@[j] as nat == bits_val(bits@.subrange(32 + 8 * j, 40 + 8 * j)),
        decreases count - k,
    {
        let v: u32 = bits_to_num(bits, 32 + 8 * k, 8);
        proof {
            lemma_bits_val_bound(bits@.subrange(32 + 8 * k as int, 40 + 8 * k as int));
            assert(pow2(8) == 256) by {
                lemma2_to64();
            }
        }
        out.push(v as u8);
        k = k + 1;
    }
    proof {
        let expected = reassemble_spec(bits@)->Some_0;
        assert(out@ =~= expected);
    }
    Ok(out)
}

} // verus!
