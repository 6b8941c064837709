//! The arithmetic of base-128 varints: what a run of bytes stands for, where a
//! varint ends, and the facts that the decoder's loop rests on.
use vstd::arithmetic::div_mod::{lemma_fundamental_div_mod, lemma_mod_multiples_vanish, lemma_small_mod};
use vstd::arithmetic::power2::{lemma2_to64, lemma2_to64_rest, lemma_pow2_adds, lemma_pow2_pos, lemma_pow2_strictly_increases, pow2};
use vstd::bits::lemma_u64_shl_is_mul;
use vstd::prelude::*;

use crate::decode::DecodeError;

verus! {

/// The number that a run of varint bytes stands for: seven value bits per
/// byte, least significant group first, continuation bits ignored.
pub open spec fn varint_value(s: Seq<u8>) -> nat
    decreases s.len(),
{
    if s.len() == 0 {
        0
    } else {
        (s[0] % 128) as nat + 128 * varint_value(s.drop_first())
    }
}

/// Scanning from byte `i`, the length of a varint that may take at most
/// `limit` bytes: it ends at the first byte whose high bit is clear.
pub open spec fn varint_len_from(s: Seq<u8>, i: nat, limit: nat) -> Result<nat, DecodeError>
    decreases limit - i,
{
    if i >= limit {
        Err(DecodeError::VarIntLimit(limit as u8))
    } else if i >= s.len() {
        Err(DecodeError::UnexpectedEof)
    } else if s[i as int] < 0x80 {
        Ok(i + 1)
    } else {
        varint_len_from(s, i + 1, limit)
    }
}

/// The length of the varint at the start of `s`, or the error that reading it
/// meets.
pub open spec fn varint_len(s: Seq<u8>, limit: nat) -> Result<nat, DecodeError> {
    varint_len_from(s, 0, limit)
}

/// The value of the varint at the start of `s` and its length in bytes, before
/// any narrowing to a machine width.
pub open spec fn varint_at(s: Seq<u8>, limit: nat) -> Result<(nat, nat), DecodeError> {
    match varint_len(s, limit) {
        Ok(n) => Ok((varint_value(s.take(n as int)), n)),
        Err(e) => Err(e),
    }
}

/// The ZigZag mapping back from unsigned to signed: even numbers are the
/// non-negative values, odd numbers the negative ones.
pub open spec fn zigzag_decode(u: int) -> int {
    if u % 2 == 0 {
        u / 2
    } else {
        -(u / 2) - 1
    }
}

/// The ZigZag mapping from signed to unsigned: `0, -1, 1, -2, ...` become
/// `0, 1, 2, 3, ...`.
pub open spec fn zigzag_encode(n: int) -> int {
    if n >= 0 {
        2 * n
    } else {
        -2 * n - 1
    }
}

/// The varint that stands for `n`: seven bits per byte, least significant
/// group first, the high bit set on every byte but the last.
pub open spec fn varint_bytes(n: nat) -> Seq<u8>
    decreases n,
{
    if n < 128 {
        seq![n as u8]
    } else {
        seq![(n % 128 + 128) as u8] + varint_bytes(n / 128)
    }
}

pub open spec fn pow64() -> nat {
    0x1_0000_0000_0000_0000
}

pub open spec fn pow32() -> nat {
    0x1_0000_0000
}

/// A length found by the scan lies past the start, within the limit and the
/// bytes, and ends on a byte whose high bit is clear.
pub proof fn lemma_varint_len_bounds(s: Seq<u8>, i: nat, limit: nat)
    requires
        i <= s.len(),
    ensures
        varint_len_from(s, i, limit) matches Ok(n) ==> i < n <= limit && n <= s.len()
            && s[n - 1] < 0x80,
        varint_len_from(s, i, limit) matches Err(DecodeError::VarIntLimit(_)) ==> s.len() >= limit,
        varint_len_from(s, i, limit) matches Err(DecodeError::UnexpectedEof) ==> s.len() < limit,
    decreases limit - i,
{
    if i < limit && i < s.len() && s[i as int] >= 0x80 {
        lemma_varint_len_bounds(s, i + 1, limit);
    }
}

/// Appending a byte adds its seven value bits above those already read.
pub proof fn lemma_varint_value_push(s: Seq<u8>, b: u8)
    ensures
        varint_value(s.push(b)) == varint_value(s) + (b % 128) as nat * pow2(7 * s.len()),
    decreases s.len(),
{
    if s.len() == 0 {
        assert(s.push(b).drop_first() =~= Seq::<u8>::empty());
        assert(varint_value(Seq::<u8>::empty()) == 0);
        lemma2_to64();
    } else {
        assert(s.push(b).drop_first() =~= s.drop_first().push(b));
        lemma_varint_value_push(s.drop_first(), b);
        let k = (7 * (s.len() - 1)) as nat;
        lemma_pow2_adds(7, k);
        lemma2_to64();
        assert(7 + k == 7 * s.len());
        let c = (b % 128) as nat;
        let p = pow2(k);
        assert(128 * (varint_value(s.drop_first()) + c * p) == 128 * varint_value(s.drop_first())
            + c * (128 * p)) by (nonlinear_arith);
    }
}

/// Value bits of `n` bytes fit in `7 * n` bits.
pub proof fn lemma_varint_value_bound(s: Seq<u8>)
    ensures
        varint_value(s) < pow2(7 * s.len()),
    decreases s.len(),
{
    lemma2_to64();
    if s.len() > 0 {
        lemma_varint_value_bound(s.drop_first());
        let k = (7 * (s.len() - 1)) as nat;
        lemma_pow2_adds(7, k);
        assert(7 + k == 7 * s.len());
        let v = varint_value(s.drop_first());
        let p = pow2(k);
        assert((s[0] % 128) as nat + 128 * v < 128 * p) by (nonlinear_arith)
            requires
                v < p,
                (s[0] % 128) < 128,
        ;
    }
}

/// Or-ing seven value bits in above `v` is adding them, up to the 64-bit
/// truncation of the shift.
pub proof fn lemma_or_shifted(v: u64, c: u64, shift: u64)
    requires
        v < pow2(shift as nat),
        c < 128,
        shift < 64,
        shift <= 56 || shift == 63,
    ensures
        (v | (c << shift)) as int == (v + c * pow2(shift as nat)) % (pow64() as int),
{
    lemma2_to64();
    lemma2_to64_rest();
    lemma_pow2_pos(shift as nat);
    if shift <= 56 {
        if shift < 56 {
            lemma_pow2_strictly_increases(shift as nat, 56);
        }
        let p = pow2(shift as nat);
        assert(c * p <= 127 * 0x100_0000_0000_0000) by (nonlinear_arith)
            requires
                c < 128,
                p <= 0x100_0000_0000_0000,
        ;
        lemma_u64_shl_is_mul(c, shift);
        lemma_u64_shl_is_mul(1, shift);
        let m = 1u64 << shift;
        assert(v | (c << shift) == v + (c << shift)) by (bit_vector)
            requires
                v < m,
                m == 1u64 << shift,
                shift < 64,
                c < 128,
                shift <= 56,
        ;
        lemma_small_mod((v + c * p) as nat, pow64());
    } else {
        assert(pow2(63) == 0x8000_0000_0000_0000);
        assert(v | (c << 63u64) == v + (c % 2) * 0x8000_0000_0000_0000) by (bit_vector)
            requires
                v < 0x8000_0000_0000_0000,
        ;
        let k: int = 0x8000_0000_0000_0000;
        lemma_fundamental_div_mod(c as int, 2);
        assert(c * k == (c / 2) * (2 * k) + (c % 2) * k) by (nonlinear_arith)
            requires
                c == 2 * (c / 2) + c % 2,
        ;
        lemma_mod_multiples_vanish((c / 2) as int, v + (c % 2) * k, 2 * k);
        lemma_small_mod((v + (c % 2) * k) as nat, pow64());
    }
}

/// Decoding the bytes of `n` gives `n` back.
pub proof fn lemma_varint_bytes_value(n: nat)
    ensures
        varint_value(varint_bytes(n)) == n,
    decreases n,
{
    if n < 128 {
        assert(varint_bytes(n).drop_first() =~= Seq::<u8>::empty());
        assert(varint_value(Seq::<u8>::empty()) == 0);
    } else {
        lemma_varint_bytes_value(n / 128);
        assert(varint_bytes(n).drop_first() =~= varint_bytes(n / 128));
    }
}

/// The bytes of `n` number at least one, and at most `k` when `n < 2^(7k)`.
pub proof fn lemma_varint_bytes_len(n: nat, k: nat)
    ensures
        varint_bytes(n).len() >= 1,
        k >= 1 && n < pow2(7 * k) ==> varint_bytes(n).len() <= k,
    decreases n,
{
    if n >= 128 {
        if k >= 1 && n < pow2(7 * k) {
            lemma2_to64();
            if k == 1 {
            } else {
                lemma_pow2_adds(7, (7 * (k - 1)) as nat);
                assert(7 + 7 * (k - 1) == 7 * k);
                let p = pow2((7 * (k - 1)) as nat);
                lemma_fundamental_div_mod(n as int, 128);
                assert(n / 128 < p) by (nonlinear_arith)
                    requires
                        n < 128 * p,
                        n == 128 * (n / 128) + n % 128,
                        n % 128 >= 0,
                ;
            }
            lemma_varint_bytes_len(n / 128, (k - 1) as nat);
        } else {
            lemma_varint_bytes_len(n / 128, 0);
        }
    }
}

/// Scanning bytes that hold the varint of `n` after `pre` ends just past it.
proof fn lemma_varint_bytes_scan(n: nat, pre: Seq<u8>, rest: Seq<u8>, limit: nat)
    requires
        pre.len() + varint_bytes(n).len() <= limit,
    ensures
        varint_len_from(pre + varint_bytes(n) + rest, pre.len(), limit) == Ok::<nat, DecodeError>(
            pre.len() + varint_bytes(n).len(),
        ),
    decreases n,
{
    let s = pre + varint_bytes(n) + rest;
    assert(s[pre.len() as int] == varint_bytes(n)[0]);
    if n >= 128 {
        let b = (n % 128 + 128) as u8;
        let pre2 = pre.push(b);
        assert(pre2 + varint_bytes(n / 128) + rest =~= s);
        lemma_varint_bytes_scan(n / 128, pre2, rest, limit);
    }
}

/// A varint written for `n`, followed by anything, reads back as `n` and
/// takes exactly its own bytes.
pub proof fn lemma_varint_round_trip(n: nat, rest: Seq<u8>, limit: nat)
    requires
        varint_bytes(n).len() <= limit,
    ensures
        varint_at(varint_bytes(n) + rest, limit) == Ok::<(nat, nat), DecodeError>(
            (n, varint_bytes(n).len()),
        ),
{
    let e = Seq::<u8>::empty();
    assert(e + varint_bytes(n) + rest =~= varint_bytes(n) + rest);
    lemma_varint_bytes_scan(n, e, rest, limit);
    assert((varint_bytes(n) + rest).take(varint_bytes(n).len() as int) =~= varint_bytes(n));
    lemma_varint_bytes_value(n);
}

} // verus!
