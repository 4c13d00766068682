//! Unsigned LEB128 numbers: seven data bits per byte, least significant
//! group first, the high bit of a byte set iff another byte follows.
//!
//! The reader accepts any encoding of a value that fits in 64 bits, minimal
//! or not, and rejects longer input: once nine continuation bytes have used
//! up 63 bits, the tenth byte may only be `0x00` or `0x01`.

use vstd::arithmetic::div_mod::lemma_fundamental_div_mod;
use vstd::arithmetic::power2::lemma2_to64;
use vstd::arithmetic::power2::lemma_pow2_adds;
use vstd::arithmetic::power2::pow2;
use vstd::prelude::*;

use crate::Error;

verus! {

/// The LEB128 encoding of `n`.
pub open spec fn leb128_encode(n: nat) -> Seq<u8>
    decreases n,
{
    if n < 128 {
        seq![n as u8]
    } else {
        seq![(n % 128 + 128) as u8] + leb128_encode(n / 128)
    }
}

/// What reading an unsigned LEB128 number from the head of `bytes` yields
/// after `level` seven-bit groups have already been consumed: the value of
/// the remaining groups and how many bytes they occupy, or `None` when the
/// input ends inside the number or the number overflows 64 bits.
pub open spec fn leb128_parse_at(bytes: Seq<u8>, level: nat) -> Option<(nat, nat)>
    decreases bytes.len(),
{
    if bytes.len() == 0 {
        None
    } else {
        let b = bytes[0];
        if level >= 9 {
            // 63 bits are taken; only the last bit of a u64 is left.
            if b == 0 || b == 1 {
                Some((b as nat, 1))
            } else {
                None
            }
        } else if b < 128 {
            Some((b as nat, 1))
        } else {
            match leb128_parse_at(bytes.skip(1), level + 1) {
                None => None,
                Some((v, c)) => Some((((b - 128) + 128 * v) as nat, c + 1)),
            }
        }
    }
}

/// What reading an unsigned LEB128 number from the head of `bytes` yields:
/// its value and the bytes it occupies, or `None` on truncated or
/// overflowing input.
pub open spec fn leb128_parse(bytes: Seq<u8>) -> Option<(nat, nat)> {
    leb128_parse_at(bytes, 0)
}

/// A parse that began at `level` yields a value below `2^(64 - 7 * level)`.
proof fn lemma_leb128_parse_bound(bytes: Seq<u8>, level: nat)
    requires
        level <= 9,
    ensures
        leb128_parse_at(bytes, level) matches Some(r) ==> r.0 < pow2((64 - 7 * level) as nat),
    decreases bytes.len(),
{
    lemma2_to64();
    if bytes.len() != 0 {
        let b = bytes[0];
        if level >= 9 {
        } else if b < 128 {
            assert(pow2(7) <= pow2((64 - 7 * level) as nat)) by {
                lemma_pow2_adds(7, (57 - 7 * level) as nat);
                assert(pow2((57 - 7 * level) as nat) >= 1) by {
                    vstd::arithmetic::power2::lemma_pow2_pos((57 - 7 * level) as nat);
                }
            }
        } else {
            lemma_leb128_parse_bound(bytes.skip(1), level + 1);
            if let Some((v, c)) = leb128_parse_at(bytes.skip(1), level + 1) {
                assert(pow2((64 - 7 * level) as nat) == 128 * pow2((57 - 7 * level) as nat)) by {
                    lemma_pow2_adds(7, (57 - 7 * level) as nat);
                }
                assert((b - 128) + 128 * v < 128 * pow2((57 - 7 * level) as nat));
            }
        }
    }
}

/// Appends the LEB128 encoding of `n` to `out`.
pub fn write_leb128(out: &mut Vec<u8>, n: u64)
    ensures
        final(out)@ == old(out)@ + leb128_encode(n as nat),
    decreases n,
{
    if n < 128 {
        out.push(n as u8);
        assert(out@ =~= old(out)@ + leb128_encode(n as nat));
    } else {
        let ghost prefix = out@;
        out.push((n % 128 + 128) as u8);
        write_leb128(out, n / 128);
        assert(out@ =~= prefix + leb128_encode(n as nat));
    }
}

/// Reads an unsigned LEB128 number whose first `level` groups are already
/// consumed, starting at `bytes[pos]`.
fn read_leb128_at(bytes: &[u8], pos: usize, level: usize) -> (r: Result<(u64, usize), Error>)
    requires
        pos <= bytes@.len(),
        level <= 9,
    ensures
        match r {
            Ok((v, end)) => {
                &&& leb128_parse_at(bytes@.skip(pos as int), level as nat) == Some(
                    (v as nat, (end - pos) as nat),
                )
                &&& pos < end <= bytes@.len()
                &&& v < pow2((64 - 7 * level) as nat)
            },
            Err(e) => {
                &&& leb128_parse_at(bytes@.skip(pos as int), level as nat) is None
                &&& e == Error::Leb128
            },
        },
    decreases bytes@.len() - pos,
{
    proof {
        lemma_leb128_parse_bound(bytes@.skip(pos as int), level as nat);
    }
    if pos >= bytes.len() {
        return Err(Error::Leb128);
    }
    let b = bytes[pos];
    assert(bytes@.skip(pos as int)[0] == b);
    if level == 9 {
        if b <= 1 {
            Ok((b as u64, pos + 1))
        } else {
            Err(Error::Leb128)
        }
    } else if b < 128 {
        Ok((b as u64, pos + 1))
    } else {
        assert(bytes@.skip(pos as int).skip(1) =~= bytes@.skip(pos as int + 1));
        match read_leb128_at(bytes, pos + 1, level + 1) {
            Ok((v, end)) => {
                proof {
                    lemma2_to64();
                    vstd::arithmetic::power2::lemma2_to64_rest();
                    lemma_pow2_adds(7, (57 - 7 * level) as nat);
                    assert(pow2((57 - 7 * (level as int)) as nat) <= pow2(57)) by {
                        if level > 0 {
                            vstd::arithmetic::power2::lemma_pow2_strictly_increases(
                                (57 - 7 * (level as int)) as nat,
                                57,
                            );
                        }
                    }
                }
                let value = (b - 128) as u64 + 128 * v;
                Ok((value, end))
            },
            Err(e) => Err(e),
        }
    }
}

/// Reads an unsigned LEB128 number starting at `bytes[pos]`; on success
/// returns the value and the index of the first byte after it.
pub fn read_leb128(bytes: &[u8], pos: usize) -> (r: Result<(u64, usize), Error>)
    requires
        pos <= bytes@.len(),
    ensures
        match r {
            Ok((v, end)) => {
                &&& leb128_parse(bytes@.skip(pos as int)) == Some((v as nat, (end - pos) as nat))
                &&& pos < end <= bytes@.len()
            },
            Err(e) => {
                &&& leb128_parse(bytes@.skip(pos as int)) is None
                &&& e == Error::Leb128
            },
        },
{
    read_leb128_at(bytes, pos, 0)
}

/// Round trip with any tail: parsing a stream that starts with the
/// encoding of `n` finds exactly `n` and consumes exactly the encoding,
/// provided `n` still fits in the bits the level leaves.
proof fn lemma_leb128_round_trip_at(n: nat, rest: Seq<u8>, level: nat)
    requires
        level <= 9,
        n < pow2((64 - 7 * level) as nat),
    ensures
        leb128_parse_at(leb128_encode(n) + rest, level) == Some((n, leb128_encode(n).len())),
    decreases n,
{
    lemma2_to64();
    let stream = leb128_encode(n) + rest;
    if n < 128 {
        assert(stream[0] == n as u8);
        if level >= 9 {
            assert(n < pow2(1));
        }
    } else {
        // A number of 128 or more never fits in the last bit.
        assert(level < 9) by {
            if level == 9 {
                assert(pow2(1) == 2);
            }
        }
        let b = (n % 128 + 128) as u8;
        assert(stream[0] == b);
        assert(b >= 128);
        assert(stream.skip(1) =~= leb128_encode(n / 128) + rest);
        assert(n / 128 < pow2((64 - 7 * (level + 1)) as nat)) by {
            lemma_pow2_adds(7, (57 - 7 * level) as nat);
            assert(n < 128 * pow2((57 - 7 * level) as nat));
            lemma_fundamental_div_mod(n as int, 128);
        }
        lemma_leb128_round_trip_at(n / 128, rest, level + 1);
        assert((b - 128) + 128 * (n / 128) == n) by {
            lemma_fundamental_div_mod(n as int, 128);
        }
    }
}

/// Round trip with any tail: a stream that starts with the LEB128 encoding
/// of a 64-bit value parses to exactly that value, consuming exactly the
/// encoding, whatever follows it.
pub proof fn lemma_leb128_round_trip(n: u64, rest: Seq<u8>)
    ensures
        leb128_parse(leb128_encode(n as nat) + rest) == Some(
            (n as nat, leb128_encode(n as nat).len()),
        ),
{
    assert(n < pow2(64)) by {
        lemma2_to64();
    }
    lemma_leb128_round_trip_at(n as nat, rest, 0);
}

} // verus!
