//! Canonical variable-length unsigned integer wire format ("BigSize").
//!
//! Values 0..=252 take one byte; 253..=0xFFFF a 0xFD marker plus two
//! big-endian bytes; up to 0xFFFF_FFFF a 0xFE marker plus four bytes; larger
//! values a 0xFF marker plus eight bytes. Decoding rejects any form wider
//! than the minimal one for the value, so every value has exactly one
//! encoding and every encoding parses back to the value it came from.

use vstd::prelude::*;

verus! {

/// Low byte of a 64-bit value.
pub open spec fn lo8(x: u64) -> u8 {
    (x & 0xFF) as u8
}

/// Big-endian combination of two bytes.
pub open spec fn be16(b1: u8, b0: u8) -> u64 {
    ((b1 as u64) << 8) | (b0 as u64)
}

/// Big-endian combination of four bytes.
pub open spec fn be32(b3: u8, b2: u8, b1: u8, b0: u8) -> u64 {
    ((b3 as u64) << 24) | ((b2 as u64) << 16) | ((b1 as u64) << 8) | (b0 as u64)
}

/// Big-endian combination of eight bytes.
pub open spec fn be64(b7: u8, b6: u8, b5: u8, b4: u8, b3: u8, b2: u8, b1: u8, b0: u8) -> u64 {
    ((b7 as u64) << 56) | ((b6 as u64) << 48) | ((b5 as u64) << 40) | ((b4 as u64) << 32)
        | ((b3 as u64) << 24) | ((b2 as u64) << 16) | ((b1 as u64) << 8) | (b0 as u64)
}

/// The unique minimal encoding of `v`.
pub open spec fn bigsize_enc(v: u64) -> Seq<u8> {
    if v < 0xFD {
        seq![lo8(v)]
    } else if v < 0x1_0000 {
        seq![0xFDu8, lo8(v >> 8), lo8(v)]
    } else if v < 0x1_0000_0000 {
        seq![0xFEu8, lo8(v >> 24), lo8(v >> 16), lo8(v >> 8), lo8(v)]
    } else {
        seq![
            0xFFu8,
            lo8(v >> 56),
            lo8(v >> 48),
            lo8(v >> 40),
            lo8(v >> 32),
            lo8(v >> 24),
            lo8(v >> 16),
            lo8(v >> 8),
            lo8(v),
        ]
    }
}

/// Byte length of the minimal encoding of `v`.
pub open spec fn bigsize_len(v: u64) -> int {
    if v < 0xFD {
        1
    } else if v < 0x1_0000 {
        3
    } else if v < 0x1_0000_0000 {
        5
    } else {
        9
    }
}

/// What a minimal-form parse of a prefix of `s` yields: the value and the
/// number of bytes it occupies, or `None` when `s` is empty, truncated, or
/// uses a non-minimal form.
pub open spec fn bigsize_parse(s: Seq<u8>) -> Option<(u64, int)> {
    if s.len() == 0 {
        None
    } else if s[0] < 0xFD {
        Some((s[0] as u64, 1))
    } else if s[0] == 0xFD {
        if s.len() < 3 {
            None
        } else {
            let v = be16(s[1], s[2]);
            if v < 0xFD {
                None
            } else {
                Some((v, 3))
            }
        }
    } else if s[0] == 0xFE {
        if s.len() < 5 {
            None
        } else {
            let v = be32(s[1], s[2], s[3], s[4]);
            if v < 0x1_0000 {
                None
            } else {
                Some((v, 5))
            }
        }
    } else {
        if s.len() < 9 {
            None
        } else {
            let v = be64(s[1], s[2], s[3], s[4], s[5], s[6], s[7], s[8]);
            if v < 0x1_0000_0000 {
                None
            } else {
                Some((v, 9))
            }
        }
    }
}

/// Parsing starts at the encoding of `v`, whatever follows it: the parse
/// returns exactly `v` and consumes exactly the encoding's bytes.
pub proof fn lemma_bigsize_enc_parse(v: u64, rest: Seq<u8>)
    ensures
        bigsize_parse(bigsize_enc(v) + rest) == Some((v, bigsize_len(v))),
{
    let s = bigsize_enc(v) + rest;
    if v < 0xFD {
        assert(v & 0xFF == v && (v & 0xFF) < 0xFD) by (bit_vector)
            requires v < 0xFD;
        assert(s[0] == lo8(v));
    } else if v < 0x1_0000 {
        assert(s[0] == 0xFDu8 && s[1] == lo8(v >> 8) && s[2] == lo8(v));
        assert(be16(lo8(v >> 8), lo8(v)) == v) by (bit_vector)
            requires v < 0x1_0000;
    } else if v < 0x1_0000_0000 {
        assert(s[0] == 0xFEu8 && s[1] == lo8(v >> 24) && s[2] == lo8(v >> 16) && s[3] == lo8(
            v >> 8,
        ) && s[4] == lo8(v));
        assert(be32(lo8(v >> 24), lo8(v >> 16), lo8(v >> 8), lo8(v)) == v) by (bit_vector)
            requires v < 0x1_0000_0000;
    } else {
        assert(s[0] == 0xFFu8 && s[1] == lo8(v >> 56) && s[2] == lo8(v >> 48) && s[3] == lo8(
            v >> 40,
        ) && s[4] == lo8(v >> 32) && s[5] == lo8(v >> 24) && s[6] == lo8(v >> 16) && s[7] == lo8(
            v >> 8,
        ) && s[8] == lo8(v));
        assert(be64(
            lo8(v >> 56),
            lo8(v >> 48),
            lo8(v >> 40),
            lo8(v >> 32),
            lo8(v >> 24),
            lo8(v >> 16),
            lo8(v >> 8),
            lo8(v),
        ) == v) by (bit_vector);
    }
}

/// A successful parse reads back exactly the minimal encoding: the consumed
/// prefix is `bigsize_enc` of the value.
pub proof fn lemma_bigsize_parse_enc(s: Seq<u8>)
    requires
        bigsize_parse(s) is Some,
    ensures
        ({
            let (v, n) = bigsize_parse(s)->Some_0;
            &&& n == bigsize_len(v)
            &&& 1 <= n <= s.len()
            &&& s.subrange(0, n) =~= bigsize_enc(v)
        }),
{
    let (v, n) = bigsize_parse(s)->Some_0;
    if s[0] < 0xFD {
        let b0 = s[0];
        assert((b0 as u64) < 0xFD && lo8(b0 as u64) == b0) by (bit_vector)
            requires b0 < 0xFD;
    } else if s[0] == 0xFD {
        let b1 = s[1];
        let b0 = s[2];
        assert(be16(b1, b0) < 0x1_0000 && lo8(be16(b1, b0) >> 8) == b1 && lo8(be16(b1, b0)) == b0)
            by (bit_vector);
    } else if s[0] == 0xFE {
        let b3 = s[1];
        let b2 = s[2];
        let b1 = s[3];
        let b0 = s[4];
        let w = be32(b3, b2, b1, b0);
        assert(be32(b3, b2, b1, b0) < 0x1_0000_0000 && lo8(be32(b3, b2, b1, b0) >> 24) == b3 && lo8(
            be32(b3, b2, b1, b0) >> 16,
        ) == b2 && lo8(be32(b3, b2, b1, b0) >> 8) == b1 && lo8(be32(b3, b2, b1, b0)) == b0)
            by (bit_vector);
        assert(w == v);
    } else {
        let b7 = s[1];
        let b6 = s[2];
        let b5 = s[3];
        let b4 = s[4];
        let b3 = s[5];
        let b2 = s[6];
        let b1 = s[7];
        let b0 = s[8];
        let w = be64(b7, b6, b5, b4, b3, b2, b1, b0);
        assert(lo8(be64(b7, b6, b5, b4, b3, b2, b1, b0) >> 56) == b7 && lo8(
            be64(b7, b6, b5, b4, b3, b2, b1, b0) >> 48,
        ) == b6 && lo8(be64(b7, b6, b5, b4, b3, b2, b1, b0) >> 40) == b5 && lo8(
            be64(b7, b6, b5, b4, b3, b2, b1, b0) >> 32,
        ) == b4 && lo8(be64(b7, b6, b5, b4, b3, b2, b1, b0) >> 24) == b3 && lo8(
            be64(b7, b6, b5, b4, b3, b2, b1, b0) >> 16,
        ) == b2 && lo8(be64(b7, b6, b5, b4, b3, b2, b1, b0) >> 8) == b1 && lo8(
            be64(b7, b6, b5, b4, b3, b2, b1, b0),
        ) == b0) by (bit_vector);
        assert(w == v);
    }
}

/// Extracts the low byte of a 64-bit value.
fn lo_byte(x: u64) -> (r: u8)
    ensures
        r == lo8(x),
{
    assert(x & 0xFF < 256) by (bit_vector);
    (x & 0xFF) as u8
}

/// Appends the minimal encoding of `v` to `out`.
pub fn bigsize_encode(v: u64, out: &mut Vec<u8>)
    ensures
        final(out)@ == old(out)@ + bigsize_enc(v),
{
    if v < 0xFD {
        let b = lo_byte(v);
        out.push(b);
    } else if v < 0x1_0000 {
        out.push(0xFD);
        let b1 = lo_byte(v >> 8);
        out.push(b1);
        let b0 = lo_byte(v);
        out.push(b0);
    } else if v < 0x1_0000_0000 {
        out.push(0xFE);
        let b3 = lo_byte(v >> 24);
        out.push(b3);
        let b2 = lo_byte(v >> 16);
        out.push(b2);
        let b1 = lo_byte(v >> 8);
        out.push(b1);
        let b0 = lo_byte(v);
        out.push(b0);
    } else {
        out.push(0xFF);
        let b7 = lo_byte(v >> 56);
        out.push(b7);
        let b6 = lo_byte(v >> 48);
        out.push(b6);
        let b5 = lo_byte(v >> 40);
        out.push(b5);
        let b4 = lo_byte(v >> 32);
        out.push(b4);
        let b3 = lo_byte(v >> 24);
        out.push(b3);
        let b2 = lo_byte(v >> 16);
        out.push(b2);
        let b1 = lo_byte(v >> 8);
        out.push(b1);
        let b0 = lo_byte(v);
        out.push(b0);
    }
    assert(out@ =~= old(out)@ + bigsize_enc(v));
}

/// Three-way outcome of reading one variable-length integer: a value with
/// its consumed byte count, a clean end of input exactly at a boundary, or
/// an invalid (truncated or non-minimal) form.
pub enum BigSizeOutcome {
    /// A value, and how many bytes it occupied.
    Value(u64, usize),
    /// No bytes remained at all.
    End,
    /// Truncated or non-minimally encoded integer.
    Malformed,
}

/// Reads one minimally encoded integer from `data` starting at `pos`.
pub fn bigsize_decode(data: &[u8], pos: usize) -> (r: BigSizeOutcome)
    requires
        pos <= data@.len(),
    ensures
        match r {
            BigSizeOutcome::Value(v, n) => {
                &&& bigsize_parse(data@.skip(pos as int)) == Some((v, n as int))
                &&& pos + n <= data@.len()
                &&& 1 <= n <= 9
            },
            BigSizeOutcome::End => pos == data@.len(),
            BigSizeOutcome::Malformed => {
                &&& pos < data@.len()
                &&& bigsize_parse(data@.skip(pos as int)) is None
            },
        },
{
    let ghost s = data@.skip(pos as int);
    let len = data.len();
    if pos == len {
        return BigSizeOutcome::End;
    }
    let b0 = data[pos];
    assert(s[0] == b0);
    if b0 < 0xFD {
        BigSizeOutcome::Value(b0 as u64, 1)
    } else if b0 == 0xFD {
        if len - pos < 3 {
            return BigSizeOutcome::Malformed;
        }
        assert(s[1] == data@[pos + 1] && s[2] == data@[pos + 2]);
        let v = ((data[pos + 1] as u64) << 8) | (data[pos + 2] as u64);
        if v < 0xFD {
            BigSizeOutcome::Malformed
        } else {
            BigSizeOutcome::Value(v, 3)
        }
    } else if b0 == 0xFE {
        if len - pos < 5 {
            return BigSizeOutcome::Malformed;
        }
        assert(s[1] == data@[pos + 1] && s[2] == data@[pos + 2] && s[3] == data@[pos + 3] && s[4]
            == data@[pos + 4]);
        let v = ((data[pos + 1] as u64) << 24) | ((data[pos + 2] as u64) << 16) | ((data[pos
            + 3] as u64) << 8) | (data[pos + 4] as u64);
        if v < 0x1_0000 {
            BigSizeOutcome::Malformed
        } else {
            BigSizeOutcome::Value(v, 5)
        }
    } else {
        if len - pos < 9 {
            return BigSizeOutcome::Malformed;
        }
        assert(s[1] == data@[pos + 1] && s[2] == data@[pos + 2] && s[3] == data@[pos + 3] && s[4]
            == data@[pos + 4] && s[5] == data@[pos + 5] && s[6] == data@[pos + 6] && s[7] == data@[
            pos + 7] && s[8] == data@[pos + 8]);
        let v = ((data[pos + 1] as u64) << 56) | ((data[pos + 2] as u64) << 48) | ((data[pos
            + 3] as u64) << 40) | ((data[pos + 4] as u64) << 32) | ((data[pos + 5] as u64) << 24)
            | ((data[pos + 6] as u64) << 16) | ((data[pos + 7] as u64) << 8) | (data[pos
            + 8] as u64);
        if v < 0x1_0000_0000 {
            BigSizeOutcome::Malformed
        } else {
            BigSizeOutcome::Value(v, 9)
        }
    }
}

} // verus!
