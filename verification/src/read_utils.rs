//! The primitive readers of the 7z metadata format: fixed-width
//! little-endian integers, the variable-length unsigned integer, and the
//! two bit-vector readers.
use vstd::prelude::*;

use crate::bitset::{index_set_elems, IndexSet};
use crate::buffer::Buffer;
use crate::error::{ArchiveError, ErrorKind};

verus! {

/// 256 to the power `n`.
pub open spec fn pow256(n: nat) -> nat
    decreases n,
{
    if n == 0 {
        1
    } else {
        256 * pow256((n - 1) as nat)
    }
}

/// The value of a byte sequence read as a little-endian integer.
pub open spec fn le_bytes(s: Seq<u8>) -> nat
    decreases s.len(),
{
    if s.len() == 0 {
        0
    } else {
        (s[0] as nat) + 256 * le_bytes(s.subrange(1, s.len() as int))
    }
}

pub proof fn lemma_le_bytes_bound(s: Seq<u8>)
    ensures
        le_bytes(s) < pow256(s.len()),
    decreases s.len(),
{
    if s.len() > 0 {
        lemma_le_bytes_bound(s.subrange(1, s.len() as int));
    }
}

/// Unfolds `le_bytes` of a tail subrange of `s` by one byte.
proof fn lemma_le_bytes_unfold(s: Seq<u8>, j: int)
    requires
        0 <= j < s.len(),
    ensures
        le_bytes(s.subrange(j, s.len() as int)) == (s[j] as nat) + 256 * le_bytes(
            s.subrange(j + 1, s.len() as int),
        ),
{
    let t = s.subrange(j, s.len() as int);
    assert(t.subrange(1, t.len() as int) =~= s.subrange(j + 1, s.len() as int));
}

/// Reads `width` bytes and combines them little-endian, most significant
/// byte first, as the format's fixed-width readers do.
fn read_le(data: &mut Buffer, width: usize) -> (r: Result<u64, ArchiveError>)
    requires
        width <= 8,
    ensures
        final(data).bytes() == old(data).bytes(),
        match r {
            Ok(v) => {
                &&& old(data).pos() + width <= old(data).bytes().len()
                &&& final(data).pos() == old(data).pos() + width
                &&& v == le_bytes(
                    old(data).bytes().subrange(
                        old(data).pos() as int,
                        old(data).pos() + width,
                    ),
                )
            },
            Err(e) => {
                &&& old(data).pos() + width > old(data).bytes().len()
                &&& final(data).pos() == old(data).pos()
                &&& e.kind == ErrorKind::Truncated
            },
        },
{
    let bytes = data.read_multi(width)?;
    let ghost b = bytes@;
    let mut result: u64 = 0;
    let mut i: usize = width;
    proof {
        assert(b.subrange(width as int, width as int) =~= Seq::<u8>::empty());
    }
    while i > 0
        invariant
            i <= width,
            width <= 8,
            bytes@ == b,
            b.len() == width,
            result == le_bytes(b.subrange(i as int, width as int)) * (
            if 0 < i < width {
                256nat
            } else {
                1nat
            }),
        decreases i,
    {
        proof {
            lemma_le_bytes_bound(b.subrange(i as int, width as int));
            lemma_pow256_le(((width - i) as nat), 8);
            assert(pow256(8) == 0x1_0000_0000_0000_0000) by {
                reveal_with_fuel(pow256, 9);
            }
        }
        i = i - 1;
        proof {
            lemma_le_bytes_unfold(b.subrange(0, width as int), i as int);
            assert(b.subrange(0, width as int) =~= b);
            assert(b.subrange(0, width as int).subrange(i as int, width as int) =~= b.subrange(
                i as int,
                width as int,
            ));
            assert(b.subrange(0, width as int).subrange(i + 1, width as int) =~= b.subrange(
                i + 1,
                width as int,
            ));
            lemma_le_bytes_bound(b.subrange(i as int, width as int));
            if i > 0 {
                lemma_pow256_le(((width - i + 1) as nat), 8);
            } else {
                lemma_pow256_le(((width - i) as nat), 8);
            }
            assert(256 * pow256((width - i) as nat) == pow256((width - i + 1) as nat));
            assert(pow256(8) == 0x1_0000_0000_0000_0000) by {
                reveal_with_fuel(pow256, 9);
            }
        }
        result = result + (bytes[i] as u64);
        if i > 0 {
            result = result * 256;
        }
    }
    proof {
        assert(b.subrange(0, width as int) =~= b);
    }
    Ok(result)
}

/// `pow256` is monotone in its exponent.
proof fn lemma_pow256_le(m: nat, n: nat)
    requires
        m <= n,
    ensures
        pow256(m) <= pow256(n),
    decreases n,
{
    if m < n && n > 0 {
        lemma_pow256_le(m, (n - 1) as nat);
        assert(pow256((n - 1) as nat) <= 256 * pow256((n - 1) as nat));
    }
}

/// Reads a little-endian `u32`.
pub fn read_uint32(data: &mut Buffer) -> (r: Result<u32, ArchiveError>)
    ensures
        final(data).bytes() == old(data).bytes(),
        match r {
            Ok(v) => {
                &&& old(data).pos() + 4 <= old(data).bytes().len()
                &&& final(data).pos() == old(data).pos() + 4
                &&& v == le_bytes(
                    old(data).bytes().subrange(old(data).pos() as int, old(data).pos() as int + 4),
                )
            },
            Err(e) => {
                &&& old(data).pos() + 4 > old(data).bytes().len()
                &&& final(data).pos() == old(data).pos()
                &&& e.kind == ErrorKind::Truncated
            },
        },
{
    let v = read_le(data, 4)?;
    proof {
        lemma_le_bytes_bound(old(data).bytes().subrange(old(data).pos() as int, old(data).pos() as int + 4));
        assert(pow256(4) == 0x1_0000_0000) by {
            reveal_with_fuel(pow256, 5);
        }
    }
    Ok(v as u32)
}

/// Reads a little-endian `u32`; the same reader under the name the
/// stream-oriented call sites use.
pub fn read_uint32_new(data: &mut Buffer) -> (r: Result<u32, ArchiveError>)
    ensures
        final(data).bytes() == old(data).bytes(),
        match r {
            Ok(v) => {
                &&& old(data).pos() + 4 <= old(data).bytes().len()
                &&& final(data).pos() == old(data).pos() + 4
                &&& v == le_bytes(
                    old(data).bytes().subrange(old(data).pos() as int, old(data).pos() as int + 4),
                )
            },
            Err(e) => {
                &&& old(data).pos() + 4 > old(data).bytes().len()
                &&& final(data).pos() == old(data).pos()
                &&& e.kind == ErrorKind::Truncated
            },
        },
{
    read_uint32(data)
}

/// Reads a little-endian `u64`.
pub fn read_uint64(data: &mut Buffer) -> (r: Result<u64, ArchiveError>)
    ensures
        final(data).bytes() == old(data).bytes(),
        match r {
            Ok(v) => {
                &&& old(data).pos() + 8 <= old(data).bytes().len()
                &&& final(data).pos() == old(data).pos() + 8
                &&& v == le_bytes(
                    old(data).bytes().subrange(old(data).pos() as int, old(data).pos() as int + 8),
                )
            },
            Err(e) => {
                &&& old(data).pos() + 8 > old(data).bytes().len()
                &&& final(data).pos() == old(data).pos()
                &&& e.kind == ErrorKind::Truncated
            },
        },
{
    read_le(data, 8)
}

/// Reads a little-endian `u64`; the same reader under the name the
/// stream-oriented call sites use.
pub fn read_uint64_new(data: &mut Buffer) -> (r: Result<u64, ArchiveError>)
    ensures
        final(data).bytes() == old(data).bytes(),
        match r {
            Ok(v) => {
                &&& old(data).pos() + 8 <= old(data).bytes().len()
                &&& final(data).pos() == old(data).pos() + 8
                &&& v == le_bytes(
                    old(data).bytes().subrange(old(data).pos() as int, old(data).pos() as int + 8),
                )
            },
            Err(e) => {
                &&& old(data).pos() + 8 > old(data).bytes().len()
                &&& final(data).pos() == old(data).pos()
                &&& e.kind == ErrorKind::Truncated
            },
        },
{
    read_le(data, 8)
}

/// The count of extra bytes that follow the first byte of a dyn-uint64:
/// the number of leading one bits of the first byte.
pub open spec fn dyn64_len(b0: u8) -> nat {
    if b0 & 0x80 == 0 {
        0
    } else if b0 & 0x40 == 0 {
        1
    } else if b0 & 0x20 == 0 {
        2
    } else if b0 & 0x10 == 0 {
        3
    } else if b0 & 0x08 == 0 {
        4
    } else if b0 & 0x04 == 0 {
        5
    } else if b0 & 0x02 == 0 {
        6
    } else if b0 & 0x01 == 0 {
        7
    } else {
        8
    }
}

/// The bits of the first byte below its first clear bit; they form the
/// most significant part of the value.
pub open spec fn dyn64_low(b0: u8) -> u8 {
    if b0 & 0x80 == 0 {
        b0 & 0x7f
    } else if b0 & 0x40 == 0 {
        b0 & 0x3f
    } else if b0 & 0x20 == 0 {
        b0 & 0x1f
    } else if b0 & 0x10 == 0 {
        b0 & 0x0f
    } else if b0 & 0x08 == 0 {
        b0 & 0x07
    } else if b0 & 0x04 == 0 {
        b0 & 0x03
    } else if b0 & 0x02 == 0 {
        b0 & 0x01
    } else {
        0
    }
}

/// The value a dyn-uint64 at the start of `s` denotes: the extra bytes
/// little-endian, with the low bits of the first byte above them.
pub open spec fn dyn64_value(s: Seq<u8>) -> nat {
    le_bytes(s.subrange(1, 1 + dyn64_len(s[0]) as int)) + (dyn64_low(s[0]) as nat) * pow256(
        dyn64_len(s[0]),
    )
}

/// Every mask of `dyn64_low` keeps the result under the mask's bound.
proof fn lemma_dyn64_low_bounds(x: u8)
    by (bit_vector)
    ensures
        x & 0x7f < 0x80,
        x & 0x3f < 0x40,
        x & 0x1f < 0x20,
        x & 0x0f < 0x10,
        x & 0x07 < 0x08,
        x & 0x03 < 0x04,
        x & 0x01 < 0x02,
{
}

/// Multiplication respects `<=` in both factors.
proof fn lemma_mul_le_le(a: nat, b: nat, p: nat, q: nat)
    by (nonlinear_arith)
    requires
        a <= b,
        p <= q,
    ensures
        a * p <= b * q,
{
}

/// One little-endian accumulation step stays under the next power.
proof fn lemma_le_acc_step(v: nat, b: u8, i: nat)
    requires
        v < pow256(i),
    ensures
        v + (b as nat) * pow256(i) < pow256(i + 1),
{
    lemma_mul_le_le(b as nat, 255, pow256(i), pow256(i));
    assert(pow256(i + 1) == 256 * pow256(i));
}

/// Appending a byte to a little-endian sequence adds it at the top.
proof fn lemma_le_bytes_snoc(s: Seq<u8>, b: u8)
    ensures
        le_bytes(s.push(b)) == le_bytes(s) + (b as nat) * pow256(s.len()),
    decreases s.len(),
{
    if s.len() == 0 {
        assert(s.push(b)[0] == b);
        assert(s.push(b).subrange(1, 1) =~= Seq::<u8>::empty());
        assert(le_bytes(Seq::<u8>::empty()) == 0);
        assert(le_bytes(s.push(b)) == b as nat);
        assert(le_bytes(s) == 0);
        assert(pow256(s.len()) == 1);
        assert((b as nat) * pow256(s.len()) == b as nat) by {
            vstd::arithmetic::mul::lemma_mul_basics(b as int);
        }
    } else {
        let t = s.subrange(1, s.len() as int);
        assert(s.push(b)[0] == s[0]);
        assert(s.push(b).subrange(1, s.push(b).len() as int) =~= t.push(b));
        lemma_le_bytes_snoc(t, b);
        assert(le_bytes(s.push(b)) == (s[0] as nat) + 256 * le_bytes(t.push(b)));
        assert(le_bytes(t.push(b)) == le_bytes(t) + (b as nat) * pow256(t.len()));
        assert(le_bytes(s) == (s[0] as nat) + 256 * le_bytes(t));
        assert(256 * (le_bytes(t) + (b as nat) * pow256(t.len())) == 256 * le_bytes(t) + 256 * ((
        b as nat) * pow256(t.len())));
        assert(256 * ((b as nat) * pow256(t.len())) == (b as nat) * (256 * pow256(t.len()))) by {
            vstd::arithmetic::mul::lemma_mul_is_associative(256, b as int, pow256(t.len()) as int);
            vstd::arithmetic::mul::lemma_mul_is_commutative(256, b as int);
            vstd::arithmetic::mul::lemma_mul_is_associative(b as int, 256, pow256(t.len()) as int);
        }
        assert(pow256(s.len()) == 256 * pow256(t.len()));
        assert(pow256((s.push(b).len() - 1) as nat) == pow256(s.len()));
    }
}

/// Reads the 7z variable-length unsigned integer: one to nine bytes, the
/// first byte's leading one bits giving the count of the rest.
pub fn read_dyn_uint64(data: &mut Buffer) -> (r: Result<u64, ArchiveError>)
    ensures
        final(data).bytes() == old(data).bytes(),
        match r {
            Ok(v) => {
                let k = dyn64_len(old(data).bytes()[old(data).pos() as int]);
                &&& old(data).pos() + 1 + k <= old(data).bytes().len()
                &&& final(data).pos() == old(data).pos() + 1 + k
                &&& v == dyn64_value(
                    old(data).bytes().subrange(
                        old(data).pos() as int,
                        old(data).bytes().len() as int,
                    ),
                )
            },
            Err(e) => {
                &&& old(data).pos() >= old(data).bytes().len() || old(data).pos() + 1 + dyn64_len(
                    old(data).bytes()[old(data).pos() as int],
                ) > old(data).bytes().len()
                &&& e.kind == ErrorKind::Truncated
            },
        },
{
    let ghost whole = old(data).bytes();
    let ghost base = old(data).pos() as int;
    let first: u8 = data.read()?;
    let k: usize;
    let low: u64;
    if first & 0x80 == 0 {
        k = 0;
        low = (first & 0x7f) as u64;
    } else if first & 0x40 == 0 {
        k = 1;
        low = (first & 0x3f) as u64;
    } else if first & 0x20 == 0 {
        k = 2;
        low = (first & 0x1f) as u64;
    } else if first & 0x10 == 0 {
        k = 3;
        low = (first & 0x0f) as u64;
    } else if first & 0x08 == 0 {
        k = 4;
        low = (first & 0x07) as u64;
    } else if first & 0x04 == 0 {
        k = 5;
        low = (first & 0x03) as u64;
    } else if first & 0x02 == 0 {
        k = 6;
        low = (first & 0x01) as u64;
    } else if first & 0x01 == 0 {
        k = 7;
        low = 0;
    } else {
        k = 8;
        low = 0;
    }
    proof {
        lemma_dyn64_low_bounds(first);
        assert(k == dyn64_len(first));
        assert(low == dyn64_low(first));
    }
    let mut value: u64 = 0;
    let mut factor: u64 = 1;
    let mut i: usize = 0;
    proof {
        lemma_pow256_le(0, 7);
    }
    while i < k
        invariant
            i <= k,
            k <= 8,
            k == dyn64_len(first),
            low == dyn64_low(first),
            low < 0x80,
            data.bytes() == whole,
            base == old(data).pos(),
            whole == old(data).bytes(),
            base + 1 <= whole.len(),
            base + 1 + i <= whole.len(),
            first == whole[base],
            data.pos() == base + 1 + i,
            value == le_bytes(whole.subrange(base + 1, base + 1 + i)),
            factor == pow256(
                (if i < k {
                    i as int
                } else if k > 0 {
                    k - 1
                } else {
                    0
                }) as nat,
            ),
            factor <= pow256(7),
        decreases k - i,
    {
        proof {
            lemma_le_bytes_bound(whole.subrange(base + 1, base + 1 + i));
            assert(pow256(8) == 0x1_0000_0000_0000_0000 && pow256(7) == 0x100_0000_0000_0000) by {
                reveal_with_fuel(pow256, 9);
            }
            lemma_pow256_le(i as nat, 7);
        }
        let b = data.read()?;
        proof {
            lemma_le_acc_step(value as nat, b, i as nat);
            lemma_pow256_le((i + 1) as nat, 8);
            lemma_mul_le_le(b as nat, 255, pow256(i as nat), pow256(7));
            lemma_le_bytes_snoc(whole.subrange(base + 1, base + 1 + i), b);
            assert(whole.subrange(base + 1, base + 1 + i).push(b) =~= whole.subrange(
                base + 1,
                base + 2 + i,
            ));
        }
        value = value + (b as u64) * factor;
        if i + 1 < k {
            proof {
                lemma_pow256_le((i + 1) as nat, 7);
            }
            factor = factor * 256;
        }
        i = i + 1;
        proof {
            if i < k {
                assert(factor == pow256(i as nat));
            }
        }
    }
    let ghost s = whole.subrange(base, whole.len() as int);
    proof {
        assert(s[0] == first);
        assert(s.subrange(1, 1 + k as int) =~= whole.subrange(base + 1, base + 1 + k));
        lemma_le_bytes_bound(whole.subrange(base + 1, base + 1 + k));
        assert(pow256(8) == 0x1_0000_0000_0000_0000 && pow256(7) == 0x100_0000_0000_0000) by {
            reveal_with_fuel(pow256, 9);
        }
        if k < 8 {
            lemma_pow256_le(k as nat, 7);
        }
        if k > 0 && k < 8 {
            lemma_mul_le_le(low as nat, 0x7f, pow256(k as nat), pow256(7));
        }
    }
    if k == 0 {
        proof {
            assert(whole.subrange(base + 1, base + 1) =~= Seq::<u8>::empty());
            assert(le_bytes(Seq::<u8>::empty()) == 0);
            assert((low as nat) * pow256(0) == low as nat) by {
                vstd::arithmetic::mul::lemma_mul_basics(low as int);
            }
        }
        Ok(low)
    } else if k == 8 {
        proof {
            assert((dyn64_low(first) as nat) * pow256(8) == 0) by {
                vstd::arithmetic::mul::lemma_mul_by_zero_is_zero(pow256(8) as int);
            }
        }
        Ok(value)
    } else {
        proof {
            lemma_pow256_le((k - 1) as nat, 6);
            assert(pow256(7) == 0x100_0000_0000_0000 && pow256(6) == 0x1_0000_0000_0000) by {
                reveal_with_fuel(pow256, 9);
            }
            lemma_mul_le_le(low as nat, 0x7f, pow256(k as nat), pow256(7));
        }
        let p: u64 = factor * 256;
        Ok(value + low * p)
    }
}

/// Reads the 7z variable-length unsigned integer; the same reader under
/// the name the stream-oriented call sites use.
pub fn read_dyn_uint64_new(data: &mut Buffer) -> (r: Result<u64, ArchiveError>)
    ensures
        final(data).bytes() == old(data).bytes(),
        match r {
            Ok(v) => {
                let k = dyn64_len(old(data).bytes()[old(data).pos() as int]);
                &&& old(data).pos() + 1 + k <= old(data).bytes().len()
                &&& final(data).pos() == old(data).pos() + 1 + k
                &&& v == dyn64_value(
                    old(data).bytes().subrange(
                        old(data).pos() as int,
                        old(data).bytes().len() as int,
                    ),
                )
            },
            Err(e) => {
                &&& old(data).pos() >= old(data).bytes().len() || old(data).pos() + 1 + dyn64_len(
                    old(data).bytes()[old(data).pos() as int],
                ) > old(data).bytes().len()
                &&& e.kind == ErrorKind::Truncated
            },
        },
{
    read_dyn_uint64(data)
}

/// The value and end position of the variable-length integer at `p`, or
/// `None` when its bytes leave the buffer: the byte-level description of
/// one `read_dyn_uint64` step.
pub open spec fn dyn64_at(s: Seq<u8>, p: int) -> Option<(u64, int)> {
    if 0 <= p < s.len() && p + 1 + dyn64_len(s[p]) <= s.len() {
        Some(
            (
                dyn64_value(s.subrange(p, s.len() as int)) as u64,
                p + 1 + dyn64_len(s[p]) as int,
            ),
        )
    } else {
        None
    }
}

/// The value and end position of the four-byte little-endian integer at
/// `p`.
pub open spec fn u32_at(s: Seq<u8>, p: int) -> Option<(u32, int)> {
    if 0 <= p && p + 4 <= s.len() {
        Some((le_bytes(s.subrange(p, p + 4)) as u32, p + 4))
    } else {
        None
    }
}

/// The defined-set and end position of an "all defined" block at `p`: a
/// flag byte, and the packed booleans only when the flag is zero; `None`
/// when the bytes leave the buffer or the count cannot be indexed.
pub open spec fn all_or_bits_at(s: Seq<u8>, p: int, n: int) -> Option<(Set<int>, int)> {
    if !(0 <= p < s.len()) {
        None
    } else if s[p] != 0 {
        if n <= usize::MAX {
            Some((Set::new(|j: int| 0 <= j < n), p + 1))
        } else {
            None
        }
    } else {
        if n <= usize::MAX && p + 1 + (n + 7) / 8 <= s.len() {
            Some((bits_set(s, p + 1, n), p + 1 + (n + 7) / 8))
        } else {
            None
        }
    }
}

/// A run of `n` variable-length integers starting at `p`: their values
/// and the end position, or `None` when any of them fails.
pub open spec fn dyn64_seq_at(s: Seq<u8>, p: int, n: int) -> Option<(Seq<u64>, int)>
    decreases n,
{
    if n <= 0 {
        Some((Seq::empty(), p))
    } else {
        match dyn64_at(s, p) {
            Some((v, p2)) => match dyn64_seq_at(s, p2, n - 1) {
                Some((rest, p3)) => Some((seq![v] + rest, p3)),
                None => None,
            },
            None => None,
        }
    }
}

/// A run of `n` four-byte little-endian integers starting at `p`.
pub open spec fn u32_seq_at(s: Seq<u8>, p: int, n: int) -> Option<(Seq<u32>, int)>
    decreases n,
{
    if n <= 0 {
        Some((Seq::empty(), p))
    } else {
        match u32_at(s, p) {
            Some((v, p2)) => match u32_seq_at(s, p2, n - 1) {
                Some((rest, p3)) => Some((seq![v] + rest, p3)),
                None => None,
            },
            None => None,
        }
    }
}

/// Splitting a run of variable-length integers: the first `a` and then
/// another `b` compose to a run of `a + b`, and a failure in either part
/// fails the whole.
pub proof fn lemma_dyn64_seq_at_split(s: Seq<u8>, p: int, a: int, b: int)
    requires
        0 <= a,
        0 <= b,
    ensures
        match dyn64_seq_at(s, p, a) {
            Some((v, q)) => match dyn64_seq_at(s, q, b) {
                Some((w, r)) => dyn64_seq_at(s, p, a + b) == Some::<(Seq<u64>, int)>((v + w, r)),
                None => dyn64_seq_at(s, p, a + b) is None,
            },
            None => dyn64_seq_at(s, p, a + b) is None,
        },
    decreases a,
{
    if a == 0 {
        match dyn64_seq_at(s, p, b) {
            Some((w, r)) => {
                assert(Seq::<u64>::empty() + w =~= w);
            },
            None => {},
        }
    } else {
        match dyn64_at(s, p) {
            Some((v0, p2)) => {
                lemma_dyn64_seq_at_split(s, p2, a - 1, b);
                match dyn64_seq_at(s, p2, a - 1) {
                    Some((v1, q)) => {
                        match dyn64_seq_at(s, q, b) {
                            Some((w, r)) => {
                                assert((seq![v0] + v1) + w =~= seq![v0] + (v1 + w));
                            },
                            None => {},
                        }
                    },
                    None => {},
                }
            },
            None => {},
        }
    }
}

/// Splitting a run of four-byte integers, as for the variable-length run.
pub proof fn lemma_u32_seq_at_split(s: Seq<u8>, p: int, a: int, b: int)
    requires
        0 <= a,
        0 <= b,
    ensures
        match u32_seq_at(s, p, a) {
            Some((v, q)) => match u32_seq_at(s, q, b) {
                Some((w, r)) => u32_seq_at(s, p, a + b) == Some::<(Seq<u32>, int)>((v + w, r)),
                None => u32_seq_at(s, p, a + b) is None,
            },
            None => u32_seq_at(s, p, a + b) is None,
        },
    decreases a,
{
    if a == 0 {
        match u32_seq_at(s, p, b) {
            Some((w, r)) => {
                assert(Seq::<u32>::empty() + w =~= w);
            },
            None => {},
        }
    } else {
        match u32_at(s, p) {
            Some((v0, p2)) => {
                lemma_u32_seq_at_split(s, p2, a - 1, b);
                match u32_seq_at(s, p2, a - 1) {
                    Some((v1, q)) => {
                        match u32_seq_at(s, q, b) {
                            Some((w, r)) => {
                                assert((seq![v0] + v1) + w =~= seq![v0] + (v1 + w));
                            },
                            None => {},
                        }
                    },
                    None => {},
                }
            },
            None => {},
        }
    }
}

/// The count of extra bytes the encoding of `n` uses: the least count
/// whose capacity holds `n`.
pub open spec fn dyn64_encode_len(n: u64) -> nat {
    if n < 0x80 {
        0
    } else if n < 0x4000 {
        1
    } else if n < 0x20_0000 {
        2
    } else if n < 0x1000_0000 {
        3
    } else if n < 0x8_0000_0000 {
        4
    } else if n < 0x400_0000_0000 {
        5
    } else if n < 0x2_0000_0000_0000 {
        6
    } else if n < 0x100_0000_0000_0000 {
        7
    } else {
        8
    }
}

/// The first-byte prefix that announces `k` extra bytes: `k` leading ones.
pub open spec fn dyn64_prefix(k: nat) -> u8 {
    if k == 0 {
        0x00
    } else if k == 1 {
        0x80
    } else if k == 2 {
        0xc0
    } else if k == 3 {
        0xe0
    } else if k == 4 {
        0xf0
    } else if k == 5 {
        0xf8
    } else if k == 6 {
        0xfc
    } else if k == 7 {
        0xfe
    } else {
        0xff
    }
}

/// `count` bytes holding `n % 256^count`, little-endian.
pub open spec fn le_encode(n: nat, count: nat) -> Seq<u8>
    decreases count,
{
    if count == 0 {
        Seq::empty()
    } else {
        seq![(n % 256) as u8] + le_encode(n / 256, (count - 1) as nat)
    }
}

/// The encoding of `n`: length prefix and high bits in the first byte,
/// then the low bytes little-endian.
pub open spec fn dyn64_encode(n: u64) -> Seq<u8> {
    let k = dyn64_encode_len(n);
    seq![(dyn64_prefix(k) + (n as nat) / pow256(k)) as u8] + le_encode(n as nat, k)
}

/// A quotient is below anything whose product bounds the dividend.
proof fn lemma_div_lt(x: nat, d: nat, b: nat)
    by (nonlinear_arith)
    requires
        d > 0,
        x < d * b,
    ensures
        x / d < b,
{
}

/// `le_encode` produces `count` bytes that read back as `n % 256^count`.
proof fn lemma_le_encode_value(x: nat, count: nat)
    ensures
        le_encode(x, count).len() == count,
        le_bytes(le_encode(x, count)) == x % pow256(count),
    decreases count,
{
    if count == 0 {
        assert(x % 1 == 0) by {
            vstd::arithmetic::div_mod::lemma_fundamental_div_mod(x as int, 1);
            vstd::arithmetic::div_mod::lemma_div_basics(x as int);
        }
    } else {
        let rest = le_encode(x / 256, (count - 1) as nat);
        lemma_le_encode_value(x / 256, (count - 1) as nat);
        let s = le_encode(x, count);
        assert(s[0] == (x % 256) as u8);
        assert(s.subrange(1, s.len() as int) =~= rest);
        assert(x % 256 < 256) by {
            vstd::arithmetic::div_mod::lemma_mod_bound(x as int, 256);
        }
        assert(le_bytes(s) == (x % 256) + 256 * ((x / 256) % pow256((count - 1) as nat)));
        assert(x % (256 * pow256((count - 1) as nat)) == 256 * ((x / 256) % pow256(
            (count - 1) as nat,
        )) + x % 256) by {
            lemma_pow256_pos((count - 1) as nat);
            vstd::arithmetic::div_mod::lemma_breakdown(
                x as int,
                256,
                pow256((count - 1) as nat) as int,
            );
        }
        assert(pow256(count) == 256 * pow256((count - 1) as nat));
    }
}

/// Powers of 256 are positive.
proof fn lemma_pow256_pos(n: nat)
    ensures
        pow256(n) >= 1,
{
    lemma_pow256_le(0, n);
}

/// Writes the encoding of `n` in the 7z variable-length format.
pub fn encode_dyn_uint64(n: u64) -> (v: Vec<u8>)
    ensures
        v@ == dyn64_encode(n),
{
    proof {
        assert(pow256(0) == 1 && pow256(1) == 0x100 && pow256(2) == 0x1_0000 && pow256(3)
            == 0x100_0000 && pow256(4) == 0x1_0000_0000 && pow256(5) == 0x100_0000_0000 && pow256(6)
            == 0x1_0000_0000_0000 && pow256(7) == 0x100_0000_0000_0000) by {
            reveal_with_fuel(pow256, 9);
        }
    }
    let k: usize;
    let first: u8;
    if n < 0x80 {
        k = 0;
        first = n as u8;
        proof {
            vstd::arithmetic::div_mod::lemma_div_basics(n as int);
        }
    } else if n < 0x4000 {
        k = 1;
        first = 0x80 + (n / 0x100) as u8;
        proof {
            lemma_div_lt(n as nat, 0x100, 0x40);
        }
    } else if n < 0x20_0000 {
        k = 2;
        first = 0xc0 + (n / 0x1_0000) as u8;
        proof {
            lemma_div_lt(n as nat, 0x1_0000, 0x20);
        }
    } else if n < 0x1000_0000 {
        k = 3;
        first = 0xe0 + (n / 0x100_0000) as u8;
        proof {
            lemma_div_lt(n as nat, 0x100_0000, 0x10);
        }
    } else if n < 0x8_0000_0000 {
        k = 4;
        first = 0xf0 + (n / 0x1_0000_0000) as u8;
        proof {
            lemma_div_lt(n as nat, 0x1_0000_0000, 0x08);
        }
    } else if n < 0x400_0000_0000 {
        k = 5;
        first = 0xf8 + (n / 0x100_0000_0000) as u8;
        proof {
            lemma_div_lt(n as nat, 0x100_0000_0000, 0x04);
        }
    } else if n < 0x2_0000_0000_0000 {
        k = 6;
        first = 0xfc + (n / 0x1_0000_0000_0000) as u8;
        proof {
            lemma_div_lt(n as nat, 0x1_0000_0000_0000, 0x02);
        }
    } else if n < 0x100_0000_0000_0000 {
        k = 7;
        first = 0xfe + (n / 0x100_0000_0000_0000) as u8;
        proof {
            vstd::arithmetic::div_mod::lemma_basic_div(n as int, 0x100_0000_0000_0000);
        }
    } else {
        k = 8;
        first = 0xff;
        proof {
            assert(pow256(8) == 0x1_0000_0000_0000_0000) by {
                reveal_with_fuel(pow256, 9);
            }
            vstd::arithmetic::div_mod::lemma_basic_div(n as int, pow256(8) as int);
        }
    }
    let mut v: Vec<u8> = Vec::new();
    v.push(first);
    let mut rest: u64 = n;
    let mut i: usize = 0;
    proof {
        assert(v@ =~= seq![first] + le_encode(n as nat, 0));
    }
    while i < k
        invariant
            i <= k,
            k <= 8,
            v@ == seq![first] + le_encode(n as nat, i as nat),
            rest as nat == (n as nat) / pow256(i as nat),
        decreases k - i,
    {
        proof {
            lemma_le_encode_snoc(n as nat, i as nat);
            lemma_le_encode_value(n as nat, i as nat);
            assert((rest % 256) as nat == ((n as nat) / pow256(i as nat)) % 256);
            lemma_pow256_pos(i as nat);
            vstd::arithmetic::div_mod::lemma_div_denominator(n as int, pow256(i as nat) as int, 256);
            assert(pow256((i + 1) as nat) == 256 * pow256(i as nat));
            vstd::arithmetic::mul::lemma_mul_is_commutative(pow256(i as nat) as int, 256);
        }
        v.push((rest % 256) as u8);
        rest = rest / 256;
        i = i + 1;
        proof {
            assert(v@ =~= seq![first] + le_encode(n as nat, i as nat));
        }
    }
    proof {
        assert(v@ =~= seq![first] + le_encode(n as nat, k as nat));
    }
    v
}

/// Appending one more byte to a little-endian encoding.
proof fn lemma_le_encode_snoc(n: nat, i: nat)
    ensures
        le_encode(n, i + 1) == le_encode(n, i).push(((n / pow256(i)) % 256) as u8),
    decreases i,
{
    if i == 0 {
        assert(n / pow256(0) == n) by {
            vstd::arithmetic::div_mod::lemma_div_basics(n as int);
        }
        assert(le_encode(n / 256, 0) == Seq::<u8>::empty());
        assert(le_encode(n, 1) =~= le_encode(n, 0).push(((n / pow256(0)) % 256) as u8));
    } else {
        lemma_le_encode_snoc(n / 256, (i - 1) as nat);
        lemma_pow256_pos((i - 1) as nat);
        assert((n / 256) / pow256((i - 1) as nat) == n / pow256(i)) by {
            vstd::arithmetic::div_mod::lemma_div_denominator(
                n as int,
                256,
                pow256((i - 1) as nat) as int,
            );
            assert(256 * pow256((i - 1) as nat) == pow256(i));
        }
        assert(le_encode(n, i + 1) =~= le_encode(n, i).push(((n / pow256(i)) % 256) as u8));
    }
}

/// Converts a count read from the metadata to a `usize`, rejecting what
/// this machine cannot index.
pub(crate) fn to_usize(n: u64) -> (r: Result<usize, ArchiveError>)
    ensures
        match r {
            Ok(v) => v == n,
            Err(e) => n > usize::MAX && e.kind == ErrorKind::Truncated,
        },
{
    if n <= usize::MAX as u64 {
        Ok(n as usize)
    } else {
        Err(ArchiveError::new(ErrorKind::Truncated))
    }
}

/// Copies `count` bytes of `v` starting at `start`; fails with
/// `Truncated` when the range leaves the vector.
pub(crate) fn copy_range(v: &Vec<u8>, start: usize, count: usize) -> (r: Result<
    Vec<u8>,
    ArchiveError,
>)
    ensures
        match r {
            Ok(out) => {
                &&& start + count <= v@.len()
                &&& out@ == v@.subrange(start as int, start as int + count as int)
            },
            Err(e) => start + count > v@.len() && e.kind == ErrorKind::Truncated,
        },
{
    let vlen: usize = v.len();
    if start > vlen || count > vlen - start {
        return Err(ArchiveError::new(ErrorKind::Truncated));
    }
    let mut out: Vec<u8> = Vec::new();
    let mut i: usize = 0;
    while i < count
        invariant
            i <= count,
            start + count <= vlen,
            vlen == v@.len(),
            out@ == v@.subrange(start as int, start as int + i as int),
        decreases count - i,
    {
        out.push(v[start + i]);
        proof {
            assert(out@ =~= v@.subrange(start as int, start as int + i as int + 1));
        }
        i = i + 1;
    }
    Ok(out)
}

/// Bit `i` of the bit vector that starts at byte `start`: bits are packed
/// most-significant-bit first within each byte.
pub open spec fn bit_at(bytes: Seq<u8>, start: int, i: int) -> bool {
    (bytes[start + i / 8] >> ((7 - i % 8) as u8)) & 1 == 1
}

/// The indices below `n` whose bit is set in the vector at `start`.
pub open spec fn bits_set(bytes: Seq<u8>, start: int, n: int) -> Set<int> {
    Set::new(|j: int| 0 <= j < n && bit_at(bytes, start, j))
}

/// How the running mask of the bit reader relates to the tested bit.
proof fn lemma_bit_mask(cache: u8, j: u8)
    by (bit_vector)
    requires
        j < 8,
    ensures
        (cache & (0x80u8 >> j) != 0) == ((cache >> ((7 - j) as u8)) & 1 == 1),
        0x80u8 >> j != 0,
        0x80u8 >> 0u8 == 0x80u8,
        j < 7 ==> (0x80u8 >> j) >> 1 == 0x80u8 >> ((j + 1) as u8),
        (0x80u8 >> 7) >> 1 == 0,
{
}

/// Reads `size` booleans, packed eight to a byte, most significant bit
/// first; consumes exactly the bytes that hold them.
pub fn read_bits(data: &mut Buffer, size: u64) -> (r: Result<IndexSet, ArchiveError>)
    ensures
        final(data).bytes() == old(data).bytes(),
        match r {
            Ok(s) => {
                &&& size <= usize::MAX
                &&& size > 0 ==> old(data).pos() + ((size as int) + 7) / 8 <= old(
                    data,
                ).bytes().len()
                &&& final(data).pos() == old(data).pos() + ((size as int) + 7) / 8
                &&& index_set_elems(s) == bits_set(
                    old(data).bytes(),
                    old(data).pos() as int,
                    size as int,
                )
                &&& index_set_elems(s).finite()
            },
            Err(e) => {
                &&& size > usize::MAX || old(data).pos() + ((size as int) + 7) / 8 > old(
                    data,
                ).bytes().len()
                &&& e.kind == ErrorKind::Truncated
            },
        },
{
    if size > usize::MAX as u64 {
        return Err(ArchiveError::new(ErrorKind::Truncated));
    }
    let n: usize = size as usize;
    let ghost whole = old(data).bytes();
    let ghost base = old(data).pos() as int;
    let mut result = IndexSet::with_capacity(n);
    let mut mask: u8 = 0;
    let mut cache: u8 = 0;
    let mut i: usize = 0;
    while i < n
        invariant
            i <= n,
            n == size,
            size <= usize::MAX,
            data.bytes() == whole,
            whole == old(data).bytes(),
            base == old(data).pos(),
            data.pos() == base + (i as int + 7) / 8,
            i > 0 ==> base + (i as int + 7) / 8 <= whole.len(),
            mask == (if i % 8 == 0 {
                0u8
            } else {
                0x80u8 >> ((i % 8) as u8)
            }),
            i % 8 != 0 ==> cache == whole[base + i as int / 8],
            index_set_elems(result) == bits_set(whole, base, i as int),
            index_set_elems(result).finite(),
        decreases n - i,
    {
        proof {
            lemma_bit_mask(cache, (i % 8) as u8);
        }
        if mask == 0 {
            mask = 0x80;
            cache = data.read()?;
        }
        proof {
            assert(cache == whole[base + i as int / 8]);
            assert(mask == 0x80u8 >> ((i % 8) as u8));
            lemma_bit_mask(cache, (i % 8) as u8);
        }
        if cache & mask != 0 {
            result.insert(i);
            proof {
                assert(bit_at(whole, base, i as int));
                assert(index_set_elems(result) =~= bits_set(whole, base, i as int + 1));
            }
        } else {
            proof {
                assert(!bit_at(whole, base, i as int));
                assert(index_set_elems(result) =~= bits_set(whole, base, i as int + 1));
            }
        }
        mask = mask >> 1;
        i = i + 1;
    }
    Ok(result)
}

/// Reads `size` packed booleans; the same reader under the name the
/// stream-oriented call sites use.
pub fn read_bits_new(data: &mut Buffer, size: usize) -> (r: Result<IndexSet, ArchiveError>)
    ensures
        final(data).bytes() == old(data).bytes(),
        match r {
            Ok(s) => {
                &&& size > 0 ==> old(data).pos() + ((size as int) + 7) / 8 <= old(
                    data,
                ).bytes().len()
                &&& final(data).pos() == old(data).pos() + ((size as int) + 7) / 8
                &&& index_set_elems(s) == bits_set(
                    old(data).bytes(),
                    old(data).pos() as int,
                    size as int,
                )
                &&& index_set_elems(s).finite()
            },
            Err(e) => {
                &&& old(data).pos() + ((size as int) + 7) / 8 > old(data).bytes().len()
                &&& e.kind == ErrorKind::Truncated
            },
        },
{
    read_bits(data, size as u64)
}

/// Reads an "all defined" flag byte; a non-zero flag marks every index,
/// a zero flag delegates to `read_bits`.
pub fn read_all_or_bits(data: &mut Buffer, size: u64) -> (r: Result<IndexSet, ArchiveError>)
    ensures
        final(data).bytes() == old(data).bytes(),
        match r {
            Ok(s) => {
                &&& old(data).pos() < old(data).bytes().len()
                &&& index_set_elems(s).finite()
                &&& (if old(data).bytes()[old(data).pos() as int] != 0 {
                    &&& size <= usize::MAX
                    &&& final(data).pos() == old(data).pos() + 1
                    &&& index_set_elems(s) == Set::new(|j: int| 0 <= j < size)
                } else {
                    &&& size <= usize::MAX
                    &&& size > 0 ==> old(data).pos() + 1 + ((size as int) + 7) / 8 <= old(
                        data,
                    ).bytes().len()
                    &&& final(data).pos() == old(data).pos() + 1 + ((size as int) + 7) / 8
                    &&& index_set_elems(s) == bits_set(
                        old(data).bytes(),
                        old(data).pos() as int + 1,
                        size as int,
                    )
                })
            },
            Err(e) => {
                &&& e.kind == ErrorKind::Truncated
                &&& old(data).pos() >= old(data).bytes().len() || (old(data).bytes()[old(
                    data,
                ).pos() as int] != 0 && size > usize::MAX) || (old(data).bytes()[old(
                    data,
                ).pos() as int] == 0 && (size > usize::MAX || old(data).pos() + 1 + ((size as int)
                    + 7) / 8 > old(data).bytes().len()))
            },
        },
{
    let all_defined = data.read()?;
    if all_defined != 0 {
        if size > usize::MAX as u64 {
            return Err(ArchiveError::new(ErrorKind::Truncated));
        }
        let n: usize = size as usize;
        let mut result = IndexSet::with_capacity(n);
        let mut i: usize = 0;
        while i < n
            invariant
                i <= n,
                n == size,
                data.bytes() == old(data).bytes(),
                data.pos() == old(data).pos() + 1,
                old(data).pos() < old(data).bytes().len(),
                index_set_elems(result) == Set::new(|j: int| 0 <= j < i),
                index_set_elems(result).finite(),
            decreases n - i,
        {
            result.insert(i);
            proof {
                assert(index_set_elems(result) =~= Set::new(|j: int| 0 <= j < i + 1));
            }
            i = i + 1;
        }
        proof {
            assert(index_set_elems(result) =~= Set::new(|j: int| 0 <= j < size));
        }
        Ok(result)
    } else {
        read_bits(data, size)
    }
}

/// Reads an "all defined" flag byte and then the packed booleans; the
/// same reader under the name the stream-oriented call sites use.
pub fn read_all_or_bits_new(data: &mut Buffer, size: usize) -> (r: Result<IndexSet, ArchiveError>)
    ensures
        final(data).bytes() == old(data).bytes(),
        match r {
            Ok(s) => {
                &&& old(data).pos() < old(data).bytes().len()
                &&& index_set_elems(s).finite()
                &&& (if old(data).bytes()[old(data).pos() as int] != 0 {
                    &&& final(data).pos() == old(data).pos() + 1
                    &&& index_set_elems(s) == Set::new(|j: int| 0 <= j < size)
                } else {
                    &&& size > 0 ==> old(data).pos() + 1 + ((size as int) + 7) / 8 <= old(
                        data,
                    ).bytes().len()
                    &&& final(data).pos() == old(data).pos() + 1 + ((size as int) + 7) / 8
                    &&& index_set_elems(s) == bits_set(
                        old(data).bytes(),
                        old(data).pos() as int + 1,
                        size as int,
                    )
                })
            },
            Err(e) => {
                &&& e.kind == ErrorKind::Truncated
                &&& old(data).pos() >= old(data).bytes().len() || (old(data).bytes()[old(
                    data,
                ).pos() as int] == 0 && old(data).pos() + 1 + ((size as int) + 7) / 8 > old(
                    data,
                ).bytes().len())
            },
        },
{
    read_all_or_bits(data, size as u64)
}


/// Law: two packed-boolean reads in sequence consume exactly the bytes
/// that hold their bits: the first `(k + 7) / 8` bytes, then another
/// `(k2 + 7) / 8`, with the cursor moving from `p0` to `p2` as the
/// contracts of `read_bits` fix it.
pub proof fn lemma_read_bits_bytes(p0: nat, p1: nat, p2: nat, k: nat, k2: nat)
    requires
        p1 == p0 + (k + 7) / 8,
        p2 == p1 + (k2 + 7) / 8,
    ensures
        p2 == p0 + (k + 7) / 8 + (k2 + 7) / 8,
{
}

/// Law: decoding the encoding of any value yields the value back, and the
/// encoding's first byte announces exactly the encoding's extra bytes.
pub proof fn lemma_dyn_uint64_round_trip(n: u64)
    ensures
        dyn64_value(dyn64_encode(n)) == n,
        dyn64_encode(n).len() == 1 + dyn64_len(dyn64_encode(n)[0]),
        dyn64_encode_len(n) == dyn64_len(dyn64_encode(n)[0]),
{
    assert(pow256(0) == 1 && pow256(1) == 0x100 && pow256(2) == 0x1_0000 && pow256(3) == 0x100_0000
        && pow256(4) == 0x1_0000_0000 && pow256(5) == 0x100_0000_0000 && pow256(6)
        == 0x1_0000_0000_0000 && pow256(7) == 0x100_0000_0000_0000 && pow256(8)
        == 0x1_0000_0000_0000_0000) by {
        reveal_with_fuel(pow256, 9);
    }
    let k = dyn64_encode_len(n);
    let h = (n as nat) / pow256(k);
    let b0 = (dyn64_prefix(k) + h) as u8;
    let enc = dyn64_encode(n);
    lemma_le_encode_value(n as nat, k);
    assert(enc[0] == b0);
    assert(enc.subrange(1, enc.len() as int) =~= le_encode(n as nat, k));
    if k == 0 {
        lemma_div_lt(n as nat, 1, 0x80);
        let hh = h as u8;
        assert(b0 == hh && hh < 0x80);
        assert(hh & 0x80 == 0 && hh & 0x7f == hh) by (bit_vector)
            requires
                hh < 0x80,
        ;
        assert(dyn64_len(b0) == 0 && dyn64_low(b0) == h);
    } else if k == 1 {
        lemma_div_lt(n as nat, 0x100, 0x40);
        let hh = h as u8;
        assert(b0 == 0x80 + hh && hh < 0x40);
        assert((0x80 + hh) as u8 & 0x80 != 0 && (0x80 + hh) as u8 & 0x40 == 0 && (0x80 + hh) as u8
            & 0x3f == hh) by (bit_vector)
            requires
                hh < 0x40,
        ;
        assert(dyn64_len(b0) == 1 && dyn64_low(b0) == h);
    } else if k == 2 {
        lemma_div_lt(n as nat, 0x1_0000, 0x20);
        let hh = h as u8;
        assert(b0 == 0xc0 + hh && hh < 0x20);
        assert((0xc0 + hh) as u8 & 0x80 != 0 && (0xc0 + hh) as u8 & 0x40 != 0 && (0xc0 + hh) as u8
            & 0x20 == 0 && (0xc0 + hh) as u8 & 0x1f == hh) by (bit_vector)
            requires
                hh < 0x20,
        ;
        assert(dyn64_len(b0) == 2 && dyn64_low(b0) == h);
    } else if k == 3 {
        lemma_div_lt(n as nat, 0x100_0000, 0x10);
        let hh = h as u8;
        assert(b0 == 0xe0 + hh && hh < 0x10);
        assert((0xe0 + hh) as u8 & 0x80 != 0 && (0xe0 + hh) as u8 & 0x40 != 0 && (0xe0 + hh) as u8
            & 0x20 != 0 && (0xe0 + hh) as u8 & 0x10 == 0 && (0xe0 + hh) as u8 & 0x0f == hh)
            by (bit_vector)
            requires
                hh < 0x10,
        ;
        assert(dyn64_len(b0) == 3 && dyn64_low(b0) == h);
    } else if k == 4 {
        lemma_div_lt(n as nat, 0x1_0000_0000, 0x08);
        let hh = h as u8;
        assert(b0 == 0xf0 + hh && hh < 0x08);
        assert((0xf0 + hh) as u8 & 0x80 != 0 && (0xf0 + hh) as u8 & 0x40 != 0 && (0xf0 + hh) as u8
            & 0x20 != 0 && (0xf0 + hh) as u8 & 0x10 != 0 && (0xf0 + hh) as u8 & 0x08 == 0 && (0xf0
            + hh) as u8 & 0x07 == hh) by (bit_vector)
            requires
                hh < 0x08,
        ;
        assert(dyn64_len(b0) == 4 && dyn64_low(b0) == h);
    } else if k == 5 {
        lemma_div_lt(n as nat, 0x100_0000_0000, 0x04);
        let hh = h as u8;
        assert(b0 == 0xf8 + hh && hh < 0x04);
        assert((0xf8 + hh) as u8 & 0x80 != 0 && (0xf8 + hh) as u8 & 0x40 != 0 && (0xf8 + hh) as u8
            & 0x20 != 0 && (0xf8 + hh) as u8 & 0x10 != 0 && (0xf8 + hh) as u8 & 0x08 != 0 && (0xf8
            + hh) as u8 & 0x04 == 0 && (0xf8 + hh) as u8 & 0x03 == hh) by (bit_vector)
            requires
                hh < 0x04,
        ;
        assert(dyn64_len(b0) == 5 && dyn64_low(b0) == h);
    } else if k == 6 {
        lemma_div_lt(n as nat, 0x1_0000_0000_0000, 0x02);
        let hh = h as u8;
        assert(b0 == 0xfc + hh && hh < 0x02);
        assert((0xfc + hh) as u8 & 0x80 != 0 && (0xfc + hh) as u8 & 0x40 != 0 && (0xfc + hh) as u8
            & 0x20 != 0 && (0xfc + hh) as u8 & 0x10 != 0 && (0xfc + hh) as u8 & 0x08 != 0 && (0xfc
            + hh) as u8 & 0x04 != 0 && (0xfc + hh) as u8 & 0x02 == 0 && (0xfc + hh) as u8 & 0x01
            == hh) by (bit_vector)
            requires
                hh < 0x02,
        ;
        assert(dyn64_len(b0) == 6 && dyn64_low(b0) == h);
    } else if k == 7 {
        vstd::arithmetic::div_mod::lemma_basic_div(n as int, 0x100_0000_0000_0000);
        assert(h == 0 && b0 == 0xfe);
        assert(0xfeu8 & 0x80 != 0 && 0xfeu8 & 0x40 != 0 && 0xfeu8 & 0x20 != 0 && 0xfeu8 & 0x10 != 0
            && 0xfeu8 & 0x08 != 0 && 0xfeu8 & 0x04 != 0 && 0xfeu8 & 0x02 != 0 && 0xfeu8 & 0x01 == 0)
            by (bit_vector);
        assert(dyn64_len(b0) == 7 && dyn64_low(b0) == h);
    } else {
        assert(k == 8);
        vstd::arithmetic::div_mod::lemma_basic_div(n as int, pow256(8) as int);
        assert(h == 0 && b0 == 0xff);
        assert(0xffu8 & 0x80 != 0 && 0xffu8 & 0x40 != 0 && 0xffu8 & 0x20 != 0 && 0xffu8 & 0x10 != 0
            && 0xffu8 & 0x08 != 0 && 0xffu8 & 0x04 != 0 && 0xffu8 & 0x02 != 0 && 0xffu8 & 0x01 != 0)
            by (bit_vector);
        assert(dyn64_len(b0) == 8 && dyn64_low(b0) == 0);
    }
    assert(enc.subrange(1, 1 + dyn64_len(enc[0]) as int) =~= le_encode(n as nat, k));
    if k == 8 {
        assert((n as nat) % pow256(8) == n) by {
            vstd::arithmetic::div_mod::lemma_small_mod(n as nat, pow256(8));
        }
        assert(dyn64_value(enc) == n);
    } else {
        assert(dyn64_value(enc) == (n as nat) % pow256(k) + h * pow256(k));
        assert((n as nat) == pow256(k) * ((n as nat) / pow256(k)) + (n as nat) % pow256(k)) by {
            lemma_pow256_pos(k);
            vstd::arithmetic::div_mod::lemma_fundamental_div_mod(n as int, pow256(k) as int);
        }
        assert(h * pow256(k) == pow256(k) * h) by {
            vstd::arithmetic::mul::lemma_mul_is_commutative(h as int, pow256(k) as int);
        }
        assert(dyn64_value(enc) == n);
    }
}

} // verus!
