//! Variable-length unsigned integer codec: base-128, low seven bits per
//! byte, continuation bit set on every byte but the last.

use vstd::prelude::*;

verus! {

/// Wire form of one unsigned integer.
pub open spec fn varint_bytes(v: nat) -> Seq<u8>
    decreases v,
{
    if v < 128 {
        seq![v as u8]
    } else {
        seq![((v % 128) + 128) as u8] + varint_bytes(v / 128)
    }
}

/// 128 to the n-th power.
pub(crate) open spec fn pow128(n: nat) -> nat
    decreases n,
{
    if n == 0 {
        1
    } else {
        128 * pow128((n - 1) as nat)
    }
}

/// Parse one varint starting at `pos`: the unbounded value and the position
/// just past its last byte, or `None` if the buffer ends inside it.
pub open spec fn varint_at(bytes: Seq<u8>, pos: int) -> Option<(nat, int)>
    decreases bytes.len() - pos,
{
    if pos < 0 || pos >= bytes.len() {
        None
    } else if bytes[pos] < 128 {
        Some((bytes[pos] as nat, pos + 1))
    } else {
        match varint_at(bytes, pos + 1) {
            None => None,
            Some((v, end)) => Some(((bytes[pos] - 128) as nat + 128 * v, end)),
        }
    }
}

/// Parse one varint as a `u64`: fails where the buffer is truncated, where
/// the value does not fit in 64 bits, or where the encoding runs past ten
/// bytes (the longest a 64-bit value ever needs).
pub open spec fn parse_varint_u64(bytes: Seq<u8>, pos: int) -> Option<(u64, int)> {
    match varint_at(bytes, pos) {
        None => None,
        Some((v, end)) => if v <= u64::MAX && end - pos <= 10 {
            Some((v as u64, end))
        } else {
            None
        },
    }
}

/// A successful raw parse consumes at least one byte and stays in bounds.
proof fn lemma_varint_at_end(bytes: Seq<u8>, pos: int)
    ensures
        varint_at(bytes, pos) matches Some((v, end)) ==> pos < end <= bytes.len(),
    decreases bytes.len() - pos,
{
    if 0 <= pos < bytes.len() && bytes[pos] >= 128 {
        lemma_varint_at_end(bytes, pos + 1);
    }
}

/// The wire form of `v` sitting between any prefix and any suffix parses
/// back to `v` exactly, ending right where the suffix begins.
pub proof fn lemma_varint_at_encoding(v: nat, prefix: Seq<u8>, suffix: Seq<u8>)
    ensures
        varint_at(prefix + varint_bytes(v) + suffix, prefix.len() as int)
            == Some((v, prefix.len() + varint_bytes(v).len() as int)),
    decreases v,
{
    let bytes = prefix + varint_bytes(v) + suffix;
    let pos = prefix.len() as int;
    if v < 128 {
        assert(bytes[pos] == v as u8);
    } else {
        let first: u8 = ((v % 128) + 128) as u8;
        assert(bytes[pos] == first);
        let prefix2 = prefix.push(first);
        lemma_varint_at_encoding(v / 128, prefix2, suffix);
        assert(prefix2 + varint_bytes(v / 128) + suffix =~= bytes);
        assert(varint_at(bytes, pos + 1)
            == Some((v / 128, prefix.len() + 1 + varint_bytes(v / 128).len() as int)));
        assert((first - 128) as nat + 128 * (v / 128) == v);
    }
}

/// The wire form of a value below `pow128(n)` takes at most `n` bytes.
proof fn lemma_varint_bytes_len(v: nat, n: nat)
    requires
        n >= 1,
        v < pow128(n),
    ensures
        1 <= varint_bytes(v).len() <= n,
    decreases v,
{
    if v >= 128 {
        assert(pow128(n) == 128 * pow128((n - 1) as nat));
        assert(n >= 2) by {
            if n == 1 {
                assert(pow128(1) == 128);
            }
        }
        assert(v / 128 < pow128((n - 1) as nat)) by (nonlinear_arith)
            requires v < 128 * pow128((n - 1) as nat),
        ;
        lemma_varint_bytes_len(v / 128, (n - 1) as nat);
    }
}

/// A 64-bit value fits in ten wire bytes.
pub proof fn lemma_varint_bytes_len_u64(v: u64)
    ensures
        1 <= varint_bytes(v as nat).len() <= 10,
{
    assert(pow128(10) > u64::MAX) by {
        reveal_with_fuel(pow128, 11);
    }
    lemma_varint_bytes_len(v as nat, 10);
}

/// Append the wire form of `v` to `out`.
pub fn write_varint_u64(out: &mut Vec<u8>, v: u64)
    ensures
        final(out)@ == old(out)@ + varint_bytes(v as nat),
{
    let ghost orig = out@;
    let mut x = v;
    while x >= 128
        invariant
            orig + varint_bytes(v as nat) == out@ + varint_bytes(x as nat),
        decreases x,
    {
        out.push((x % 128 + 128) as u8);
        proof {
            assert(out@ + varint_bytes((x / 128) as nat)
                =~= orig + varint_bytes(v as nat));
        }
        x = x / 128;
    }
    out.push(x as u8);
    proof {
        assert(out@ =~= orig + varint_bytes(v as nat));
    }
}

/// Helper: a parse result shifted under an already-consumed low part.
spec fn shift_parse(r: Option<(nat, int)>, acc: nat, m: nat) -> Option<(nat, int)> {
    match r {
        None => None,
        Some((v, end)) => Some((acc + m * v, end)),
    }
}

/// Read one varint as a `u64` starting at `pos`, per `parse_varint_u64`.
pub fn read_varint_u64(bytes: &[u8], pos: usize) -> (r: Option<(u64, usize)>)
    requires
        pos <= bytes@.len(),
    ensures
        match r {
            Some((v, end)) => {
                &&& parse_varint_u64(bytes@, pos as int) == Some((v, end as int))
                &&& pos < end <= bytes@.len()
            },
            None => parse_varint_u64(bytes@, pos as int) is None,
        },
{
    let mut value: u64 = 0;
    let mut mult: u64 = 1;
    let mut i: usize = 0;
    while i < 10
        invariant
            pos <= bytes@.len(),
            i <= 10,
            pos + i <= bytes@.len(),
            i < 10 ==> mult == pow128(i as nat),
            varint_at(bytes@, pos as int)
                == shift_parse(varint_at(bytes@, pos + i), value as nat, pow128(i as nat)),
        decreases 10 - i,
    {
        if bytes.len() - pos <= i {
            return None;
        }
        let b = bytes[pos + i];
        let low: u64 = if b >= 128 { (b - 128) as u64 } else { b as u64 };
        let term = match low.checked_mul(mult) {
            Some(t) => t,
            None => {
                proof {
                    lemma_overflow_term(bytes@, pos as int, i as nat, value as nat, low as nat);
                }
                return None;
            },
        };
        let next = match value.checked_add(term) {
            Some(s) => s,
            None => {
                proof {
                    lemma_overflow_term(bytes@, pos as int, i as nat, value as nat, low as nat);
                }
                return None;
            },
        };
        if b < 128 {
            proof {
                assert(varint_at(bytes@, pos + i) == Some((b as nat, pos + i + 1)));
                assert(low * pow128(i as nat) == pow128(i as nat) * (b as nat))
                    by (nonlinear_arith)
                    requires low == b as nat,
                ;
                assert(varint_at(bytes@, pos as int)
                    == Some(((value + low * pow128(i as nat)) as nat, pos + i + 1)));
            }
            return Some((next, pos + i + 1));
        }
        proof {
            lemma_shift_compose(varint_at(bytes@, pos + i + 1), value as nat, low as nat, i as nat);
        }
        value = next;
        if i < 9 {
            proof {
                assert(pow128(9) < u64::MAX) by {
                    reveal_with_fuel(pow128, 10);
                }
                lemma_pow128_increases(i as nat + 1, 9);
            }
            mult = mult * 128;
        }
        i = i + 1;
    }
    proof {
        lemma_varint_at_end(bytes@, pos + 10);
    }
    None
}

/// Composing one continuation byte into the running accumulator.
proof fn lemma_shift_compose(r: Option<(nat, int)>, acc: nat, low: nat, i: nat)
    ensures
        shift_parse(shift_parse(r, low, 128), acc, pow128(i))
            == shift_parse(r, acc + low * pow128(i), pow128(i + 1)),
{
    match r {
        None => {},
        Some((v, end)) => {
            assert(acc + pow128(i) * (low + 128 * v)
                == (acc + low * pow128(i)) + pow128(i + 1) * v) by (nonlinear_arith)
                requires pow128(i + 1) == 128 * pow128(i),
            ;
        },
    }
}

/// `pow128` grows with its argument.
proof fn lemma_pow128_increases(m: nat, n: nat)
    requires
        m <= n,
    ensures
        pow128(m) <= pow128(n),
    decreases n,
{
    if m < n {
        lemma_pow128_increases(m, (n - 1) as nat);
        assert(pow128(n) == 128 * pow128((n - 1) as nat));
        assert(pow128((n - 1) as nat) <= 128 * pow128((n - 1) as nat)) by (nonlinear_arith)
            requires pow128((n - 1) as nat) >= 0,
        ;
    }
}

/// Where the next term alone no longer fits in 64 bits, the whole varint
/// does not fit either.
proof fn lemma_overflow_term(bytes: Seq<u8>, pos: int, i: nat, acc: nat, low: nat)
    requires
        varint_at(bytes, pos) == shift_parse(varint_at(bytes, pos + i), acc, pow128(i)),
        0 <= pos + i < bytes.len(),
        low == if bytes[pos + i] >= 128 { (bytes[pos + i] - 128) as nat } else {
            bytes[pos + i] as nat
        },
        acc + low * pow128(i) > u64::MAX,
    ensures
        parse_varint_u64(bytes, pos) is None,
{
    match varint_at(bytes, pos + i) {
        None => {},
        Some((v, end)) => {
            assert(v >= low) by {
                if bytes[pos + i] >= 128 {
                    match varint_at(bytes, pos + i + 1) {
                        None => {},
                        Some((v2, _)) => {
                            assert(v == low + 128 * v2);
                            assert(128 * v2 >= 0) by (nonlinear_arith);
                        },
                    }
                }
            }
            assert(pow128(i) * v >= pow128(i) * low) by (nonlinear_arith)
                requires v >= low, low >= 0, pow128(i) >= 0,
            ;
            assert(low * pow128(i) == pow128(i) * low) by (nonlinear_arith);
            assert(acc + pow128(i) * v > u64::MAX);
        },
    }
}

} // verus!
