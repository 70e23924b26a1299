//! Wire codec of a directory: an entry count followed by four columnar
//! passes of varints — tile-id deltas, run lengths, lengths, and offset
//! codes (`0` meaning byte-contiguous with the previous entry, any other
//! value meaning the offset plus one).

use crate::directory::{entries_wf, DirEntry, Directory};
use crate::varint::{
    lemma_varint_at_encoding, lemma_varint_bytes_len_u64, parse_varint_u64, read_varint_u64,
    varint_bytes, write_varint_u64,
};
use vstd::prelude::*;

verus! {

/// Decode failures. `Malformed` covers a truncated or over-long varint
/// stream and values that do not fit their field; `InvalidEntry` marks the
/// first entry claiming byte-contiguity with a predecessor it does not have.
#[derive(Clone, Copy, Debug, PartialEq, Eq, Structural)]
pub enum DirectoryError {
    Malformed,
    InvalidEntry,
}

/// The offset code written for an entry: `0` where it is byte-contiguous
/// with the previous entry's stored range, else its offset plus one.
pub open spec fn spec_offset_code(e: DirEntry, prev: Option<DirEntry>) -> nat {
    match prev {
        None => (e.offset + 1) as nat,
        Some(p) => if e.offset == p.offset + p.length {
            0
        } else {
            (e.offset + 1) as nat
        },
    }
}

/// The tile-id pass: each identifier as a delta from the previous one.
pub open spec fn tile_id_column(ids: Seq<u64>, prev: u64) -> Seq<u8>
    decreases ids.len(),
{
    if ids.len() == 0 {
        Seq::empty()
    } else {
        varint_bytes((ids[0] - prev) as nat) + tile_id_column(ids.drop_first(), ids[0])
    }
}

/// A pass of 32-bit values written verbatim.
pub open spec fn u32_column(vals: Seq<u32>) -> Seq<u8>
    decreases vals.len(),
{
    if vals.len() == 0 {
        Seq::empty()
    } else {
        varint_bytes(vals[0] as nat) + u32_column(vals.drop_first())
    }
}

/// The offset pass, with the contiguity sentinel.
pub open spec fn offset_column(s: Seq<DirEntry>, prev: Option<DirEntry>) -> Seq<u8>
    decreases s.len(),
{
    if s.len() == 0 {
        Seq::empty()
    } else {
        varint_bytes(spec_offset_code(s[0], prev)) + offset_column(s.drop_first(), Some(s[0]))
    }
}

pub open spec fn tile_ids_of(s: Seq<DirEntry>) -> Seq<u64> {
    Seq::new(s.len(), |i: int| s[i].tile_id)
}

pub open spec fn run_lengths_of(s: Seq<DirEntry>) -> Seq<u32> {
    Seq::new(s.len(), |i: int| s[i].run_length)
}

pub open spec fn lengths_of(s: Seq<DirEntry>) -> Seq<u32> {
    Seq::new(s.len(), |i: int| s[i].length)
}

/// The full wire form of a directory.
pub open spec fn spec_encoded(s: Seq<DirEntry>) -> Seq<u8> {
    varint_bytes(s.len()) + tile_id_column(tile_ids_of(s), 0) + u32_column(run_lengths_of(s))
        + u32_column(lengths_of(s)) + offset_column(s, None)
}

/// What encoding asks of a directory: tile identifiers do not descend (so
/// deltas are non-negative) and every offset leaves room for the plus-one
/// code.
pub open spec fn encodable(s: Seq<DirEntry>) -> bool {
    &&& forall|i: int, j: int|
        0 <= i < j < s.len() ==> (#[trigger] s[i]).tile_id <= (#[trigger] s[j]).tile_id
    &&& forall|i: int| 0 <= i < s.len() ==> (#[trigger] s[i]).offset < u64::MAX
}

/// Parse `n` tile-id deltas, accumulating each onto the previous identifier.
pub open spec fn parse_tile_ids(bytes: Seq<u8>, pos: int, n: nat, prev: u64) -> Option<
    (Seq<u64>, int),
>
    decreases n,
{
    if n == 0 {
        Some((Seq::empty(), pos))
    } else {
        match parse_varint_u64(bytes, pos) {
            None => None,
            Some((delta, p2)) => if prev + delta > u64::MAX {
                None
            } else {
                let id = (prev + delta) as u64;
                match parse_tile_ids(bytes, p2, (n - 1) as nat, id) {
                    None => None,
                    Some((rest, end)) => Some((seq![id] + rest, end)),
                }
            },
        }
    }
}

/// Parse `n` 32-bit values written verbatim.
pub open spec fn parse_u32s(bytes: Seq<u8>, pos: int, n: nat) -> Option<(Seq<u32>, int)>
    decreases n,
{
    if n == 0 {
        Some((Seq::empty(), pos))
    } else {
        match parse_varint_u64(bytes, pos) {
            None => None,
            Some((v, p2)) => if v > u32::MAX {
                None
            } else {
                match parse_u32s(bytes, p2, (n - 1) as nat) {
                    None => None,
                    Some((rest, end)) => Some((seq![v as u32] + rest, end)),
                }
            },
        }
    }
}

/// Parse one offset per length, resolving the contiguity sentinel against
/// the previous entry's offset and length.
pub open spec fn parse_offsets(
    bytes: Seq<u8>,
    pos: int,
    lens: Seq<u32>,
    prev: Option<(u64, u32)>,
) -> Result<(Seq<u64>, int), DirectoryError>
    decreases lens.len(),
{
    if lens.len() == 0 {
        Ok((Seq::empty(), pos))
    } else {
        match parse_varint_u64(bytes, pos) {
            None => Err(DirectoryError::Malformed),
            Some((code, p2)) => {
                let off_or: Result<u64, DirectoryError> = if code == 0 {
                    match prev {
                        None => Err(DirectoryError::InvalidEntry),
                        Some((po, pl)) => if po + pl > u64::MAX {
                            Err(DirectoryError::Malformed)
                        } else {
                            Ok((po + pl) as u64)
                        },
                    }
                } else {
                    Ok((code - 1) as u64)
                };
                match off_or {
                    Err(e) => Err(e),
                    Ok(off) => match parse_offsets(
                        bytes,
                        p2,
                        lens.drop_first(),
                        Some((off, lens[0])),
                    ) {
                        Err(e) => Err(e),
                        Ok((rest, end)) => Ok((seq![off] + rest, end)),
                    },
                }
            },
        }
    }
}

/// What any byte buffer decodes to: the entry sequence, or the first error
/// the five passes hit.
pub open spec fn spec_decode(bytes: Seq<u8>) -> Result<Seq<DirEntry>, DirectoryError> {
    match parse_varint_u64(bytes, 0) {
        None => Err(DirectoryError::Malformed),
        Some((n64, p1)) => if n64 > usize::MAX {
            Err(DirectoryError::Malformed)
        } else {
            let n = n64 as nat;
            match parse_tile_ids(bytes, p1, n, 0) {
                None => Err(DirectoryError::Malformed),
                Some((ids, p2)) => match parse_u32s(bytes, p2, n) {
                    None => Err(DirectoryError::Malformed),
                    Some((runs, p3)) => match parse_u32s(bytes, p3, n) {
                        None => Err(DirectoryError::Malformed),
                        Some((lens, p4)) => match parse_offsets(bytes, p4, lens, None) {
                            Err(e) => Err(e),
                            Ok((offs, _end)) => Ok(
                                Seq::new(
                                    n,
                                    |i: int|
                                        (DirEntry {
                                            tile_id: ids[i],
                                            run_length: runs[i],
                                            length: lens[i],
                                            offset: offs[i],
                                        }),
                                ),
                            ),
                        },
                    },
                },
            }
        },
    }
}

/// Extending the already-built prefix by one parsed element.
proof fn lemma_cons_assoc<T>(a: Seq<T>, x: T, r: Option<(Seq<T>, int)>)
    ensures
        (match r {
            None => None::<(Seq<T>, int)>,
            Some((rest, end)) => Some((a + (seq![x] + rest), end)),
        }) == (match r {
            None => None::<(Seq<T>, int)>,
            Some((rest, end)) => Some((a.push(x) + rest, end)),
        }),
{
    match r {
        None => {},
        Some((rest, end)) => {
            assert(a + (seq![x] + rest) =~= a.push(x) + rest);
        },
    }
}

/// The same, for the offset pass.
proof fn lemma_cons_assoc_res(a: Seq<u64>, x: u64, r: Result<(Seq<u64>, int), DirectoryError>)
    ensures
        (match r {
            Err(e) => Err::<(Seq<u64>, int), DirectoryError>(e),
            Ok((rest, end)) => Ok((a + (seq![x] + rest), end)),
        }) == (match r {
            Err(e) => Err::<(Seq<u64>, int), DirectoryError>(e),
            Ok((rest, end)) => Ok((a.push(x) + rest, end)),
        }),
{
    match r {
        Err(_) => {},
        Ok((rest, end)) => {
            assert(a + (seq![x] + rest) =~= a.push(x) + rest);
        },
    }
}

spec fn offsets_of(s: Seq<DirEntry>) -> Seq<u64> {
    Seq::new(s.len(), |i: int| s[i].offset)
}

/// The previous entry as the offset pass carries it: offset and length.
spec fn prev_pair(prev: Option<DirEntry>) -> Option<(u64, u32)> {
    match prev {
        None => None,
        Some(p) => Some((p.offset, p.length)),
    }
}

/// Non-descending identifiers, each at or above the running previous one.
spec fn tile_chain(prev: u64, ids: Seq<u64>) -> bool
    decreases ids.len(),
{
    ids.len() == 0 || (prev <= ids[0] && tile_chain(ids[0], ids.drop_first()))
}

proof fn lemma_nondecreasing_chain(ids: Seq<u64>, prev: u64)
    requires
        forall|i: int, j: int| 0 <= i < j < ids.len() ==> #[trigger] ids[i] <= #[trigger] ids[j],
        ids.len() > 0 ==> prev <= ids[0],
    ensures
        tile_chain(prev, ids),
    decreases ids.len(),
{
    if ids.len() > 0 {
        let rest = ids.drop_first();
        assert forall|i: int, j: int| 0 <= i < j < rest.len() implies #[trigger] rest[i]
            <= #[trigger] rest[j] by {
            assert(rest[i] == ids[i + 1]);
            assert(rest[j] == ids[j + 1]);
        }
        if rest.len() > 0 {
            assert(rest[0] == ids[1]);
        }
        lemma_nondecreasing_chain(rest, ids[0]);
    }
}

/// The tile-id column between any prefix and suffix parses back to the
/// identifiers it was built from.
proof fn lemma_parse_tile_id_column(ids: Seq<u64>, prev: u64, prefix: Seq<u8>, suffix: Seq<u8>)
    requires
        tile_chain(prev, ids),
    ensures
        parse_tile_ids(
            prefix + tile_id_column(ids, prev) + suffix,
            prefix.len() as int,
            ids.len(),
            prev,
        ) == Some((ids, prefix.len() + tile_id_column(ids, prev).len() as int)),
    decreases ids.len(),
{
    let col = tile_id_column(ids, prev);
    let bytes = prefix + col + suffix;
    if ids.len() == 0 {
        assert(ids =~= Seq::<u64>::empty());
    } else {
        let delta_n = (ids[0] - prev) as nat;
        let vb = varint_bytes(delta_n);
        let rest_col = tile_id_column(ids.drop_first(), ids[0]);
        assert(bytes =~= prefix + vb + (rest_col + suffix));
        lemma_varint_at_encoding(delta_n, prefix, rest_col + suffix);
        lemma_varint_bytes_len_u64((ids[0] - prev) as u64);
        lemma_parse_tile_id_column(ids.drop_first(), ids[0], prefix + vb, suffix);
        assert(prefix + vb + rest_col + suffix =~= bytes);
        assert(seq![ids[0]] + ids.drop_first() =~= ids);
    }
}

/// A verbatim 32-bit column parses back to its values.
proof fn lemma_parse_u32_column(vals: Seq<u32>, prefix: Seq<u8>, suffix: Seq<u8>)
    ensures
        parse_u32s(prefix + u32_column(vals) + suffix, prefix.len() as int, vals.len()) == Some(
            (vals, prefix.len() + u32_column(vals).len() as int),
        ),
    decreases vals.len(),
{
    let col = u32_column(vals);
    let bytes = prefix + col + suffix;
    if vals.len() == 0 {
        assert(vals =~= Seq::<u32>::empty());
    } else {
        let vb = varint_bytes(vals[0] as nat);
        let rest_col = u32_column(vals.drop_first());
        assert(bytes =~= prefix + vb + (rest_col + suffix));
        lemma_varint_at_encoding(vals[0] as nat, prefix, rest_col + suffix);
        lemma_varint_bytes_len_u64(vals[0] as u64);
        lemma_parse_u32_column(vals.drop_first(), prefix + vb, suffix);
        assert(prefix + vb + rest_col + suffix =~= bytes);
        assert(seq![vals[0]] + vals.drop_first() =~= vals);
    }
}

/// The offset column parses back to the offsets it was built from, against
/// the matching lengths and previous entry.
proof fn lemma_parse_offset_column(
    s: Seq<DirEntry>,
    prev: Option<DirEntry>,
    prefix: Seq<u8>,
    suffix: Seq<u8>,
)
    requires
        forall|i: int| 0 <= i < s.len() ==> (#[trigger] s[i]).offset < u64::MAX,
    ensures
        parse_offsets(
            prefix + offset_column(s, prev) + suffix,
            prefix.len() as int,
            lengths_of(s),
            prev_pair(prev),
        ) == Ok::<(Seq<u64>, int), DirectoryError>(
            (offsets_of(s), prefix.len() + offset_column(s, prev).len() as int),
        ),
    decreases s.len(),
{
    let col = offset_column(s, prev);
    let bytes = prefix + col + suffix;
    if s.len() == 0 {
        assert(lengths_of(s) =~= Seq::<u32>::empty());
        assert(offsets_of(s) =~= Seq::<u64>::empty());
    } else {
        let code = spec_offset_code(s[0], prev);
        let vb = varint_bytes(code);
        let rest_col = offset_column(s.drop_first(), Some(s[0]));
        assert(bytes =~= prefix + vb + (rest_col + suffix));
        lemma_varint_at_encoding(code, prefix, rest_col + suffix);
        assert(code <= u64::MAX);
        lemma_varint_bytes_len_u64(code as u64);
        assert forall|i: int| 0 <= i < s.drop_first().len() implies (#[trigger] s.drop_first()[i]).offset
            < u64::MAX by {
            assert(s.drop_first()[i] == s[i + 1]);
        }
        lemma_parse_offset_column(s.drop_first(), Some(s[0]), prefix + vb, suffix);
        assert(prefix + vb + rest_col + suffix =~= bytes);
        assert(lengths_of(s).drop_first() =~= lengths_of(s.drop_first()));
        assert(lengths_of(s)[0] == s[0].length);
        assert(seq![s[0].offset] + offsets_of(s.drop_first()) =~= offsets_of(s));
    }
}

/// Law: decoding an encoded directory gives back the same entries, field
/// for field, for any well-formed directory whose offsets are encodable.
pub proof fn lemma_round_trip(s: Seq<DirEntry>)
    requires
        entries_wf(s),
        s.len() <= usize::MAX,
        forall|i: int| 0 <= i < s.len() ==> (#[trigger] s[i]).offset < u64::MAX,
    ensures
        spec_decode(spec_encoded(s)) == Ok::<Seq<DirEntry>, DirectoryError>(s),
{
    let bytes = spec_encoded(s);
    let vb0 = varint_bytes(s.len());
    let c1 = tile_id_column(tile_ids_of(s), 0);
    let c2 = u32_column(run_lengths_of(s));
    let c3 = u32_column(lengths_of(s));
    let c4 = offset_column(s, None);

    assert(bytes =~= Seq::empty() + vb0 + (c1 + c2 + c3 + c4));
    lemma_varint_at_encoding(s.len(), Seq::empty(), c1 + c2 + c3 + c4);
    lemma_varint_bytes_len_u64(s.len() as u64);

    assert forall|i: int, j: int| 0 <= i < j < tile_ids_of(s).len() implies #[trigger] tile_ids_of(
        s,
    )[i] <= #[trigger] tile_ids_of(s)[j] by {
        assert(s[i].tile_id < s[j].tile_id);
    }
    lemma_nondecreasing_chain(tile_ids_of(s), 0);
    lemma_parse_tile_id_column(tile_ids_of(s), 0, vb0, c2 + c3 + c4);
    assert(vb0 + c1 + (c2 + c3 + c4) =~= bytes);

    lemma_parse_u32_column(run_lengths_of(s), vb0 + c1, c3 + c4);
    assert(vb0 + c1 + c2 + (c3 + c4) =~= bytes);

    lemma_parse_u32_column(lengths_of(s), vb0 + c1 + c2, c4);
    assert(vb0 + c1 + c2 + c3 + c4 =~= bytes);

    lemma_parse_offset_column(s, None, vb0 + c1 + c2 + c3, Seq::empty());
    assert(vb0 + c1 + c2 + c3 + c4 + Seq::empty() =~= bytes);

    assert(Seq::new(
        s.len(),
        |i: int|
            (DirEntry {
                tile_id: tile_ids_of(s)[i],
                run_length: run_lengths_of(s)[i],
                length: lengths_of(s)[i],
                offset: offsets_of(s)[i],
            }),
    ) =~= s);
}

/// Law: an entry is written as the contiguity sentinel exactly where its
/// offset equals the previous entry's offset plus its length; decoding an
/// encoded directory (the round-trip law) then restores the identical
/// numeric offset.
pub proof fn lemma_contiguity_sentinel(e: DirEntry, p: DirEntry)
    ensures
        (spec_offset_code(e, Some(p)) == 0) <==> (e.offset == p.offset + p.length),
        spec_offset_code(e, Some(p)) != 0 ==> spec_offset_code(e, Some(p)) == e.offset + 1,
{
}

/// Non-descent between each pair of neighbours extends to every pair.
proof fn lemma_nondecrease_reach(s: Seq<DirEntry>, i: int, j: int)
    requires
        forall|k: int| 0 < k < s.len() ==> (#[trigger] s[k]).tile_id >= s[k - 1].tile_id,
        0 <= i < j < s.len(),
    ensures
        s[i].tile_id <= s[j].tile_id,
    decreases j - i,
{
    if j > i + 1 {
        lemma_nondecrease_reach(s, i, j - 1);
    }
}

impl Directory {
    /// Check what encoding asks of the entries: tile identifiers never
    /// descend and every offset leaves room for the plus-one code.
    #[verifier::loop_isolation(false)]
    pub fn is_encodable(&self) -> (r: bool)
        ensures
            r == encodable(self@),
    {
        let entries = self.entries();
        let n = entries.len();
        let mut i: usize = 0;
        while i < n
            invariant
                i <= n,
                forall|k: int| 0 < k < i ==> (#[trigger] self@[k]).tile_id >= self@[k - 1].tile_id,
                forall|k: int| 0 <= k < i ==> (#[trigger] self@[k]).offset < u64::MAX,
            decreases n - i,
        {
            let e = entries[i];
            if e.offset == u64::MAX {
                proof {
                    assert(self@[i as int].offset >= u64::MAX);
                }
                return false;
            }
            if i > 0 {
                let p = entries[i - 1];
                if p.tile_id > e.tile_id {
                    proof {
                        assert(self@[i - 1].tile_id > self@[i as int].tile_id);
                    }
                    return false;
                }
            }
            i = i + 1;
        }
        proof {
            assert forall|a: int, b: int| 0 <= a < b < self@.len() implies (#[trigger] self@[a]).tile_id
                <= (#[trigger] self@[b]).tile_id by {
                lemma_nondecrease_reach(self@, a, b);
            }
        }
        true
    }

    /// Serialize to the five-pass wire layout. A well-formed directory is
    /// always encodable, offsets permitting.
    #[verifier::loop_isolation(false)]
    #[verifier::rlimit(60)]
    pub fn to_bytes(&self) -> (r: Vec<u8>)
        requires
            encodable(self@),
        ensures
            r@ == spec_encoded(self@),
    {
        let ghost s = self@;
        let entries = self.entries();
        let n = entries.len();
        let mut out: Vec<u8> = Vec::new();

        // entry count
        write_varint_u64(&mut out, n as u64);
        let ghost target1 = varint_bytes(s.len()) + tile_id_column(tile_ids_of(s), 0);
        proof {
            assert(out@ =~= varint_bytes(s.len()));
            assert(tile_ids_of(s).skip(0) =~= tile_ids_of(s));
        }

        // tile identifiers, as deltas from the previous one
        let mut prev: u64 = 0;
        let mut i: usize = 0;
        while i < n
            invariant
                i <= n,
                prev == if i == 0 {
                    0u64
                } else {
                    s[i - 1].tile_id
                },
                out@ + tile_id_column(tile_ids_of(s).skip(i as int), prev) == target1,
            decreases n - i,
        {
            let e = entries[i];
            proof {
                let ids = tile_ids_of(s);
                assert(ids.skip(i as int)[0] == e.tile_id);
                assert(ids.skip(i as int).drop_first() =~= ids.skip(i as int + 1));
            }
            let delta = e.tile_id - prev;
            let ghost pre = out@;
            write_varint_u64(&mut out, delta);
            proof {
                assert(out@ + tile_id_column(tile_ids_of(s).skip(i as int + 1), e.tile_id)
                    =~= pre + tile_id_column(tile_ids_of(s).skip(i as int), prev));
            }
            prev = e.tile_id;
            i = i + 1;
        }
        proof {
            assert(out@ =~= target1);
        }

        // run lengths
        let ghost target2 = target1 + u32_column(run_lengths_of(s));
        proof {
            assert(run_lengths_of(s).skip(0) =~= run_lengths_of(s));
        }
        i = 0;
        while i < n
            invariant
                i <= n,
                out@ + u32_column(run_lengths_of(s).skip(i as int)) == target2,
            decreases n - i,
        {
            proof {
                let vals = run_lengths_of(s);
                assert(vals.skip(i as int)[0] == s[i as int].run_length);
                assert(vals.skip(i as int).drop_first() =~= vals.skip(i as int + 1));
            }
            let ghost pre = out@;
            write_varint_u64(&mut out, entries[i].run_length as u64);
            proof {
                assert(out@ + u32_column(run_lengths_of(s).skip(i as int + 1))
                    =~= pre + u32_column(run_lengths_of(s).skip(i as int)));
            }
            i = i + 1;
        }
        proof {
            assert(out@ =~= target2);
        }

        // lengths
        let ghost target3 = target2 + u32_column(lengths_of(s));
        proof {
            assert(lengths_of(s).skip(0) =~= lengths_of(s));
        }
        i = 0;
        while i < n
            invariant
                i <= n,
                out@ + u32_column(lengths_of(s).skip(i as int)) == target3,
            decreases n - i,
        {
            proof {
                let vals = lengths_of(s);
                assert(vals.skip(i as int)[0] == s[i as int].length);
                assert(vals.skip(i as int).drop_first() =~= vals.skip(i as int + 1));
            }
            let ghost pre = out@;
            write_varint_u64(&mut out, entries[i].length as u64);
            proof {
                assert(out@ + u32_column(lengths_of(s).skip(i as int + 1))
                    =~= pre + u32_column(lengths_of(s).skip(i as int)));
            }
            i = i + 1;
        }
        proof {
            assert(out@ =~= target3);
        }

        // offsets, with the contiguity sentinel
        let ghost target4 = target3 + offset_column(s, None);
        proof {
            assert(s.skip(0) =~= s);
        }
        i = 0;
        while i < n
            invariant
                i <= n,
                out@ + offset_column(
                    s.skip(i as int),
                    if i == 0 {
                        None
                    } else {
                        Some(s[i - 1])
                    },
                ) == target4,
            decreases n - i,
        {
            let ghost prev_e: Option<DirEntry> = if i == 0 {
                None
            } else {
                Some(s[i - 1])
            };
            let e = entries[i];
            let code: u64 = if i > 0 {
                let p = entries[i - 1];
                if p.length as u64 <= u64::MAX - p.offset && e.offset == p.offset
                    + p.length as u64 {
                    0
                } else {
                    e.offset + 1
                }
            } else {
                e.offset + 1
            };
            proof {
                assert(s.skip(i as int)[0] == s[i as int]);
                assert(s.skip(i as int).drop_first() =~= s.skip(i as int + 1));
                assert(code as nat == spec_offset_code(s[i as int], prev_e));
            }
            let ghost pre = out@;
            write_varint_u64(&mut out, code);
            proof {
                assert(out@ + offset_column(s.skip(i as int + 1), Some(s[i as int]))
                    =~= pre + offset_column(s.skip(i as int), prev_e));
            }
            i = i + 1;
        }
        proof {
            assert(out@ =~= target4);
        }
        out
    }

    /// Decode a byte buffer into a directory, exactly per `spec_decode`:
    /// the five passes in order, failing on a truncated or oversized varint
    /// and on a first entry that claims contiguity with no predecessor.
    /// Trailing bytes past the five passes are ignored.
    #[verifier::loop_isolation(false)]
    #[verifier::rlimit(60)]
    pub fn try_from_bytes(bytes: &[u8]) -> (r: Result<Directory, DirectoryError>)
        ensures
            match r {
                Ok(d) => spec_decode(bytes@) == Ok::<Seq<DirEntry>, DirectoryError>(d@),
                Err(e) => spec_decode(bytes@) == Err::<Seq<DirEntry>, DirectoryError>(e),
            },
    {
        let (n64, p1) = match read_varint_u64(bytes, 0) {
            Some(x) => x,
            None => {
                return Err(DirectoryError::Malformed);
            },
        };
        if n64 > usize::MAX as u64 {
            return Err(DirectoryError::Malformed);
        }
        let n = n64 as usize;

        // tile identifiers
        let mut ids: Vec<u64> = Vec::new();
        let mut pos: usize = p1;
        let mut prev: u64 = 0;
        let mut i: usize = 0;
        while i < n
            invariant
                i <= n,
                ids@.len() == i as nat,
                pos <= bytes@.len(),
                prev == if i == 0 {
                    0u64
                } else {
                    ids@[i - 1]
                },
                parse_tile_ids(bytes@, p1 as int, n as nat, 0) == (match parse_tile_ids(
                    bytes@,
                    pos as int,
                    (n - i) as nat,
                    prev,
                ) {
                    None => None::<(Seq<u64>, int)>,
                    Some((rest, end)) => Some((ids@ + rest, end)),
                }),
            decreases n - i,
        {
            let (delta, p2) = match read_varint_u64(bytes, pos) {
                Some(x) => x,
                None => {
                    return Err(DirectoryError::Malformed);
                },
            };
            let id = match prev.checked_add(delta) {
                Some(x) => x,
                None => {
                    return Err(DirectoryError::Malformed);
                },
            };
            proof {
                lemma_cons_assoc::<u64>(
                    ids@,
                    id,
                    parse_tile_ids(bytes@, p2 as int, (n - i - 1) as nat, id),
                );
            }
            ids.push(id);
            pos = p2;
            prev = id;
            i = i + 1;
        }
        proof {
            assert(ids@ + Seq::<u64>::empty() =~= ids@);
        }
        let ghost ids_s = ids@;
        let ghost q2 = pos as int;
        proof {
            assert(parse_tile_ids(bytes@, p1 as int, n as nat, 0) == Some((ids_s, q2)));
        }

        // run lengths
        let mut runs: Vec<u32> = Vec::new();
        i = 0;
        while i < n
            invariant
                i <= n,
                runs@.len() == i as nat,
                pos <= bytes@.len(),
                parse_u32s(bytes@, q2, n as nat) == (match parse_u32s(
                    bytes@,
                    pos as int,
                    (n - i) as nat,
                ) {
                    None => None::<(Seq<u32>, int)>,
                    Some((rest, end)) => Some((runs@ + rest, end)),
                }),
            decreases n - i,
        {
            let (v, p2) = match read_varint_u64(bytes, pos) {
                Some(x) => x,
                None => {
                    return Err(DirectoryError::Malformed);
                },
            };
            if v > u32::MAX as u64 {
                return Err(DirectoryError::Malformed);
            }
            proof {
                lemma_cons_assoc::<u32>(
                    runs@,
                    v as u32,
                    parse_u32s(bytes@, p2 as int, (n - i - 1) as nat),
                );
            }
            runs.push(v as u32);
            pos = p2;
            i = i + 1;
        }
        proof {
            assert(runs@ + Seq::<u32>::empty() =~= runs@);
        }
        let ghost runs_s = runs@;
        let ghost q3 = pos as int;
        proof {
            assert(parse_u32s(bytes@, q2, n as nat) == Some((runs_s, q3)));
        }

        // lengths
        let mut lens: Vec<u32> = Vec::new();
        i = 0;
        while i < n
            invariant
                i <= n,
                lens@.len() == i as nat,
                pos <= bytes@.len(),
                parse_u32s(bytes@, q3, n as nat) == (match parse_u32s(
                    bytes@,
                    pos as int,
                    (n - i) as nat,
                ) {
                    None => None::<(Seq<u32>, int)>,
                    Some((rest, end)) => Some((lens@ + rest, end)),
                }),
            decreases n - i,
        {
            let (v, p2) = match read_varint_u64(bytes, pos) {
                Some(x) => x,
                None => {
                    return Err(DirectoryError::Malformed);
                },
            };
            if v > u32::MAX as u64 {
                return Err(DirectoryError::Malformed);
            }
            proof {
                lemma_cons_assoc::<u32>(
                    lens@,
                    v as u32,
                    parse_u32s(bytes@, p2 as int, (n - i - 1) as nat),
                );
            }
            lens.push(v as u32);
            pos = p2;
            i = i + 1;
        }
        proof {
            assert(lens@ + Seq::<u32>::empty() =~= lens@);
        }
        let ghost lens_s = lens@;
        let ghost q4 = pos as int;
        proof {
            assert(parse_u32s(bytes@, q3, n as nat) == Some((lens_s, q4)));
        }

        // offsets
        proof {
            assert(lens_s.skip(0) =~= lens_s);
        }
        let mut offs: Vec<u64> = Vec::new();
        i = 0;
        while i < n
            invariant
                i <= n,
                offs@.len() == i as nat,
                pos <= bytes@.len(),
                parse_offsets(bytes@, q4, lens_s, None) == (match parse_offsets(
                    bytes@,
                    pos as int,
                    lens_s.skip(i as int),
                    if i == 0 {
                        None
                    } else {
                        Some((offs@[i - 1], lens_s[i - 1]))
                    },
                ) {
                    Err(e) => Err::<(Seq<u64>, int), DirectoryError>(e),
                    Ok((rest, end)) => Ok((offs@ + rest, end)),
                }),
            decreases n - i,
        {
            proof {
                assert(lens_s.skip(i as int)[0] == lens_s[i as int]);
                assert(lens_s.skip(i as int).drop_first() =~= lens_s.skip(i as int + 1));
            }
            let (code, p2) = match read_varint_u64(bytes, pos) {
                Some(x) => x,
                None => {
                    return Err(DirectoryError::Malformed);
                },
            };
            let off: u64;
            if code == 0 {
                if i == 0 {
                    return Err(DirectoryError::InvalidEntry);
                }
                let po = offs[i - 1];
                let pl = lens[i - 1];
                off = match po.checked_add(pl as u64) {
                    Some(x) => x,
                    None => {
                        return Err(DirectoryError::Malformed);
                    },
                };
            } else {
                off = code - 1;
            }
            proof {
                lemma_cons_assoc_res(
                    offs@,
                    off,
                    parse_offsets(
                        bytes@,
                        p2 as int,
                        lens_s.skip(i as int + 1),
                        Some((off, lens_s[i as int])),
                    ),
                );
            }
            offs.push(off);
            pos = p2;
            i = i + 1;
        }
        proof {
            assert(lens_s.skip(n as int) =~= Seq::<u32>::empty());
            assert(offs@ + Seq::<u64>::empty() =~= offs@);
        }
        let ghost offs_s = offs@;
        proof {
            assert(parse_offsets(bytes@, q4, lens_s, None) == Ok::<(Seq<u64>, int), DirectoryError>(
                (offs_s, pos as int),
            ));
        }

        // assemble the entries
        let mut entries: Vec<DirEntry> = Vec::new();
        i = 0;
        while i < n
            invariant
                i <= n,
                entries@.len() == i as nat,
                forall|j: int|
                    0 <= j < i ==> entries@[j] == (DirEntry {
                        tile_id: ids_s[j],
                        run_length: runs_s[j],
                        length: lens_s[j],
                        offset: offs_s[j],
                    }),
            decreases n - i,
        {
            entries.push(
                DirEntry {
                    tile_id: ids[i],
                    run_length: runs[i],
                    length: lens[i],
                    offset: offs[i],
                },
            );
            i = i + 1;
        }
        proof {
            assert(entries@ =~= Seq::new(
                n as nat,
                |j: int|
                    (DirEntry {
                        tile_id: ids_s[j],
                        run_length: runs_s[j],
                        length: lens_s[j],
                        offset: offs_s[j],
                    }),
            ));
        }
        Ok(Directory::from_entries(entries))
    }
}

} // verus!
