//! The directory proper: entries, well-formedness, and point lookup by
//! tile identifier.

use vstd::prelude::*;

verus! {

/// One covered range of tile identifiers: `tile_id` is the first identifier
/// covered; `offset`/`length` give the byte range of the payload. A positive
/// `run_length` `r` extends coverage to `tile_id + r - 1` with the same byte
/// range; zero marks a leaf pointer toward a child directory.
#[derive(Clone, Copy, Debug, Default, PartialEq, Eq, Structural)]
pub struct DirEntry {
    pub tile_id: u64,
    pub offset: u64,
    pub length: u32,
    pub run_length: u32,
}

impl DirEntry {
    /// A zero run length marks a leaf pointer: its bytes are a child
    /// directory, not tile data.
    pub fn is_leaf(&self) -> (r: bool)
        ensures
            r == (self.run_length == 0),
    {
        self.run_length == 0
    }
}

/// An ordered sequence of entries over ascending tile identifiers.
#[derive(Clone, Debug)]
pub struct Directory {
    entries: Vec<DirEntry>,
}

impl View for Directory {
    type V = Seq<DirEntry>;

    closed spec fn view(&self) -> Seq<DirEntry> {
        self.entries@
    }
}

/// The directory invariant: tile identifiers strictly ascend, and the run of
/// one entry never reaches the start of a later one.
pub open spec fn entries_wf(s: Seq<DirEntry>) -> bool {
    forall|i: int, j: int|
        0 <= i < j < s.len() ==> (#[trigger] s[i]).tile_id < (#[trigger] s[j]).tile_id
            && s[i].tile_id + s[i].run_length <= s[j].tile_id
}

/// What a lookup returns: the last entry whose `tile_id` does not exceed the
/// requested one, kept only if it covers the request exactly, by leaf
/// deferral, or by run containment.
pub open spec fn spec_find(s: Seq<DirEntry>, tile_id: u64) -> Option<DirEntry>
    decreases s.len(),
{
    if s.len() == 0 {
        None
    } else {
        let last = s[s.len() - 1];
        if last.tile_id <= tile_id {
            if last.tile_id == tile_id || last.run_length == 0 || tile_id - last.tile_id
                < last.run_length {
                Some(last)
            } else {
                None
            }
        } else {
            spec_find(s.drop_last(), tile_id)
        }
    }
}

/// Where every entry starts past the requested identifier, nothing covers it.
pub proof fn lemma_spec_find_none(s: Seq<DirEntry>, tile_id: u64)
    requires
        forall|k: int| 0 <= k < s.len() ==> (#[trigger] s[k]).tile_id > tile_id,
    ensures
        spec_find(s, tile_id) is None,
    decreases s.len(),
{
    if s.len() > 0 {
        lemma_spec_find_none(s.drop_last(), tile_id);
    }
}

/// In a well-formed directory, the lookup is decided at the last entry whose
/// `tile_id` does not exceed the request.
pub proof fn lemma_spec_find_candidate(s: Seq<DirEntry>, tile_id: u64, idx: int)
    requires
        entries_wf(s),
        0 <= idx < s.len(),
        s[idx].tile_id <= tile_id,
        forall|k: int| idx < k < s.len() ==> (#[trigger] s[k]).tile_id > tile_id,
    ensures
        spec_find(s, tile_id) == (if s[idx].tile_id == tile_id || s[idx].run_length == 0
            || tile_id - s[idx].tile_id < s[idx].run_length {
            Some(s[idx])
        } else {
            None
        }),
    decreases s.len(),
{
    if idx < s.len() - 1 {
        assert(s[s.len() - 1].tile_id > tile_id);
        assert(entries_wf(s.drop_last())) by {
            assert(forall|i: int, j: int|
                0 <= i < j < s.drop_last().len() ==> s.drop_last()[i] == s[i]
                    && s.drop_last()[j] == s[j]);
        }
        lemma_spec_find_candidate(s.drop_last(), tile_id, idx);
    }
}

/// Whatever a lookup returns satisfies the covering condition for the
/// requested identifier.
pub proof fn lemma_spec_find_covers(s: Seq<DirEntry>, tile_id: u64)
    ensures
        spec_find(s, tile_id) matches Some(e) ==> e.tile_id <= tile_id && (e.tile_id == tile_id
            || e.run_length == 0 || tile_id - e.tile_id < e.run_length),
    decreases s.len(),
{
    if s.len() > 0 && s[s.len() - 1].tile_id > tile_id {
        lemma_spec_find_covers(s.drop_last(), tile_id);
    }
}

impl Default for Directory {
    /// The empty directory.
    fn default() -> (d: Self)
        ensures
            d@ == Seq::<DirEntry>::empty(),
    {
        Self { entries: Vec::new() }
    }
}

impl Directory {
    /// An empty directory with room for `capacity` entries.
    pub fn with_capacity(capacity: usize) -> (d: Self)
        ensures
            d@ == Seq::<DirEntry>::empty(),
    {
        Self { entries: Vec::with_capacity(capacity) }
    }

    /// Wrap an already ordered entry list.
    pub fn from_entries(entries: Vec<DirEntry>) -> (d: Self)
        ensures
            d@ == entries@,
    {
        Self { entries }
    }

    /// The entries, in order.
    pub fn entries(&self) -> (r: &[DirEntry])
        ensures
            r@ == self@,
    {
        self.entries.as_slice()
    }

    /// Append one entry; the caller keeps tile identifiers ascending.
    pub fn push(&mut self, entry: DirEntry)
        ensures
            final(self)@ == old(self)@.push(entry),
    {
        self.entries.push(entry);
    }

    /// Find the directory entry covering a given tile identifier. On a
    /// well-formed directory the result is exactly `spec_find`; on any
    /// directory the result is one of its entries, and the call never
    /// panics.
    pub fn find_tile_id(&self, tile_id: u64) -> (r: Option<&DirEntry>)
        ensures
            entries_wf(self@) ==> match r {
                Some(e) => spec_find(self@, tile_id) == Some(*e),
                None => spec_find(self@, tile_id) is None,
            },
            r matches Some(e) ==> exists|i: int| 0 <= i < self@.len() && self@[i] == *e,
    {
        let mut lo: usize = 0;
        let mut hi: usize = self.entries.len();
        while lo < hi
            invariant
                lo <= hi <= self@.len(),
                self@.len() == self.entries@.len(),
                entries_wf(self@) ==> forall|k: int|
                    0 <= k < lo ==> (#[trigger] self@[k]).tile_id <= tile_id,
                entries_wf(self@) ==> forall|k: int|
                    hi <= k < self@.len() ==> (#[trigger] self@[k]).tile_id > tile_id,
            decreases hi - lo,
        {
            let mid = lo + (hi - lo) / 2;
            if self.entries[mid].tile_id <= tile_id {
                lo = mid + 1;
            } else {
                hi = mid;
            }
        }
        if lo == 0 {
            proof {
                if entries_wf(self@) {
                    lemma_spec_find_none(self@, tile_id);
                }
            }
            None
        } else {
            let e = &self.entries[lo - 1];
            proof {
                if entries_wf(self@) {
                    lemma_spec_find_candidate(self@, tile_id, lo - 1);
                }
            }
            if e.tile_id == tile_id || e.run_length == 0 || (tile_id >= e.tile_id && tile_id
                - e.tile_id < e.run_length as u64) {
                Some(e)
            } else {
                None
            }
        }
    }

    /// Estimated in-memory size, for cache eviction: allocated capacity
    /// times a fixed per-entry footprint, an O(1) overapproximation.
    pub fn get_approx_byte_size(&self) -> (r: usize)
        ensures
            self@.len() * ENTRY_APPROX_BYTES <= usize::MAX ==> r >= self@.len()
                * ENTRY_APPROX_BYTES,
    {
        let c = entries_capacity(&self.entries);
        match c.checked_mul(ENTRY_APPROX_BYTES) {
            Some(x) => x,
            None => usize::MAX,
        }
    }

    /// Check the directory invariant: each entry starts after the previous
    /// one and past its run.
    pub fn is_well_formed(&self) -> (r: bool)
        ensures
            r == entries_wf(self@),
    {
        let n = self.entries.len();
        let mut i: usize = 1;
        while i < n
            invariant
                1 <= i <= n || n == 0,
                n == self@.len(),
                self@.len() == self.entries@.len(),
                forall|k: int|
                    0 < k < i ==> (#[trigger] self@[k]).tile_id > self@[k - 1].tile_id
                        && self@[k - 1].tile_id + self@[k - 1].run_length <= self@[k].tile_id,
            decreases n - i,
        {
            let p = self.entries[i - 1];
            let e = self.entries[i];
            let ok = p.tile_id < e.tile_id && p.run_length as u64 <= u64::MAX - p.tile_id
                && p.tile_id + p.run_length as u64 <= e.tile_id;
            if !ok {
                proof {
                    assert(!(self@[i - 1].tile_id < self@[i as int].tile_id
                        && self@[i - 1].tile_id + self@[i - 1].run_length
                        <= self@[i as int].tile_id));
                }
                return false;
            }
            i = i + 1;
        }
        proof {
            lemma_consecutive_implies_wf(self@);
        }
        true
    }
}

/// Fixed per-entry footprint used by the size estimate: two eight-byte and
/// two four-byte fields, padded to eight-byte alignment.
pub const ENTRY_APPROX_BYTES: usize = 24;

/// Relies on Vec::capacity: a vector's capacity is at least its length.
#[verifier::external_body]
fn entries_capacity(v: &Vec<DirEntry>) -> (c: usize)
    ensures
        c >= v@.len(),
{
    v.capacity()
}

/// Strict ascent with run separation between each pair of neighbours extends
/// to every pair of indices.
proof fn lemma_neighbours_reach(s: Seq<DirEntry>, i: int, j: int)
    requires
        forall|k: int|
            0 < k < s.len() ==> (#[trigger] s[k]).tile_id > s[k - 1].tile_id
                && s[k - 1].tile_id + s[k - 1].run_length <= s[k].tile_id,
        0 <= i < j < s.len(),
    ensures
        s[i].tile_id < s[j].tile_id,
        s[i].tile_id + s[i].run_length <= s[j].tile_id,
    decreases j - i,
{
    if j > i + 1 {
        lemma_neighbours_reach(s, i, j - 1);
    }
}

/// Law: in a well-formed directory, looking up the tile identifier of any
/// entry returns exactly that entry.
pub proof fn lemma_find_exact_match(s: Seq<DirEntry>, i: int)
    requires
        entries_wf(s),
        0 <= i < s.len(),
    ensures
        spec_find(s, s[i].tile_id) == Some(s[i]),
{
    lemma_spec_find_candidate(s, s[i].tile_id, i);
}

/// Law: a non-leaf entry covers every identifier within its run.
pub proof fn lemma_find_run_coverage(s: Seq<DirEntry>, i: int, k: u64)
    requires
        entries_wf(s),
        0 <= i < s.len(),
        s[i].run_length > 0,
        k < s[i].run_length,
        s[i].tile_id + k <= u64::MAX,
    ensures
        spec_find(s, (s[i].tile_id + k) as u64) == Some(s[i]),
{
    let q = (s[i].tile_id + k) as u64;
    assert(forall|j: int| i < j < s.len() ==> (#[trigger] s[j]).tile_id > q);
    lemma_spec_find_candidate(s, q, i);
}

/// Law: a non-leaf entry does not cover the identifier just past its run.
pub proof fn lemma_find_past_run(s: Seq<DirEntry>, i: int)
    requires
        entries_wf(s),
        0 <= i < s.len(),
        s[i].run_length > 0,
        s[i].tile_id + s[i].run_length <= u64::MAX,
    ensures
        spec_find(s, (s[i].tile_id + s[i].run_length) as u64) != Some(s[i]),
{
    let q = (s[i].tile_id + s[i].run_length) as u64;
    lemma_spec_find_covers(s, q);
}

/// Law: a leaf entry covers every identifier from its own up to (not
/// including) the next entry's, however far away, and to the end of the
/// identifier space where it is the last entry.
pub proof fn lemma_find_leaf_deferral(s: Seq<DirEntry>, i: int, q: u64)
    requires
        entries_wf(s),
        0 <= i < s.len(),
        s[i].run_length == 0,
        s[i].tile_id <= q,
        i + 1 < s.len() ==> q < s[i + 1].tile_id,
    ensures
        spec_find(s, q) == Some(s[i]),
{
    assert(forall|j: int| i < j < s.len() ==> (#[trigger] s[j]).tile_id > q);
    lemma_spec_find_candidate(s, q, i);
}

/// Law: nothing covers an identifier preceding the first entry.
pub proof fn lemma_find_before_first(s: Seq<DirEntry>, q: u64)
    requires
        entries_wf(s),
        s.len() > 0,
        q < s[0].tile_id,
    ensures
        spec_find(s, q) is None,
{
    assert(forall|k: int| 0 <= k < s.len() ==> (#[trigger] s[k]).tile_id >= s[0].tile_id);
    lemma_spec_find_none(s, q);
}

/// Law: nothing covers an identifier in a genuine gap, after a non-leaf
/// entry's run and before the next entry.
pub proof fn lemma_find_gap(s: Seq<DirEntry>, i: int, q: u64)
    requires
        entries_wf(s),
        0 <= i < s.len(),
        s[i].run_length > 0,
        s[i].tile_id + s[i].run_length <= q,
        i + 1 < s.len() ==> q < s[i + 1].tile_id,
    ensures
        spec_find(s, q) is None,
{
    assert(forall|j: int| i < j < s.len() ==> (#[trigger] s[j]).tile_id > q);
    lemma_spec_find_candidate(s, q, i);
}

/// The per-neighbour check establishes the pairwise invariant.
proof fn lemma_consecutive_implies_wf(s: Seq<DirEntry>)
    requires
        forall|k: int|
            0 < k < s.len() ==> (#[trigger] s[k]).tile_id > s[k - 1].tile_id
                && s[k - 1].tile_id + s[k - 1].run_length <= s[k].tile_id,
    ensures
        entries_wf(s),
{
    assert forall|i: int, j: int| 0 <= i < j < s.len() implies (#[trigger] s[i]).tile_id
        < (#[trigger] s[j]).tile_id && s[i].tile_id + s[i].run_length <= s[j].tile_id by {
        lemma_neighbours_reach(s, i, j);
    }
}

} // verus!
