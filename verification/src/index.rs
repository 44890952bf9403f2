//! Index blocks: fixed-size arrays of (offset, identifier) entries and
//! the shape of a multi-level index over a number of data blocks.
use crate::config::BLOCK_SIZE;
use crate::error::TcsLogError;
use crate::uid::Uid;
use vstd::bytes::*;
use vstd::prelude::*;

verus! {

/// Size of an index entry: an offset plus a packed identifier.
pub const INDEX_ENTRY_SIZE: usize = 20;

/// Number of index entries per block.
pub const ENTRIES_PER_BLOCK: usize = 204;

/// Offset value of an entry that references nothing.
pub const FILE_NULL: u64 = 0;

/// One index entry.
#[derive(Debug, Clone, Copy, Default, PartialEq, Eq, Structural)]
pub struct IndexEntry {
    /// Offset of the referenced block within the file, `FILE_NULL` if none.
    pub offset: u64,
    /// Identifier (nanoseconds since the epoch) of the referenced block.
    pub Uid: Uid,
}

/// The on-disk bytes of an entry: offset, then the packed identifier.
pub open spec fn spec_entry_bytes(e: IndexEntry) -> Seq<u8> {
    spec_u64_to_le_bytes(e.offset) + spec_u32_to_le_bytes(e.Uid@.1) + spec_u64_to_le_bytes(e.Uid@.0)
}

/// Whether an identifier sorts at or before another (seconds, then
/// nanoseconds).
pub open spec fn uid_le(a: (u64, u32), b: (u64, u32)) -> bool {
    a.0 < b.0 || (a.0 == b.0 && a.1 <= b.1)
}

impl IndexEntry {
    /// An entry referencing `offset` with identifier `uid`.
    pub fn new(offset: u64, Uid: Uid) -> (r: IndexEntry)
        ensures
            r.offset == offset,
            r.Uid == Uid,
    {
        IndexEntry { offset, Uid }
    }

    /// The entry that references nothing.
    pub fn null() -> (r: IndexEntry)
        ensures
            r.offset == FILE_NULL,
            r.Uid@ == (0u64, 1u32),
    {
        IndexEntry { offset: FILE_NULL, Uid: Uid::zero() }
    }

    /// Whether this entry references nothing.
    pub fn is_null(&self) -> (r: bool)
        ensures
            r == (self.offset == FILE_NULL),
    {
        self.offset == FILE_NULL
    }

    /// Serializes the entry (little-endian).
    pub fn to_bytes(&self) -> (r: [u8; 20])
        ensures
            r@ == spec_entry_bytes(*self),
    {
        let o = crate::le::u64_to_le_array(self.offset);
        let u = self.Uid.to_le_bytes();
        let r: [u8; 20] = [
            o[0], o[1], o[2], o[3], o[4], o[5], o[6], o[7],
            u[0], u[1], u[2], u[3], u[4], u[5], u[6], u[7], u[8], u[9], u[10], u[11],
        ];
        proof {
            assert(r@ =~= o@ + u@);
        }
        r
    }

    /// Deserializes an entry.
    pub fn from_bytes(bytes: &[u8; 20]) -> (r: IndexEntry)
        ensures
            r.offset == spec_u64_from_le_bytes(bytes@.subrange(0, 8)),
            r.Uid@ == (spec_u64_from_le_bytes(bytes@.subrange(12, 20)), spec_u32_from_le_bytes(
                bytes@.subrange(8, 12),
            )),
    {
        let o: [u8; 8] = [bytes[0], bytes[1], bytes[2], bytes[3], bytes[4], bytes[5], bytes[6], bytes[7]];
        let u: [u8; 12] = [
            bytes[8], bytes[9], bytes[10], bytes[11], bytes[12], bytes[13], bytes[14], bytes[15],
            bytes[16], bytes[17], bytes[18], bytes[19],
        ];
        proof {
            assert(o@ =~= bytes@.subrange(0, 8));
            assert(u@.subrange(0, 4) =~= bytes@.subrange(8, 12));
            assert(u@.subrange(4, 12) =~= bytes@.subrange(12, 20));
        }
        let offset = crate::le::u64_from_le_array(o);
        let Uid = Uid::from_le_bytes(u);
        IndexEntry { offset, Uid }
    }
}

/// Serializing and deserializing an entry gives it back.
pub proof fn lemma_entry_roundtrip(e: IndexEntry)
    ensures
        ({
            let b = spec_entry_bytes(e);
            &&& b.len() == 20
            &&& spec_u64_from_le_bytes(b.subrange(0, 8)) == e.offset
            &&& (spec_u64_from_le_bytes(b.subrange(12, 20)), spec_u32_from_le_bytes(
                b.subrange(8, 12),
            )) == e.Uid@
        }),
{
    lemma_auto_spec_u64_to_from_le_bytes();
    lemma_auto_spec_u32_to_from_le_bytes();
    let b = spec_entry_bytes(e);
    assert(b.subrange(0, 8) =~= spec_u64_to_le_bytes(e.offset));
    assert(b.subrange(8, 12) =~= spec_u32_to_le_bytes(e.Uid@.1));
    assert(b.subrange(12, 20) =~= spec_u64_to_le_bytes(e.Uid@.0));
}

/// One block of index entries.
#[derive(Debug, Clone, Copy)]
pub struct IndexBlock {
    /// The entries in this block.
    pub entries: [IndexEntry; ENTRIES_PER_BLOCK],
}

/// Index of the first entry that is null or sorts after `u`, scanning
/// from `from`.
pub open spec fn stop_index(e: Seq<IndexEntry>, u: (u64, u32), from: int) -> int
    decreases e.len() - from,
{
    if from >= e.len() {
        e.len() as int
    } else if e[from].offset == FILE_NULL || !uid_le(e[from].Uid@, u) {
        from
    } else {
        stop_index(e, u, from + 1)
    }
}

/// Number of entries that reference something.
pub open spec fn non_null_count(e: Seq<IndexEntry>) -> nat
    decreases e.len(),
{
    if e.len() == 0 {
        0
    } else {
        non_null_count(e.drop_last()) + if e.last().offset != FILE_NULL {
            1nat
        } else {
            0nat
        }
    }
}

impl IndexBlock {
    /// A block of null entries.
    pub fn new() -> (r: IndexBlock)
        ensures
            forall|i: int| 0 <= i < ENTRIES_PER_BLOCK ==> (#[trigger] r.entries@[i]).offset == FILE_NULL,
    {
        let n = IndexEntry::null();
        IndexBlock { entries: [n; 204] }
    }

    /// Serializes the block: the entries one after another, the rest of
    /// the block zero.
    pub fn to_bytes(&self) -> (r: [u8; 4096])
        ensures
            forall|i: int|
                0 <= i < ENTRIES_PER_BLOCK ==> r@.subrange(i * 20, i * 20 + 20) == spec_entry_bytes(
                    #[trigger] self.entries@[i],
                ),
    {
        let mut bytes = [0u8; 4096];
        let mut i: usize = 0;
        while i < 204
            invariant
                0 <= i <= 204,
                bytes@.len() == 4096,
                forall|k: int|
                    0 <= k < i ==> bytes@.subrange(k * 20, k * 20 + 20) == spec_entry_bytes(
                        #[trigger] self.entries@[k],
                    ),
            decreases 204 - i,
        {
            let eb = self.entries[i].to_bytes();
            let ghost before = bytes@;
            let mut j: usize = 0;
            while j < 20
                invariant
                    0 <= j <= 20,
                    i < 204,
                    bytes@.len() == 4096,
                    forall|p: int| 0 <= p < i * 20 ==> bytes@[p] == before[p],
                    forall|p: int| 0 <= p < j ==> bytes@[i * 20 + p] == eb@[p],
                decreases 20 - j,
            {
                bytes[i * 20 + j] = eb[j];
                j = j + 1;
            }
            proof {
                assert forall|k: int| 0 <= k < i + 1 implies bytes@.subrange(k * 20, k * 20 + 20)
                    == spec_entry_bytes(#[trigger] self.entries@[k]) by {
                    if k < i {
                        assert(bytes@.subrange(k * 20, k * 20 + 20) =~= before.subrange(
                            k * 20,
                            k * 20 + 20,
                        ));
                    } else {
                        assert(bytes@.subrange(k * 20, k * 20 + 20) =~= eb@);
                    }
                }
            }
            i = i + 1;
        }
        bytes
    }

    /// Deserializes a block.
    pub fn from_bytes(bytes: &[u8; 4096]) -> (r: IndexBlock)
        ensures
            forall|i: int|
                0 <= i < ENTRIES_PER_BLOCK ==> {
                    let e = #[trigger] r.entries@[i];
                    let b = bytes@.subrange(i * 20, i * 20 + 20);
                    &&& e.offset == spec_u64_from_le_bytes(b.subrange(0, 8))
                    &&& e.Uid@ == (spec_u64_from_le_bytes(b.subrange(12, 20)), spec_u32_from_le_bytes(
                        b.subrange(8, 12),
                    ))
                },
    {
        let n = IndexEntry::null();
        let mut entries = [n; 204];
        let mut i: usize = 0;
        while i < 204
            invariant
                0 <= i <= 204,
                forall|k: int|
                    0 <= k < i ==> {
                        let e = #[trigger] entries@[k];
                        let b = bytes@.subrange(k * 20, k * 20 + 20);
                        &&& e.offset == spec_u64_from_le_bytes(b.subrange(0, 8))
                        &&& e.Uid@ == (spec_u64_from_le_bytes(b.subrange(12, 20)), spec_u32_from_le_bytes(
                            b.subrange(8, 12),
                        ))
                    },
            decreases 204 - i,
        {
            let o = i * 20;
            let eb: [u8; 20] = [
                bytes[o], bytes[o + 1], bytes[o + 2], bytes[o + 3], bytes[o + 4], bytes[o + 5],
                bytes[o + 6], bytes[o + 7], bytes[o + 8], bytes[o + 9], bytes[o + 10], bytes[o + 11],
                bytes[o + 12], bytes[o + 13], bytes[o + 14], bytes[o + 15], bytes[o + 16], bytes[o + 17],
                bytes[o + 18], bytes[o + 19],
            ];
            proof {
                assert(eb@ =~= bytes@.subrange(o as int, o + 20));
            }
            entries[i] = IndexEntry::from_bytes(&eb);
            i = i + 1;
        }
        IndexBlock { entries }
    }

    /// The entry with the largest identifier at or before `uid`, scanning
    /// the leading non-null entries in order and stopping at the first
    /// that sorts after `uid`.
    pub fn find_le(&self, Uid: Uid) -> (r: Option<usize>)
        ensures
            ({
                let k = stop_index(self.entries@, Uid@, 0);
                r == if k == 0 { None } else { Some((k - 1) as usize) }
            }),
    {
        let mut i: usize = 0;
        while i < 204 && !self.entries[i].is_null() && self.entries[i].Uid <= Uid
            invariant
                0 <= i <= 204,
                self.entries@.len() == 204,
                stop_index(self.entries@, Uid@, 0) == stop_index(self.entries@, Uid@, i as int),
            decreases 204 - i,
        {
            i = i + 1;
        }
        if i == 0 {
            None
        } else {
            Some(i - 1)
        }
    }

    /// Number of non-null entries.
    pub fn count(&self) -> (r: usize)
        ensures
            r == non_null_count(self.entries@),
    {
        let mut i: usize = 0;
        let mut n: usize = 0;
        while i < 204
            invariant
                0 <= n <= i <= 204,
                self.entries@.len() == 204,
                n == non_null_count(self.entries@.subrange(0, i as int)),
            decreases 204 - i,
        {
            proof {
                let s = self.entries@.subrange(0, i as int + 1);
                assert(s.drop_last() =~= self.entries@.subrange(0, i as int));
                assert(s.last() == self.entries@[i as int]);
            }
            if !self.entries[i].is_null() {
                n = n + 1;
            }
            i = i + 1;
        }
        proof {
            assert(self.entries@.subrange(0, 204) =~= self.entries@);
        }
        n
    }
}

/// `ceil(n / ENTRIES_PER_BLOCK)`.
pub open spec fn blocks_for(n: nat) -> nat {
    ((n + 203) / 204) as nat
}

/// Sizes of the index levels over `n` data blocks (`n >= 1`), from the
/// level closest to the data up to the single root block.
pub open spec fn level_sizes(n: nat) -> Seq<nat>
    decreases n,
{
    let b = blocks_for(n);
    if n <= 1 || b <= 1 {
        seq![1nat]
    } else {
        seq![b] + level_sizes(b)
    }
}

/// Sum of a sequence of counts.
pub open spec fn sum_nat(s: Seq<nat>) -> nat
    decreases s.len(),
{
    if s.len() == 0 {
        0
    } else {
        s[0] + sum_nat(s.drop_first())
    }
}

proof fn lemma_level_sizes_bounds(n: nat)
    requires
        n >= 1,
    ensures
        level_sizes(n).len() >= 1,
        sum_nat(level_sizes(n)) <= n,
        forall|i: int| 0 <= i < level_sizes(n).len() ==> #[trigger] level_sizes(n)[i] >= 1,
    decreases n,
{
    let b = blocks_for(n);
    if n <= 1 || b <= 1 {
        reveal_with_fuel(sum_nat, 2);
    } else {
        assert(2 * b <= n) by (nonlinear_arith)
            requires
                b == (n + 203) / 204,
                b >= 2,
        ;
        lemma_level_sizes_bounds(b);
        let s = seq![b] + level_sizes(b);
        assert(s.drop_first() =~= level_sizes(b));
        assert forall|i: int| 0 <= i < s.len() implies #[trigger] s[i] >= 1 by {
            if i > 0 {
                assert(s[i] == level_sizes(b)[i - 1]);
            }
        }
    }
}

/// `ceil(n / ENTRIES_PER_BLOCK)` computed without overflow.
fn ceil_blocks(n: usize) -> (r: usize)
    ensures
        r as nat == blocks_for(n as nat),
{
    let q = n / 204;
    let rem = n % 204;
    proof {
        vstd::arithmetic::div_mod::lemma_fundamental_div_mod(n as int, 204);
        if rem == 0 {
            vstd::arithmetic::div_mod::lemma_fundamental_div_mod_converse(
                n + 203,
                204,
                q as int,
                203,
            );
        } else {
            vstd::arithmetic::div_mod::lemma_fundamental_div_mod_converse(
                n + 203,
                204,
                q + 1,
                rem - 1,
            );
        }
    }
    if rem == 0 {
        q
    } else {
        q + 1
    }
}

/// Minimum number of index blocks for `data_blocks` data blocks (one for
/// none).
pub fn compute_index_blocks(data_blocks: usize) -> (r: usize)
    ensures
        r == if data_blocks == 0 { 1 } else { sum_nat(level_sizes(data_blocks as nat)) },
{
    if data_blocks == 0 {
        return 1;
    }
    proof {
        lemma_level_sizes_bounds(data_blocks as nat);
    }
    let mut blocks_to_index = data_blocks;
    let mut total_index_blocks: usize = 0;
    loop
        invariant_except_break
            total_index_blocks + sum_nat(level_sizes(blocks_to_index as nat)) == sum_nat(
                level_sizes(data_blocks as nat),
            ),
        invariant
            1 <= blocks_to_index <= data_blocks,
            sum_nat(level_sizes(data_blocks as nat)) <= data_blocks,
        ensures
            total_index_blocks == sum_nat(level_sizes(data_blocks as nat)),
        decreases blocks_to_index,
    {
        let blocks_this_level = ceil_blocks(blocks_to_index);
        proof {
            lemma_level_sizes_bounds(blocks_to_index as nat);
            reveal_with_fuel(sum_nat, 2);
            if blocks_this_level > 1 {
                let s = seq![blocks_this_level as nat] + level_sizes(blocks_this_level as nat);
                assert(s.drop_first() =~= level_sizes(blocks_this_level as nat));
            }
        }
        total_index_blocks += blocks_this_level;
        if blocks_this_level == 1 {
            proof {
                assert(level_sizes(blocks_to_index as nat) =~= seq![1nat]);
            }
            break;
        }
        blocks_to_index = blocks_this_level;
    }
    if total_index_blocks < 1 {
        1
    } else {
        total_index_blocks
    }
}

/// Shape of the index over a number of data blocks.
#[derive(Debug)]
pub struct IndexStructure {
    /// Number of levels.
    pub levels: usize,
    /// Total number of index blocks.
    pub total_blocks: usize,
    /// Blocks at each level; level 0 is the root, closest to the header.
    pub blocks_per_level: Vec<usize>,
}

/// The level sizes as machine integers.
pub open spec fn usizes_view(v: Seq<usize>) -> Seq<nat> {
    v.map_values(|x: usize| x as nat)
}

impl IndexStructure {
    /// Computes the index shape for `data_blocks` data blocks: one root
    /// block for none, else the levels from the root down.
    pub fn compute<'a>(data_blocks: usize) -> (r: Result<Self, TcsLogError<'a>>)
        ensures
            r matches Ok(s) && ({
                let sizes = if data_blocks == 0 { seq![1nat] } else { level_sizes(data_blocks as nat) };
                &&& usizes_view(s.blocks_per_level@) == sizes.reverse()
                &&& s.levels == sizes.len()
                &&& s.total_blocks == sum_nat(sizes)
            }),
    {
        if data_blocks == 0 {
            let mut v: Vec<usize> = Vec::new();
            v.push(1);
            proof {
                assert(usizes_view(v@) =~= seq![1nat].reverse());
                reveal_with_fuel(sum_nat, 2);
            }
            return Ok(IndexStructure { levels: 1, total_blocks: 1, blocks_per_level: v });
        }
        proof {
            lemma_level_sizes_bounds(data_blocks as nat);
        }
        let ghost all = level_sizes(data_blocks as nat);
        let mut top_down: Vec<usize> = Vec::new();
        let mut blocks_to_index = data_blocks;
        let mut total: usize = 0;
        loop
            invariant_except_break
                usizes_view(top_down@) + level_sizes(blocks_to_index as nat) == all,
                total + sum_nat(level_sizes(blocks_to_index as nat)) == sum_nat(all),
            invariant
                1 <= blocks_to_index <= data_blocks,
                    all == level_sizes(data_blocks as nat),
                sum_nat(all) <= data_blocks,
            ensures
                usizes_view(top_down@) == all,
                total == sum_nat(all),
            decreases blocks_to_index,
        {
            let blocks_this_level = ceil_blocks(blocks_to_index);
            let ghost rest = level_sizes(blocks_to_index as nat);
            proof {
                lemma_level_sizes_bounds(blocks_to_index as nat);
                reveal_with_fuel(sum_nat, 2);
                if blocks_this_level > 1 {
                    let s = seq![blocks_this_level as nat] + level_sizes(blocks_this_level as nat);
                    assert(s.drop_first() =~= level_sizes(blocks_this_level as nat));
                }
            }
            top_down.push(blocks_this_level);
            total += blocks_this_level;
            if blocks_this_level == 1 {
                proof {
                    assert(rest =~= seq![1nat]);
                    assert(usizes_view(top_down@) =~= all);
                }
                break;
            }
            proof {
                assert(usizes_view(top_down@) + level_sizes(blocks_this_level as nat) =~= all);
            }
            blocks_to_index = blocks_this_level;
        }
        // Reverse so level 0 is the root.
        let mut blocks_per_level: Vec<usize> = Vec::new();
        let n = top_down.len();
        let mut i: usize = 0;
        while i < n
            invariant
                n == top_down@.len(),
                0 <= i <= n,
                usizes_view(blocks_per_level@) == usizes_view(top_down@).reverse().subrange(0, i as int),
            decreases n - i,
        {
            let ghost old_view = usizes_view(blocks_per_level@);
            blocks_per_level.push(top_down[n - 1 - i]);
            proof {
                let tv = usizes_view(top_down@);
                assert(tv.len() == n);
                assert(tv.reverse()[i as int] == tv[n - 1 - i]);
                assert(usizes_view(blocks_per_level@) =~= old_view.push(tv[n - 1 - i]));
                assert(usizes_view(blocks_per_level@) =~= usizes_view(top_down@).reverse().subrange(
                    0,
                    i + 1,
                ));
            }
            i = i + 1;
        }
        proof {
            assert(usizes_view(top_down@).reverse().subrange(0, n as int) =~= usizes_view(top_down@).reverse());
        }
        let levels = blocks_per_level.len();
        Ok(IndexStructure { levels, total_blocks: total, blocks_per_level })
    }
}

/// `compute_index_blocks(n)` is the `total_blocks` of
/// `IndexStructure::compute(n)`, for every number of data blocks.
pub proof fn lemma_index_block_count_agrees(n: nat)
    ensures
        sum_nat(if n == 0 { seq![1nat] } else { level_sizes(n) }) == if n == 0 {
            1
        } else {
            sum_nat(level_sizes(n))
        },
{
    reveal_with_fuel(sum_nat, 2);
    assert(seq![1nat].drop_first() =~= Seq::<nat>::empty());
}

} // verus!
