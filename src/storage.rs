//! The decisions of the storage tiers: size-tiered compaction of the in-memory queue,
//! when to rotate the active block, and how a search reads the posting lists it needs.
use std::sync::Arc;
use vstd::prelude::*;

use crate::block::{
    lemma_merge_posting, shift, BlockData, InMemoryBlock, Index, SearchBlock, StorageError,
    Timestamp,
};

verus! {

/// A block is merged into the one before it while that one is smaller than this many times
/// its size.
pub const MERGE_RATIO: u64 = 4;

/// Whether the closed ranges `a` and `b` meet as the storage compares them: `a` starts no
/// later than `b` ends and ends no later than `b` starts.
pub fn range_intersect(a: (u64, u64), b: (u64, u64)) -> (r: bool)
    requires
        a.0 <= a.1,
        b.0 <= b.1,
    ensures
        r == (a.0 <= b.1 && a.1 <= b.0),
{
    a.0 <= b.1 && a.1 <= b.0
}

/// Settings of a storage.
#[derive(Debug, Clone, Default)]
pub struct Config {
    /// Directory of the block files.
    pub data_dir: String,
    /// Count of (document, tag) pairs at which the active block is sealed.
    pub max_active_size: u64,
    /// Count of (document, tag) pairs above which a compacted block goes to disk.
    pub max_block_size: u64,
}

impl Config {
    /// Whether an active block of this size is full: writers wait, and the worker seals it.
    pub fn active_full(&self, size: u64) -> (r: bool)
        ensures
            r == (size >= self.max_active_size),
    {
        size >= self.max_active_size
    }
}

/// A document as clients hand it in.
#[derive(Debug, Clone, PartialEq, PartialOrd)]
pub struct Document {
    pub key: String,
    pub tags: Vec<String>,
}

/// The seconds and the nanoseconds within the second of a timestamp in milliseconds.
pub fn unix_parts(ts: Timestamp) -> (r: (u64, u32))
    ensures
        r.0 == ts / 1000,
        r.1 == (ts % 1000) * 1_000_000,
{
    (ts / 1000, ((ts % 1000) * 1_000_000) as u32)
}

/// Walks the indices of a tier's blocks from the newest to the oldest.
#[derive(Debug, Clone, Copy)]
pub struct StorageLockedIter {
    pub cur: usize,
}

impl StorageLockedIter {
    /// A walk over `len` blocks.
    pub fn new(len: usize) -> (r: StorageLockedIter)
        ensures
            r.cur == len,
    {
        StorageLockedIter { cur: len }
    }

    /// The index of the next block, newest first.
    pub fn next(&mut self) -> (r: Option<usize>)
        ensures
            old(self).cur == 0 ==> r is None && final(self).cur == 0,
            old(self).cur > 0 ==> r == Some((old(self).cur - 1) as usize) && final(self).cur
                == old(self).cur - 1,
    {
        if self.cur > 0 {
            self.cur = self.cur - 1;
            Some(self.cur)
        } else {
            None
        }
    }
}

/// The sizes of the blocks.
pub open spec fn sizes(s: Seq<InMemoryBlock>) -> Seq<int> {
    s.map_values(|b: InMemoryBlock| b.size as int)
}

/// The keys of all the blocks, oldest block first.
pub open spec fn all_keys(s: Seq<InMemoryBlock>) -> Seq<String>
    decreases s.len(),
{
    if s.len() == 0 {
        Seq::empty()
    } else {
        all_keys(s.drop_last()) + s.last().data.keys@
    }
}

pub open spec fn total_size(s: Seq<int>) -> int
    decreases s.len(),
{
    if s.len() == 0 {
        0
    } else {
        total_size(s.drop_last()) + s.last()
    }
}

/// The last two merge while the one before the last is smaller than `MERGE_RATIO` times the
/// last.
pub open spec fn needs_merge(s: Seq<int>) -> bool {
    s.len() >= 2 && s[s.len() - 2] < MERGE_RATIO * s[s.len() - 1]
}

/// The sizes after compaction: the last two merged, over and over, while they need it.
pub open spec fn settle(s: Seq<int>) -> Seq<int>
    decreases s.len(),
{
    if needs_merge(s) {
        settle(s.subrange(0, s.len() - 2).push(s[s.len() - 2] + s[s.len() - 1]))
    } else {
        s
    }
}

/// Non-empty well-formed blocks, each ending no later than the next begins.
pub open spec fn ordered_blocks(s: Seq<InMemoryBlock>) -> bool {
    &&& forall|i: int| 0 <= i < s.len() ==> (#[trigger] s[i]).wf() && s[i].data.keys@.len() > 0
    &&& forall|i: int|
        0 <= i < s.len() - 1 ==> (#[trigger] s[i]).data.precedes(&s[i + 1].data)
}

proof fn lemma_total_size_nonneg(s: Seq<int>)
    requires
        forall|i: int| 0 <= i < s.len() ==> s[i] >= 0,
    ensures
        total_size(s) >= 0,
    decreases s.len(),
{
    if s.len() > 0 {
        lemma_total_size_nonneg(s.drop_last());
    }
}

/// The keys of a run of blocks, in order.
pub open spec fn run_keys(s: Seq<InMemoryBlock>) -> Seq<String>
    decreases s.len(),
{
    if s.len() == 0 {
        Seq::empty()
    } else {
        s[0].data.keys@ + run_keys(s.drop_first())
    }
}

/// The timestamps of a run of blocks, in order.
pub open spec fn run_timestamps(s: Seq<InMemoryBlock>) -> Seq<Timestamp>
    decreases s.len(),
{
    if s.len() == 0 {
        Seq::empty()
    } else {
        s[0].data.timestamps@ + run_timestamps(s.drop_first())
    }
}

/// The sizes of a run of blocks, added up.
pub open spec fn run_size(s: Seq<InMemoryBlock>) -> int
    decreases s.len(),
{
    if s.len() == 0 {
        0
    } else {
        s[0].size + run_size(s.drop_first())
    }
}

/// Some block of the run has tag `t`.
pub open spec fn run_has_tag(s: Seq<InMemoryBlock>, t: Seq<char>) -> bool
    decreases s.len(),
{
    s.len() > 0 && (s[0].data.tag_seq().contains(t) || run_has_tag(s.drop_first(), t))
}

/// The postings of tag `t` over a run of blocks: each block's, moved past the documents of
/// the blocks before it.
pub open spec fn run_posting(s: Seq<InMemoryBlock>, t: Seq<char>) -> Seq<Index>
    decreases s.len(),
{
    if s.len() == 0 {
        Seq::empty()
    } else {
        s[0].data.posting(t) + shift(run_posting(s.drop_first(), t), s[0].data.keys@.len() as int)
    }
}

/// Block `m` is the run `s` merged into one: the keys and timestamps of the run in order,
/// the tags of any of its blocks, each tag's postings over the run, and the sizes added up.
pub open spec fn merged_run(s: Seq<InMemoryBlock>, m: InMemoryBlock) -> bool {
    &&& m.data.keys@ == run_keys(s)
    &&& m.data.timestamps@ == run_timestamps(s)
    &&& m.size == run_size(s)
    &&& forall|t: Seq<char>| #[trigger] m.data.tag_seq().contains(t) <==> run_has_tag(s, t)
    &&& forall|t: Seq<char>| #[trigger] m.data.posting(t) == run_posting(s, t)
}

/// The queue with the block handed out, if any, put back at its end.
pub open spec fn with_out(list: Seq<InMemoryBlock>, r: Option<InMemoryBlock>) -> Seq<
    InMemoryBlock,
> {
    match r {
        Some(b) => list.push(b),
        None => list,
    }
}

/// The blocks of `old` before `k` stay as they were, and the last block of `now` is the
/// rest of `old` merged.
pub open spec fn compacted_from(old: Seq<InMemoryBlock>, now: Seq<InMemoryBlock>) -> bool {
    &&& 1 <= now.len() <= old.len()
    &&& forall|i: int| 0 <= i < now.len() - 1 ==> #[trigger] now[i] == old[i]
    &&& merged_run(old.skip(now.len() - 1), now.last())
}

proof fn lemma_run_single(s: Seq<InMemoryBlock>)
    requires
        s.len() == 1,
    ensures
        merged_run(s, s[0]),
{
    let e = s.drop_first();
    assert(e.len() == 0);
    assert(run_keys(e) == Seq::<String>::empty());
    assert(run_timestamps(e) == Seq::<Timestamp>::empty());
    assert(run_size(e) == 0);
    assert forall|t: Seq<char>| run_posting(e, t) == Seq::<Index>::empty() && !run_has_tag(e, t) by {}
    assert(run_keys(s) =~= s[0].data.keys@);
    assert(run_timestamps(s) =~= s[0].data.timestamps@);
    assert forall|t: Seq<char>| #[trigger] s[0].data.posting(t) == run_posting(s, t) by {
        assert(run_posting(e, t) == Seq::<Index>::empty());
        assert(shift(run_posting(e, t), s[0].data.keys@.len() as int) =~= Seq::<Index>::empty());
        assert(run_posting(s, t) =~= s[0].data.posting(t));
    }
    assert forall|t: Seq<char>| #[trigger] s[0].data.tag_seq().contains(t) <==> run_has_tag(s, t) by {
        assert(!run_has_tag(e, t));
    }
}

proof fn lemma_run_step(
    old: Seq<InMemoryBlock>,
    k: int,
    prev: InMemoryBlock,
    m: InMemoryBlock,
    merged: InMemoryBlock,
)
    requires
        1 <= k < old.len(),
        old[k - 1] == prev,
        merged_run(old.skip(k), m),
        BlockData::is_merge_of(&prev.data, &m.data, &merged.data),
        merged.data.wf(),
        merged.size == prev.size + m.size,
    ensures
        merged_run(old.skip(k - 1), merged),
{
    let s = old.skip(k - 1);
    assert(s.drop_first() =~= old.skip(k));
    assert(s[0] == prev);
    assert forall|t: Seq<char>| #[trigger] merged.data.posting(t) == run_posting(s, t) by {
        lemma_merge_posting(&prev.data, &m.data, &merged.data, t);
    }
    assert forall|t: Seq<char>| #[trigger] merged.data.tag_seq().contains(t) <==> run_has_tag(s, t) by {
        assert(m.data.tag_seq().contains(t) <==> run_has_tag(old.skip(k), t));
    }
}

/// Applies the merge rule to the queue of in-memory blocks, oldest first, and then takes
/// out the last block if it has grown over `max_block_size`, for the caller to store.
pub fn compact(list: &mut Vec<InMemoryBlock>, max_block_size: u64) -> (r: Option<InMemoryBlock>)
    requires
        ordered_blocks(old(list)@),
        all_keys(old(list)@).len() <= u64::MAX,
        total_size(sizes(old(list)@)) <= u64::MAX,
    ensures
        ordered_blocks(final(list)@),
        r matches Some(b) ==> b.wf() && b.data.keys@.len() > 0 && all_keys(final(list)@)
            + b.data.keys@ == all_keys(old(list)@) && sizes(final(list)@).push(b.size as int)
            == settle(sizes(old(list)@)) && b.size > max_block_size && (final(list)@.len() > 0
            ==> final(list)@.last().data.precedes(&b.data)),
        r is None ==> all_keys(final(list)@) == all_keys(old(list)@) && sizes(final(list)@)
            == settle(sizes(old(list)@)) && (final(list)@.len() == 0 || final(list)@.last().size
            <= max_block_size),
        old(list)@.len() > 0 ==> compacted_from(old(list)@, with_out(final(list)@, r)),
        old(list)@.len() == 0 ==> r is None && final(list)@.len() == 0,
{
    let ghost target = settle(sizes(list@));
    let ghost keys = all_keys(list@);
    let ghost total = total_size(sizes(list@));
    let ghost start = list@;
    proof {
        if start.len() > 0 {
            assert(start.skip(start.len() - 1) =~= seq![start.last()]);
            lemma_run_single(start.skip(start.len() - 1));
        }
    }
    loop
        invariant
            start == old(list)@,
            start.len() > 0 ==> compacted_from(start, list@),
            start.len() == 0 ==> list@.len() == 0,
            ordered_blocks(list@),
            all_keys(list@) == keys,
            keys.len() <= u64::MAX,
            total_size(sizes(list@)) == total,
            total <= u64::MAX,
            settle(sizes(list@)) == target,
        ensures
            start.len() > 0 ==> compacted_from(start, list@),
            start.len() == 0 ==> list@.len() == 0,
            ordered_blocks(list@),
            all_keys(list@) == keys,
            settle(sizes(list@)) == target,
            !needs_merge(sizes(list@)),
        decreases list@.len(),
    {
        let n = list.len();
        if n < 2 {
            break;
        }
        if list[n - 2].size / MERGE_RATIO >= list[n - 1].size {
            proof {
                let p = list@[n - 2].size as int;
                let l = list@[n - 1].size as int;
                assert(p / 4 >= l ==> p >= 4 * l) by (nonlinear_arith);
            }
            break;
        }
        let ghost before = list@;
        let last = list.pop().unwrap();
        let prev = list.pop().unwrap();
        proof {
            let s = sizes(before);
            assert(s.subrange(0, s.len() - 2) =~= sizes(list@));
            assert(needs_merge(s));
            assert(before.drop_last() =~= list@.push(prev));
            assert(before.drop_last().drop_last() =~= list@);
            assert(before.last() == last);
            assert(list@.push(prev).drop_last() =~= list@);
            assert(list@.push(prev).last() == prev);
            assert(all_keys(list@.push(prev)) == all_keys(list@) + prev.data.keys@);
            assert(all_keys(before) == all_keys(list@) + prev.data.keys@ + last.data.keys@);
            assert(sizes(before).drop_last() =~= sizes(list@).push(prev.size as int));
            assert(sizes(list@).push(prev.size as int).drop_last() =~= sizes(list@));
            assert(sizes(before).last() == last.size);
            assert(total_size(sizes(list@).push(prev.size as int)) == total_size(sizes(list@))
                + prev.size);
            assert(total_size(sizes(before)) == total_size(sizes(list@)) + prev.size + last.size);
            assert forall|i: int| 0 <= i < sizes(list@).len() implies sizes(list@)[i] >= 0 by {}
            lemma_total_size_nonneg(sizes(list@));
            assert(all_keys(list@).len() >= 0);
            assert(prev.data.precedes(&last.data)) by {
                assert(before[n - 2] == prev);
                assert(before[n - 1] == last);
            }
        }
        let merged = prev.merge(last);
        list.push(merged);
        proof {
            let kk = n - 1;
            assert(before.len() == list@.len() + 1);
            assert(prev == start[kk - 1]);
            assert(before.last() == last);
            lemma_run_step(start, kk as int, prev, last, merged);
            assert forall|i: int| 0 <= i < list@.len() - 1 implies #[trigger] list@[i] == start[i] by {
                assert(list@[i] == before[i]);
            }
            let s = sizes(before);
            assert(sizes(list@) =~= s.subrange(0, s.len() - 2).push(s[s.len() - 2] + s[s.len()
                - 1]));
            assert(list@.drop_last() =~= before.drop_last().drop_last());
            assert(sizes(list@).drop_last() =~= sizes(before).drop_last().drop_last());
            assert(sizes(list@).last() == prev.size + last.size);
            assert(list@.last() == merged);
            assert(all_keys(list@) == all_keys(list@.drop_last()) + merged.data.keys@);
            assert(merged.data.timestamps@.first() == prev.data.timestamps@.first());
            assert(merged.data.timestamps@.last() == last.data.timestamps@.last());
            assert forall|i: int| 0 <= i < list@.len() implies (#[trigger] list@[i]).wf()
                && list@[i].data.keys@.len() > 0 by {
                if i < n - 2 {
                    assert(list@[i] == before[i]);
                }
            }
            assert forall|i: int| 0 <= i < list@.len() - 1 implies (
            #[trigger] list@[i]).data.precedes(&list@[i + 1].data) by {
                assert(list@[i] == before[i]);
                if i + 1 < n - 2 {
                    assert(list@[i + 1] == before[i + 1]);
                } else {
                    assert(before[i].data.precedes(&before[i + 1].data));
                }
            }
        }
    }
    proof {
        assert(!needs_merge(sizes(list@)));
    }
    let n = list.len();
    if n > 0 && list[n - 1].size > max_block_size {
        let ghost before = list@;
        let b = list.pop().unwrap();
        proof {
            assert(before.drop_last() =~= list@);
            assert(sizes(before) =~= sizes(list@).push(b.size as int));
            assert forall|i: int| 0 <= i < list@.len() - 1 implies (
            #[trigger] list@[i]).data.precedes(&list@[i + 1].data) by {
                assert(list@[i] == before[i]);
                assert(list@[i + 1] == before[i + 1]);
            }
            if list@.len() > 0 {
                assert(before[n - 2].data.precedes(&before[n - 1].data));
            }
        }
        Some(b)
    } else {
        None
    }
}

/// Every posting list asked for is loaded or can be loaded.
pub open spec fn all_readable<B: SearchBlock>(block: B, ids: Seq<usize>) -> bool {
    forall|i: int|
        0 <= i < ids.len() ==> (#[trigger] block.block().index@[ids[i] as int]).is_some()
            || block.loadable(ids[i] as int)
}

/// Every posting list asked for is loaded.
pub open spec fn all_present<B: SearchBlock>(block: B, ids: Seq<usize>) -> bool {
    forall|i: int| 0 <= i < ids.len() ==> (#[trigger] block.block().index@[ids[i] as int]).is_some()
}

/// The posting lists `ids` of `block`, in the order asked: those already present are taken
/// as they are, and only the missing ones are loaded, in order, the first failure ending
/// the call.
pub fn read_indicies<B: SearchBlock>(block: &mut B, ids: &Vec<usize>) -> (r: Result<
    Vec<Arc<Vec<Index>>>,
    StorageError,
>)
    requires
        old(block).inv(),
        forall|i: int| 0 <= i < ids@.len() ==> ids@[i] < old(block).block().index@.len(),
    ensures
        final(block).inv(),
        final(block).block().tags@ == old(block).block().tags@,
        final(block).block().keys@ == old(block).block().keys@,
        r matches Ok(v) ==> v@.len() == ids@.len() && forall|i: int|
            0 <= i < ids@.len() ==> final(block).block().index@[#[trigger] ids@[i] as int] == Some(
                v@[i],
            ),
        forall|i: int|
            0 <= i < ids@.len() && old(block).block().index@[#[trigger] ids@[i] as int].is_some()
                ==> final(block).block().index@[ids@[i] as int] == old(block).block().index@[ids@[i] as int],
        all_present(*old(block), ids@) ==> r is Ok && *final(block) == *old(block),
        all_readable(*old(block), ids@) ==> r is Ok,
        r is Err ==> !all_present(*old(block), ids@),
        r matches Err(e) ==> exists|i: int|
            0 <= i < ids@.len() && (#[trigger] final(block).block().index@[ids@[i] as int]) is None
                && e == final(block).load_error(ids@[i] as int) && forall|j: int|
                0 <= j < i ==> (#[trigger] final(block).block().index@[ids@[j] as int]).is_some(),
{
    let mut missing = false;
    let mut k: usize = 0;
    while k < ids.len()
        invariant
            block.inv(),
            *block == *old(block),
            k <= ids@.len(),
            forall|i: int| 0 <= i < ids@.len() ==> ids@[i] < block.block().index@.len(),
            !missing ==> forall|j: int|
                0 <= j < k ==> (#[trigger] block.block().index@[ids@[j] as int]).is_some(),
            missing ==> !all_present(*old(block), ids@),
        decreases ids@.len() - k,
    {
        if block.try_get_index(ids[k]).is_none() {
            missing = true;
        }
        k += 1;
    }
    if missing {
        let mut k: usize = 0;
        while k < ids.len()
            invariant
                block.inv(),
                !all_present(*old(block), ids@),
                k <= ids@.len(),
                block.block().tags@ == old(block).block().tags@,
                block.block().keys@ == old(block).block().keys@,
                block.block().index@.len() == old(block).block().index@.len(),
                forall|i: int| 0 <= i < ids@.len() ==> ids@[i] < block.block().index@.len(),
                forall|i: int|
                    0 <= i < ids@.len() && old(block).block().index@[#[trigger] ids@[i] as int].is_some()
                        ==> block.block().index@[ids@[i] as int] == old(block).block().index@[ids@[i] as int],
                forall|j: int|
                    0 <= j < k ==> (#[trigger] block.block().index@[ids@[j] as int]).is_some(),
                all_readable(*old(block), ids@) ==> forall|i: int|
                    k <= i < ids@.len() ==> (#[trigger] block.block().index@[ids@[i] as int]).is_some()
                        || block.loadable(ids@[i] as int),
            decreases ids@.len() - k,
        {
            if block.try_get_index(ids[k]).is_none() {
                let ghost before = *block;
                match block.read_index(ids[k]) {
                    Ok(()) => {},
                    Err(e) => {
                        proof {
                            assert(block.block().index@[ids@[k as int] as int] is None);
                            assert(forall|j: int|
                                0 <= j < k ==> (#[trigger] block.block().index@[ids@[j] as int]).is_some());
                        }
                        return Err(e);
                    },
                }
                proof {
                    assert forall|i: int|
                        k + 1 <= i < ids@.len() && all_readable(*old(block), ids@) implies (
                        #[trigger] block.block().index@[ids@[i] as int]).is_some() || block.loadable(
                        ids@[i] as int,
                    ) by {
                        if before.block().index@[ids@[i] as int].is_some() {
                        } else {
                            assert(before.loadable(ids@[i] as int));
                        }
                    }
                    assert forall|i: int|
                        0 <= i < ids@.len() && old(block).block().index@[#[trigger] ids@[i] as int].is_some()
                            implies block.block().index@[ids@[i] as int] == old(block).block().index@[ids@[i] as int] by {
                        assert(before.block().index@[ids@[i] as int].is_some());
                    }
                    assert forall|j: int| 0 <= j < k + 1 implies (
                    #[trigger] block.block().index@[ids@[j] as int]).is_some() by {
                        if j < k {
                            assert(before.block().index@[ids@[j] as int].is_some());
                        }
                    }
                }
            }
            k += 1;
        }
    }
    let mut out: Vec<Arc<Vec<Index>>> = Vec::new();
    let mut k: usize = 0;
    while k < ids.len()
        invariant
            block.inv(),
            block.block().tags@ == old(block).block().tags@,
            block.block().keys@ == old(block).block().keys@,
            block.block().index@.len() == old(block).block().index@.len(),
            !missing ==> *block == *old(block),
            forall|i: int|
                0 <= i < ids@.len() && old(block).block().index@[#[trigger] ids@[i] as int].is_some()
                    ==> block.block().index@[ids@[i] as int] == old(block).block().index@[ids@[i] as int],
            forall|j: int|
                0 <= j < ids@.len() ==> (#[trigger] block.block().index@[ids@[j] as int]).is_some(),
            k <= ids@.len(),
            out@.len() == k,
            forall|i: int| 0 <= i < ids@.len() ==> ids@[i] < block.block().index@.len(),
            forall|i: int|
                0 <= i < k ==> block.block().index@[#[trigger] ids@[i] as int] == Some(out@[i]),
        decreases ids@.len() - k,
    {
        match block.try_get_index(ids[k]) {
            Some(list) => out.push(list),
            None => return Err(StorageError::IndexNotLoaded),
        }
        k += 1;
    }
    Ok(out)
}

/// Adds a sealed block at the end of the queue and compacts it, giving back the block to
/// store if one comes out. A block without documents is dropped. Fails, changing nothing,
/// where the block begins before the last queued one ends, or where the queue's counts
/// would no longer fit in 64 bits.
pub fn enqueue(list: &mut Vec<InMemoryBlock>, block: InMemoryBlock, max_block_size: u64) -> (r:
    Result<Option<InMemoryBlock>, StorageError>)
    requires
        ordered_blocks(old(list)@),
        block.wf(),
    ensures
        block.data.keys@.len() == 0 ==> r == Ok::<Option<InMemoryBlock>, StorageError>(None)
            && final(list)@ == old(list)@,
        block.data.keys@.len() > 0 && old(list)@.len() > 0 && !old(list)@.last().data.precedes(
            &block.data,
        ) ==> r == Err::<Option<InMemoryBlock>, StorageError>(StorageError::Overlap),
        r == Err::<Option<InMemoryBlock>, StorageError>(StorageError::Overlap) ==> block.data.keys@.len()
            > 0 && old(list)@.len() > 0 && !old(list)@.last().data.precedes(&block.data),
        r is Err ==> r == Err::<Option<InMemoryBlock>, StorageError>(StorageError::Overlap) || r
            == Err::<Option<InMemoryBlock>, StorageError>(StorageError::Overflow),
        r is Err ==> final(list)@ == old(list)@,
        r == Err::<Option<InMemoryBlock>, StorageError>(StorageError::Overflow) <==> (
        block.data.keys@.len() > 0 && (old(list)@.len() == 0 || old(list)@.last().data.precedes(
            &block.data,
        )) && (all_keys(old(list)@.push(block)).len() > u64::MAX || total_size(
            sizes(old(list)@.push(block)),
        ) > u64::MAX)),
        ordered_blocks(final(list)@),
        block.data.keys@.len() > 0 && r is Ok ==> compacted_from(
            old(list)@.push(block),
            with_out(final(list)@, r->Ok_0),
        ),
        r matches Ok(Some(b)) ==> b.wf() && all_keys(final(list)@) + b.data.keys@ == all_keys(
            old(list)@.push(block),
        ) && sizes(final(list)@).push(b.size as int) == settle(sizes(old(list)@.push(block)))
            && b.size > max_block_size,
        block.data.keys@.len() > 0 && r == Ok::<Option<InMemoryBlock>, StorageError>(None)
            ==> all_keys(final(list)@) == all_keys(old(list)@.push(block)) && sizes(final(list)@)
            == settle(sizes(old(list)@.push(block))),
{
    if block.data.keys.len() == 0 {
        return Ok(None);
    }
    let n = list.len();
    if n > 0 {
        let last = &list[n - 1];
        let end = last.data.timestamps[last.data.timestamps.len() - 1];
        if end > block.data.timestamps[0] {
            return Err(StorageError::Overlap);
        }
    }
    let ghost s = list@.push(block);
    let mut keys: u64 = 0;
    let mut size: u64 = 0;
    let mut overflow = false;
    let mut k: usize = 0;
    while k < list.len()
        invariant
            k <= list@.len(),
            s == list@.push(block),
            !overflow ==> keys == all_keys(list@.take(k as int)).len() && size == total_size(
                sizes(list@.take(k as int)),
            ),
            overflow ==> all_keys(s).len() > u64::MAX || total_size(sizes(s)) > u64::MAX,
        decreases list@.len() - k,
    {
        if !overflow {
            let b = &list[k];
            proof {
                assert(list@.take(k + 1).drop_last() =~= list@.take(k as int));
                assert(sizes(list@.take(k + 1)).drop_last() =~= sizes(list@.take(k as int)));
            }
            if b.data.keys.len() as u64 > u64::MAX - keys || b.size > u64::MAX - size {
                overflow = true;
                proof {
                    assert(list@.take(k + 1).last() == list@[k as int]);
                    assert(sizes(list@.take(k + 1)).last() == list@[k as int].size);
                    assert(s.take(k + 1) =~= list@.take(k + 1));
                    lemma_totals_grow(s, k + 1);
                }
            } else {
                keys = keys + b.data.keys.len() as u64;
                size = size + b.size;
                proof {
                    assert(list@.take(k + 1).last() == list@[k as int]);
                    assert(sizes(list@.take(k + 1)).last() == list@[k as int].size);
                }
            }
        }
        k += 1;
    }
    if !overflow {
        proof {
            assert(list@.take(list@.len() as int) =~= list@);
        }
        if block.data.keys.len() as u64 > u64::MAX - keys || block.size > u64::MAX - size {
            overflow = true;
            proof {
                assert(s.drop_last() =~= list@);
                assert(sizes(s).drop_last() =~= sizes(list@));
            }
        }
    }
    if overflow {
        return Err(StorageError::Overflow);
    }
    proof {
        assert(s.drop_last() =~= list@);
        assert(sizes(s).drop_last() =~= sizes(list@));
    }
    list.push(block);
    proof {
        assert forall|i: int| 0 <= i < list@.len() - 1 implies (
        #[trigger] list@[i]).data.precedes(&list@[i + 1].data) by {
            if i + 1 < n {
                assert(old(list)@[i].data.precedes(&old(list)@[i + 1].data));
            }
        }
    }
    Ok(compact(list, max_block_size))
}

/// The counts of a prefix never exceed those of the whole.
proof fn lemma_totals_grow(s: Seq<InMemoryBlock>, k: int)
    requires
        0 <= k <= s.len(),
    ensures
        all_keys(s.take(k)).len() <= all_keys(s).len(),
        total_size(sizes(s.take(k))) <= total_size(sizes(s)),
    decreases s.len() - k,
{
    if k < s.len() {
        lemma_totals_grow(s, k + 1);
        assert(s.take(k + 1).drop_last() =~= s.take(k));
        assert(sizes(s.take(k + 1)).drop_last() =~= sizes(s.take(k)));
    } else {
        assert(s.take(k) =~= s);
    }
}

} // verus!
