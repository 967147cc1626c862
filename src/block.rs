//! Blocks of documents with their inverted tag index, and the merge of two of them.
use std::sync::Arc;
use vstd::prelude::*;

use crate::order::{
    compare_str, lemma_lt_irreflexive, lemma_lt_transitive,
    lemma_sorted_unique, seq_lt, strictly_sorted,
};

verus! {

/// Milliseconds since the Unix epoch.
pub type Timestamp = u64;

/// Ordinal of a document within its block.
pub type Index = u64;

/// Which tier a searchable block comes from.
#[derive(Debug, Clone, Copy, PartialEq, Eq, Structural)]
pub enum BlockType {
    File,
    InMemory,
}

/// The characters of each string.
pub open spec fn strings_view(v: Seq<String>) -> Seq<Seq<char>> {
    v.map_values(|s: String| s@)
}

/// A posting-list slot: the list when loaded, empty otherwise.
pub open spec fn slot_list(o: Option<Arc<Vec<Index>>>) -> Seq<Index> {
    match o {
        Some(a) => a@,
        None => Seq::empty(),
    }
}

pub open spec fn slot_lists(v: Seq<Option<Arc<Vec<Index>>>>) -> Seq<Seq<Index>> {
    v.map_values(|o: Option<Arc<Vec<Index>>>| slot_list(o))
}

/// Non-decreasing order.
pub open spec fn ascending(s: Seq<u64>) -> bool {
    forall|i: int, j: int| 0 <= i < j < s.len() ==> s[i] <= s[j]
}

/// Every element is below `n`.
pub open spec fn below(s: Seq<u64>, n: int) -> bool {
    forall|i: int| 0 <= i < s.len() ==> s[i] < n
}

/// Every element moved up by `n`.
pub open spec fn shift(s: Seq<u64>, n: int) -> Seq<u64> {
    s.map_values(|x: u64| (x + n) as u64)
}

/// The posting list of tag `t` in an index given as parallel sequences of tags and lists;
/// empty when the tag is absent.
pub open spec fn posting_of(tags: Seq<Seq<char>>, lists: Seq<Seq<Index>>, t: Seq<char>) -> Seq<Index> {
    if tags.contains(t) {
        lists[tags.index_of(t)]
    } else {
        Seq::empty()
    }
}

pub proof fn lemma_posting_at(tags: Seq<Seq<char>>, lists: Seq<Seq<Index>>, i: int)
    requires
        strictly_sorted(tags),
        0 <= i < tags.len(),
    ensures
        posting_of(tags, lists, tags[i]) == lists[i],
{
    assert(tags.contains(tags[i]));
    let k = tags.index_of(tags[i]);
    lemma_sorted_unique(tags, k, i);
}

proof fn lemma_concat_ascending(x: Seq<u64>, y: Seq<u64>, n: int, m: int)
    requires
        ascending(x),
        below(x, n),
        ascending(y),
        below(y, m),
        0 <= n,
        0 <= m,
        n + m <= u64::MAX,
    ensures
        ascending(x + shift(y, n)),
        below(x + shift(y, n), n + m),
{
    let z = x + shift(y, n);
    assert forall|i: int, j: int| 0 <= i < j < z.len() implies z[i] <= z[j] by {
        if j < x.len() {
        } else if i < x.len() {
            assert(z[j] == y[j - x.len()] + n);
        } else {
            assert(z[i] == y[i - x.len()] + n);
            assert(z[j] == y[j - x.len()] + n);
        }
    }
    assert forall|i: int| 0 <= i < z.len() implies z[i] < n + m by {
        if i >= x.len() {
            assert(z[i] == y[i - x.len()] + n);
        }
    }
}

/// The documents of a block and its inverted index: `tags[i]` has the posting list
/// `index[i]`, which may be unloaded (`None`) in a block read from a stream.
#[derive(Debug, Default, PartialEq)]
pub struct BlockData {
    pub tags: Vec<String>,
    pub keys: Vec<String>,
    pub timestamps: Vec<Timestamp>,
    pub index: Vec<Option<Arc<Vec<Index>>>>,
}

impl BlockData {
    pub open spec fn tag_seq(&self) -> Seq<Seq<char>> {
        strings_view(self.tags@)
    }

    pub open spec fn key_seq(&self) -> Seq<Seq<char>> {
        strings_view(self.keys@)
    }

    pub open spec fn lists(&self) -> Seq<Seq<Index>> {
        slot_lists(self.index@)
    }

    /// Every posting list is present.
    pub open spec fn loaded(&self) -> bool {
        forall|i: int| 0 <= i < self.index@.len() ==> (#[trigger] self.index@[i]).is_some()
    }

    /// The posting list of tag `t`.
    pub open spec fn posting(&self, t: Seq<char>) -> Seq<Index> {
        posting_of(self.tag_seq(), self.lists(), t)
    }

    /// One slot per tag, and each posting list ascending over ordinals of this block.
    pub open spec fn lists_valid(&self) -> bool {
        &&& self.tags@.len() == self.index@.len()
        &&& forall|i: int|
            0 <= i < self.index@.len() ==> ascending(#[trigger] self.lists()[i]) && below(
                self.lists()[i],
                self.keys@.len() as int,
            )
    }

    /// Valid posting lists, tags sorted and distinct, one timestamp per key, and
    /// timestamps non-decreasing.
    pub open spec fn wf(&self) -> bool {
        &&& self.lists_valid()
        &&& self.keys@.len() == self.timestamps@.len()
        &&& strictly_sorted(self.tag_seq())
        &&& ascending(self.timestamps@)
    }

    /// `self` ends no later than `other` begins.
    pub open spec fn precedes(&self, other: &BlockData) -> bool {
        self.timestamps@.last() <= other.timestamps@.first()
    }

    /// `r` holds the documents of `a` followed by those of `b`, with the index of both,
    /// the ordinals of `b` moved up by the number of documents of `a`.
    pub open spec fn is_merge_of(a: &BlockData, b: &BlockData, r: &BlockData) -> bool {
        &&& r.keys@ == a.keys@ + b.keys@
        &&& r.timestamps@ == a.timestamps@ + b.timestamps@
        &&& forall|t: Seq<char>|
            #[trigger] r.tag_seq().contains(t) <==> a.tag_seq().contains(t) || b.tag_seq().contains(t)
        &&& forall|i: int|
            0 <= i < r.tags@.len() ==> #[trigger] r.lists()[i] == a.posting(r.tag_seq()[i]) + shift(
                b.posting(r.tag_seq()[i]),
                a.keys@.len() as int,
            )
    }

    /// The keys of the merge of `a` and `b`: the older block's keys come first.
    pub open spec fn merged_keys(a: &BlockData, b: &BlockData) -> Seq<String> {
        if a.keys@.len() == 0 {
            b.keys@
        } else if b.keys@.len() == 0 {
            a.keys@
        } else if a.precedes(b) {
            a.keys@ + b.keys@
        } else {
            b.keys@ + a.keys@
        }
    }

    /// What merging `a` with `b` gives: the other block where one has no documents, else
    /// the documents of the older followed by those of the newer, with the union of their
    /// indexes.
    pub open spec fn merge_result(a: &BlockData, b: &BlockData, r: &BlockData) -> bool {
        &&& r.keys@ == BlockData::merged_keys(a, b)
        &&& a.keys@.len() == 0 ==> *r == *b
        &&& a.keys@.len() > 0 && b.keys@.len() == 0 ==> *r == *a
        &&& a.keys@.len() > 0 && b.keys@.len() > 0 && a.precedes(b) ==> BlockData::is_merge_of(
            a,
            b,
            r,
        )
        &&& a.keys@.len() > 0 && b.keys@.len() > 0 && !a.precedes(b) ==> BlockData::is_merge_of(
            b,
            a,
            r,
        )
        &&& r.wf()
        &&& r.loaded()
    }

    /// The two blocks may be merged: neither overlaps the other in time, every posting list
    /// is loaded, and the ordinals of the result fit in 64 bits.
    pub open spec fn can_merge(&self, other: &BlockData) -> bool {
        &&& self.wf()
        &&& other.wf()
        &&& self.loaded()
        &&& other.loaded()
        &&& self.keys@.len() + other.keys@.len() <= u64::MAX
        &&& (self.keys@.len() > 0 && other.keys@.len() > 0 ==> self.precedes(other)
            || other.precedes(self))
    }

    /// Merges two blocks that do not overlap in time into one, the older first. A block
    /// without documents leaves the other unchanged.
    pub fn merge(self, other: BlockData) -> (r: BlockData)
        requires
            self.can_merge(&other),
        ensures
            BlockData::merge_result(&self, &other, &r),
    {
        if self.keys.len() == 0 {
            return other;
        }
        if other.keys.len() == 0 {
            return self;
        }
        let a_last = self.timestamps[self.timestamps.len() - 1];
        let b_first = other.timestamps[0];
        if a_last > b_first {
            merge_ordered(other, self)
        } else {
            merge_ordered(self, other)
        }
    }

    /// The first and last timestamps.
    pub fn range(&self) -> (r: (Timestamp, Timestamp))
        requires
            self.timestamps@.len() > 0,
        ensures
            r == (self.timestamps@.first(), self.timestamps@.last()),
    {
        (self.timestamps[0], self.timestamps[self.timestamps.len() - 1])
    }

    /// Drops the loaded posting list `ind`.
    pub fn release(&mut self, ind: usize)
        requires
            ind < old(self).index@.len(),
        ensures
            final(self).tags == old(self).tags,
            final(self).keys == old(self).keys,
            final(self).timestamps == old(self).timestamps,
            final(self).index@ == old(self).index@.update(ind as int, None),
    {
        self.index.set(ind, None);
    }

    /// The posting list `id` when it is loaded.
    pub fn try_get_index(&self, id: usize) -> (r: Option<Arc<Vec<Index>>>)
        requires
            id < self.index@.len(),
        ensures
            r == self.index@[id as int],
    {
        match &self.index[id] {
            Some(list) => Some(share(list)),
            None => None,
        }
    }
}

/// Relies on `Arc::clone`: the new handle points to the same value.
#[verifier::external_body]
pub(crate) fn share(a: &Arc<Vec<Index>>) -> (r: Arc<Vec<Index>>)
    ensures
        r == *a,
{
    Arc::clone(a)
}

/// Appends `src`, each element moved up by `n`.
fn append_shifted(out: &mut Vec<Index>, src: &Vec<Index>, n: u64)
    requires
        forall|k: int| 0 <= k < src@.len() ==> src@[k] + n <= u64::MAX,
    ensures
        final(out)@ == old(out)@ + shift(src@, n as int),
{
    let mut k: usize = 0;
    while k < src.len()
        invariant
            k <= src@.len(),
            forall|k: int| 0 <= k < src@.len() ==> src@[k] + n <= u64::MAX,
            out@ == old(out)@ + shift(src@.subrange(0, k as int), n as int),
        decreases src@.len() - k,
    {
        out.push(src[k] + n);
        k += 1;
        assert(shift(src@.subrange(0, k as int), n as int) =~= shift(
            src@.subrange(0, k - 1),
            n as int,
        ).push((src@[k - 1] + n) as u64));
    }
    assert(src@.subrange(0, src@.len() as int) =~= src@);
}

/// The list in a loaded slot.
fn loaded_list(o: &Option<Arc<Vec<Index>>>) -> (r: &Vec<Index>)
    requires
        o.is_some(),
    ensures
        r@ == slot_list(*o),
{
    let a = o.as_ref().unwrap();
    &**a
}

/// Merge of two non-empty blocks where `a` precedes `b`: a walk over both sorted tag
/// sequences at once.
fn merge_ordered(a: BlockData, b: BlockData) -> (r: BlockData)
    requires
        a.wf(),
        b.wf(),
        a.loaded(),
        b.loaded(),
        a.keys@.len() > 0,
        b.keys@.len() > 0,
        a.precedes(&b),
        a.keys@.len() + b.keys@.len() <= u64::MAX,
    ensures
        BlockData::is_merge_of(&a, &b, &r),
        r.wf(),
        r.loaded(),
{
    let n = a.keys.len() as u64;
    let ghost m = b.keys@.len() as int;
    let ghost at = a.tag_seq();
    let ghost bt = b.tag_seq();
    let mut tags: Vec<String> = Vec::new();
    let mut index: Vec<Option<Arc<Vec<Index>>>> = Vec::new();
    let mut i: usize = 0;
    let mut j: usize = 0;
    while i < a.tags.len() || j < b.tags.len()
        invariant
            a.wf(),
            b.wf(),
            a.loaded(),
            b.loaded(),
            at == a.tag_seq(),
            bt == b.tag_seq(),
            n == a.keys@.len(),
            m == b.keys@.len(),
            n + m <= u64::MAX,
            i <= a.tags@.len(),
            j <= b.tags@.len(),
            tags@.len() == index@.len(),
            forall|k: int| 0 <= k < index@.len() ==> (#[trigger] index@[k]).is_some(),
            strictly_sorted(strings_view(tags@)),
            forall|k: int|
                0 <= k < tags@.len() && i < at.len() ==> seq_lt(
                    #[trigger] strings_view(tags@)[k],
                    at[i as int],
                ),
            forall|k: int|
                0 <= k < tags@.len() && j < bt.len() ==> seq_lt(
                    #[trigger] strings_view(tags@)[k],
                    bt[j as int],
                ),
            forall|k: int| 0 <= k < i ==> strings_view(tags@).contains(#[trigger] at[k]),
            forall|k: int| 0 <= k < j ==> strings_view(tags@).contains(#[trigger] bt[k]),
            forall|k: int|
                0 <= k < tags@.len() ==> at.contains(#[trigger] strings_view(tags@)[k])
                    || bt.contains(strings_view(tags@)[k]),
            forall|k: int|
                0 <= k < index@.len() ==> #[trigger] slot_lists(index@)[k] == a.posting(
                    strings_view(tags@)[k],
                ) + shift(b.posting(strings_view(tags@)[k]), n as int),
            forall|k: int|
                0 <= k < index@.len() ==> ascending(#[trigger] slot_lists(index@)[k]) && below(
                    slot_lists(index@)[k],
                    n + m,
                ),
        decreases a.tags@.len() - i + b.tags@.len() - j,
    {
        let ghost old_tags = tags@;
        let ghost old_index = index@;
        let take_a: bool;
        let take_b: bool;
        if i < a.tags.len() && j < b.tags.len() {
            let c = compare_str(a.tags[i].as_str(), b.tags[j].as_str());
            take_a = match c {
                core::cmp::Ordering::Greater => false,
                _ => true,
            };
            take_b = match c {
                core::cmp::Ordering::Less => false,
                _ => true,
            };
            assert(at[i as int] == a.tags@[i as int]@);
            assert(bt[j as int] == b.tags@[j as int]@);
            assert(take_a && take_b ==> at[i as int] == bt[j as int]);
            assert(!take_a ==> seq_lt(bt[j as int], at[i as int]));
            assert(!take_b ==> seq_lt(at[i as int], bt[j as int]));
        } else {
            take_a = i < a.tags.len();
            take_b = !take_a;
        }
        let tag: String;
        let mut list: Vec<Index> = Vec::new();
        if take_a {
            tag = a.tags[i].clone();
            let la = loaded_list(&a.index[i]);
            append_shifted(&mut list, la, 0);
            assert(shift(la@, 0) =~= la@);
        } else {
            tag = b.tags[j].clone();
            assert(tag@ == bt[j as int]);
        }
        if take_b {
            let lb = loaded_list(&b.index[j]);
            assert(lb@ == b.lists()[j as int]);
            assert(below(lb@, m));
            append_shifted(&mut list, lb, n);
        }
        let ghost t = tag@;
        proof {
            let ghost pa = a.posting(t);
            let ghost pb = b.posting(t);
            if take_a {
                assert(t == at[i as int]);
                lemma_posting_at(at, a.lists(), i as int);
            }
            if take_b {
                assert(t == bt[j as int]);
                lemma_posting_at(bt, b.lists(), j as int);
            }
            if !take_a {
                assert(!at.contains(t)) by {
                    if at.contains(t) {
                        let k = at.index_of(t);
                        if k < i {
                            let w = strings_view(tags@).index_of(at[k]);
                            lemma_lt_irreflexive(t);
                        } else {
                            if k > i {
                                lemma_lt_transitive(t, at[i as int], at[k]);
                            }
                            lemma_lt_irreflexive(t);
                        }
                    }
                }
                assert(pa == Seq::<Index>::empty());
            }
            if !take_b {
                assert(!bt.contains(t)) by {
                    if bt.contains(t) {
                        let k = bt.index_of(t);
                        if k < j {
                            let w = strings_view(tags@).index_of(bt[k]);
                            lemma_lt_irreflexive(t);
                        } else {
                            if k > j {
                                lemma_lt_transitive(t, bt[j as int], bt[k]);
                            }
                            lemma_lt_irreflexive(t);
                        }
                    }
                }
                assert(pb == Seq::<Index>::empty());
                assert(shift(pb, n as int) =~= Seq::<Index>::empty());
            }
            assert(list@ =~= pa + shift(pb, n as int));
            lemma_concat_ascending(pa, pb, n as int, m);
        }
        tags.push(tag);
        index.push(Some(Arc::new(list)));
        if take_a {
            i += 1;
        }
        if take_b {
            j += 1;
        }
        proof {
            assert(strings_view(tags@) =~= strings_view(old_tags).push(t));
            assert(slot_lists(index@) =~= slot_lists(old_index).push(list@));
            assert forall|k: int|
                0 <= k < tags@.len() && i < at.len() implies seq_lt(
                #[trigger] strings_view(tags@)[k],
                at[i as int],
            ) by {
                if take_a {
                    assert(seq_lt(at[i - 1], at[i as int]));
                    if k < old_tags.len() {
                        lemma_lt_transitive(strings_view(tags@)[k], at[i - 1], at[i as int]);
                    }
                } else if k < old_tags.len() {
                } else {
                    assert(seq_lt(bt[j - 1], at[i as int]));
                }
            }
            assert forall|k: int|
                0 <= k < tags@.len() && j < bt.len() implies seq_lt(
                #[trigger] strings_view(tags@)[k],
                bt[j as int],
            ) by {
                if take_b {
                    assert(seq_lt(bt[j - 1], bt[j as int]));
                    if k < old_tags.len() {
                        lemma_lt_transitive(strings_view(tags@)[k], bt[j - 1], bt[j as int]);
                    }
                } else if k < old_tags.len() {
                }
            }
            assert forall|k1: int, k2: int|
                0 <= k1 < k2 < tags@.len() implies seq_lt(
                #[trigger] strings_view(tags@)[k1],
                #[trigger] strings_view(tags@)[k2],
            ) by {
                if k2 < old_tags.len() {
                    assert(strings_view(old_tags)[k1] == strings_view(tags@)[k1]);
                    assert(strings_view(old_tags)[k2] == strings_view(tags@)[k2]);
                }
            }
            assert forall|k: int| 0 <= k < i implies strings_view(tags@).contains(
                #[trigger] at[k],
            ) by {
                if take_a && k == i - 1 {
                    assert(strings_view(tags@)[old_tags.len() as int] == at[k]);
                } else {
                    let w = strings_view(old_tags).index_of(at[k]);
                    assert(strings_view(tags@)[w] == at[k]);
                }
            }
            assert forall|k: int| 0 <= k < j implies strings_view(tags@).contains(
                #[trigger] bt[k],
            ) by {
                if take_b && k == j - 1 {
                    assert(strings_view(tags@)[old_tags.len() as int] == bt[k]);
                } else {
                    let w = strings_view(old_tags).index_of(bt[k]);
                    assert(strings_view(tags@)[w] == bt[k]);
                }
            }
            assert forall|k: int| 0 <= k < tags@.len() implies at.contains(
                #[trigger] strings_view(tags@)[k],
            ) || bt.contains(strings_view(tags@)[k]) by {
                if k == old_tags.len() {
                    if take_a {
                        assert(at[i - 1] == t);
                    } else {
                        assert(bt[j - 1] == t);
                    }
                }
            }
        }
    }
    let ghost tv = strings_view(tags@);
    let mut keys = a.keys;
    let mut b_keys = b.keys;
    keys.append(&mut b_keys);
    let mut timestamps = a.timestamps;
    let mut b_timestamps = b.timestamps;
    timestamps.append(&mut b_timestamps);
    let r = BlockData { tags, keys, timestamps, index };
    proof {
        assert forall|t: Seq<char>|
            #[trigger] r.tag_seq().contains(t) <==> at.contains(t) || bt.contains(t) by {
            if at.contains(t) {
                let k = at.index_of(t);
                assert(tv.contains(at[k]));
            }
            if bt.contains(t) {
                let k = bt.index_of(t);
                assert(tv.contains(bt[k]));
            }
            if tv.contains(t) {
                let k = tv.index_of(t);
                assert(at.contains(tv[k]) || bt.contains(tv[k]));
            }
        }
        let ts = r.timestamps@;
        let na = a.timestamps@.len() as int;
        assert forall|x: int, y: int| 0 <= x < y < ts.len() implies ts[x] <= ts[y] by {
            if y < na {
            } else if x < na {
                assert(ts[x] <= a.timestamps@.last());
                assert(b.timestamps@.first() <= ts[y]);
            } else {
            }
        }
    }
    r
}

/// In a merge, each tag's posting list is that of the older block followed by that of the
/// newer one moved past the older block's documents; a tag of neither has none.
pub proof fn lemma_merge_posting(a: &BlockData, b: &BlockData, r: &BlockData, t: Seq<char>)
    requires
        BlockData::is_merge_of(a, b, r),
        r.wf(),
    ensures
        r.posting(t) == a.posting(t) + shift(b.posting(t), a.keys@.len() as int),
{
    if r.tag_seq().contains(t) {
        let i = r.tag_seq().index_of(t);
        lemma_posting_at(r.tag_seq(), r.lists(), i);
    } else {
        assert(!a.tag_seq().contains(t) && !b.tag_seq().contains(t));
        assert(a.posting(t) + shift(b.posting(t), a.keys@.len() as int) =~= Seq::<Index>::empty());
    }
}

/// Where the keys come in the merge of two non-empty blocks, one wholly older than the
/// other, the older block's keys come first whichever of the two the merge is called on.
pub proof fn lemma_merge_order(a: &BlockData, b: &BlockData)
    requires
        a.wf(),
        b.wf(),
        a.keys@.len() > 0,
        b.keys@.len() > 0,
        a.timestamps@.last() < b.timestamps@.first(),
    ensures
        BlockData::merged_keys(a, b) == a.keys@ + b.keys@,
        BlockData::merged_keys(b, a) == a.keys@ + b.keys@,
{
    assert(b.timestamps@.first() <= b.timestamps@.last());
    assert(a.timestamps@.first() <= a.timestamps@.last());
}

/// A sealed, immutable block kept in memory, with its count of (document, tag) pairs.
#[derive(Debug)]
pub struct InMemoryBlock {
    pub data: BlockData,
    pub size: u64,
}

impl InMemoryBlock {
    pub open spec fn wf(&self) -> bool {
        self.data.wf() && self.data.loaded()
    }

    /// Merges two blocks that do not overlap in time; the sizes add up.
    pub fn merge(self, other: InMemoryBlock) -> (r: InMemoryBlock)
        requires
            self.wf(),
            other.wf(),
            self.data.can_merge(&other.data),
            self.size + other.size <= u64::MAX,
        ensures
            BlockData::merge_result(&self.data, &other.data, &r.data),
            r.size == self.size + other.size,
            r.wf(),
    {
        let size = self.size + other.size;
        let data = self.data.merge(other.data);
        InMemoryBlock { data, size }
    }

    pub fn size(&self) -> (r: u64)
        ensures
            r == self.size,
    {
        self.size
    }

    /// The first and last timestamps.
    pub fn range(&self) -> (r: (Timestamp, Timestamp))
        requires
            self.data.timestamps@.len() > 0,
        ensures
            r == (self.data.timestamps@.first(), self.data.timestamps@.last()),
    {
        self.data.range()
    }
}

/// What can go wrong while reading or writing blocks.
#[derive(Debug, Clone, Copy, PartialEq, Eq, Structural)]
pub enum StorageError {
    /// The stream could not be positioned or read where the header says.
    Io,
    /// The bytes do not decode to the expected value.
    Decode,
    /// A value could not be encoded.
    Encode,
    /// The encoded header is longer than the room kept for it.
    HeaderOverflow,
    /// A posting list that must be present is not loaded.
    IndexNotLoaded,
    /// The block is not backed by a stream to load from.
    NotOnDisk,
    /// The block's time range overlaps the block it should follow.
    Overlap,
    /// The counts of documents or of (document, tag) pairs would not fit in 64 bits.
    Overflow,
}

/// Read access that every tier's blocks offer to a search.
pub trait SearchBlock: Sized {
    /// The documents and index held.
    spec fn block(&self) -> BlockData;

    /// The block's own invariant.
    spec fn inv(&self) -> bool;

    /// Loading posting list `id` succeeds.
    spec fn loadable(&self, id: int) -> bool;

    /// The error that a failed load of posting list `id` gives.
    spec fn load_error(&self, id: int) -> StorageError;

    fn get_tags(&self) -> (r: &[String])
        requires
            self.inv(),
        ensures
            r@ == self.block().tags@;

    fn get_keys(&self) -> (r: &[String])
        requires
            self.inv(),
        ensures
            r@ == self.block().keys@;

    /// Loads posting list `id` if it is not there yet.
    fn read_index(&mut self, id: usize) -> (r: Result<(), StorageError>)
        requires
            old(self).inv(),
            id < old(self).block().index@.len(),
        ensures
            final(self).inv(),
            final(self).block().tags@ == old(self).block().tags@,
            final(self).block().keys@ == old(self).block().keys@,
            final(self).block().index@.len() == old(self).block().index@.len(),
            r is Ok ==> final(self).block().index@[id as int].is_some(),
            forall|k: int|
                0 <= k < old(self).block().index@.len() && old(self).block().index@[k].is_some()
                    ==> #[trigger] final(self).block().index@[k] == old(self).block().index@[k],
            old(self).loadable(id as int) ==> r is Ok,
            r is Ok ==> forall|k: int|
                0 <= k < old(self).block().index@.len() && #[trigger] old(self).loadable(k)
                    ==> final(self).loadable(k),
            r matches Err(e) ==> e == old(self).load_error(id as int) && *final(self) == *old(
                self,
            );

    /// Posting list `id`, when it is loaded.
    fn try_get_index(&self, id: usize) -> (r: Option<Arc<Vec<Index>>>)
        requires
            self.inv(),
            id < self.block().index@.len(),
        ensures
            r == self.block().index@[id as int];

    fn get_type(&self) -> BlockType;
}

impl SearchBlock for InMemoryBlock {
    open spec fn block(&self) -> BlockData {
        self.data
    }

    open spec fn inv(&self) -> bool {
        self.wf()
    }

    /// There is nothing to load an in-memory block's lists from.
    open spec fn loadable(&self, id: int) -> bool {
        false
    }

    open spec fn load_error(&self, id: int) -> StorageError {
        StorageError::NotOnDisk
    }

    fn get_tags(&self) -> (r: &[String]) {
        self.data.tags.as_slice()
    }

    fn get_keys(&self) -> (r: &[String]) {
        self.data.keys.as_slice()
    }

    /// Every posting list of an in-memory block is present already: there is nothing to
    /// load from.
    fn read_index(&mut self, id: usize) -> (r: Result<(), StorageError>)
        ensures
            r == Err::<(), StorageError>(StorageError::NotOnDisk),
            *final(self) == *old(self),
    {
        Err(StorageError::NotOnDisk)
    }

    fn try_get_index(&self, id: usize) -> (r: Option<Arc<Vec<Index>>>) {
        self.data.try_get_index(id)
    }

    fn get_type(&self) -> (r: BlockType)
        ensures
            r == BlockType::InMemory,
    {
        BlockType::InMemory
    }
}

} // verus!
