//! The writable buffer that receives new documents.
use std::sync::Arc;
use vstd::prelude::*;

use crate::block::{
    ascending, below, lemma_posting_at, posting_of, strings_view, BlockData, InMemoryBlock, Index,
    Timestamp,
};
use crate::order::{compare_str, lemma_lt_irreflexive, lemma_lt_transitive, seq_lt, strictly_sorted};

verus! {

/// How many times `t` occurs in `s`.
pub open spec fn occurrences(s: Seq<Seq<char>>, t: Seq<char>) -> nat
    decreases s.len(),
{
    if s.len() == 0 {
        0
    } else {
        occurrences(s.drop_last(), t) + if s.last() == t {
            1nat
        } else {
            0nat
        }
    }
}

/// `k` copies of `x`.
pub open spec fn repeat(x: Index, k: nat) -> Seq<Index> {
    Seq::new(k, |_i: int| x)
}

pub open spec fn vec_lists(v: Seq<Vec<Index>>) -> Seq<Seq<Index>> {
    v.map_values(|l: Vec<Index>| l@)
}

/// Relies on `SystemTime::now` and `Duration::as_millis`: the wall clock in milliseconds
/// since the Unix epoch, 0 for a clock set before it.
#[verifier::external_body]
fn now_millis() -> (r: Timestamp) {
    match std::time::SystemTime::now().duration_since(std::time::UNIX_EPOCH) {
        Ok(d) => d.as_millis() as Timestamp,
        Err(_) => 0,
    }
}

/// The block being written: documents in the order of arrival, and for each tag, kept in
/// sorted order, the ordinals of the documents that carry it. Tags and their lists are two
/// parallel vectors rather than a map keyed by `String`, so that the sorted order of the
/// tags is part of the invariant that the proofs check.
#[derive(Debug, Clone)]
pub struct ActiveBlock {
    pub tags: Vec<String>,
    pub index: Vec<Vec<Index>>,
    pub keys: Vec<String>,
    pub timestamps: Vec<Timestamp>,
    pub size: u64,
    /// No document gets a timestamp earlier than this one.
    pub floor: Timestamp,
}

impl Default for ActiveBlock {
    fn default() -> (r: ActiveBlock)
        ensures
            r.wf(),
            r.tags@.len() == 0,
            r.keys@.len() == 0,
            r.size == 0,
    {
        ActiveBlock::new()
    }
}

impl ActiveBlock {
    pub open spec fn tag_seq(&self) -> Seq<Seq<char>> {
        strings_view(self.tags@)
    }

    pub open spec fn lists(&self) -> Seq<Seq<Index>> {
        vec_lists(self.index@)
    }

    /// The ordinals of the documents carrying tag `t`.
    pub open spec fn posting(&self, t: Seq<char>) -> Seq<Index> {
        posting_of(self.tag_seq(), self.lists(), t)
    }

    pub open spec fn wf(&self) -> bool {
        &&& self.tags@.len() == self.index@.len()
        &&& self.keys@.len() == self.timestamps@.len()
        &&& strictly_sorted(self.tag_seq())
        &&& ascending(self.timestamps@)
        &&& forall|i: int| 0 <= i < self.timestamps@.len() ==> self.floor <= #[trigger] self.timestamps@[i]
        &&& forall|i: int|
            0 <= i < self.index@.len() ==> ascending(#[trigger] self.lists()[i]) && below(
                self.lists()[i],
                self.keys@.len() as int,
            )
    }

    /// The earliest timestamp the next document may get: the last one given, or the floor
    /// while there is none.
    pub open spec fn earliest(&self) -> Timestamp {
        if self.timestamps@.len() > 0 {
            self.timestamps@.last()
        } else {
            self.floor
        }
    }

    /// The timestamp given to a document pushed at wall-clock time `now`: never earlier
    /// than the last one, nor than the floor.
    pub open spec fn next_timestamp(&self, now: Timestamp) -> Timestamp {
        if now < self.earliest() {
            self.earliest()
        } else {
            now
        }
    }

    pub fn new() -> (r: ActiveBlock)
        ensures
            r.wf(),
            r.tags@.len() == 0,
            r.keys@.len() == 0,
            r.size == 0,
            r.floor == 0,
    {
        ActiveBlock::starting_at(0)
    }

    /// An empty block whose documents get no timestamp earlier than `floor`, so that it
    /// follows the block sealed before it even when the clock steps back.
    pub fn starting_at(floor: Timestamp) -> (r: ActiveBlock)
        ensures
            r.wf(),
            r.tags@.len() == 0,
            r.keys@.len() == 0,
            r.size == 0,
            r.floor == floor,
    {
        ActiveBlock {
            tags: Vec::new(),
            index: Vec::new(),
            keys: Vec::new(),
            timestamps: Vec::new(),
            size: 0,
            floor,
        }
    }

    pub fn size(&self) -> (r: u64)
        ensures
            r == self.size,
    {
        self.size
    }

    /// The floor for the block that follows this one: its last timestamp, or its own
    /// floor while it has none.
    pub fn next_floor(&self) -> (r: Timestamp)
        ensures
            r == self.earliest(),
    {
        let n = self.timestamps.len();
        if n > 0 {
            self.timestamps[n - 1]
        } else {
            self.floor
        }
    }

    /// Appends a document with the current wall-clock time.
    pub fn push(&mut self, key: String, tags: Vec<String>)
        requires
            old(self).wf(),
            old(self).keys@.len() < u64::MAX,
            old(self).size + tags@.len() <= u64::MAX,
        ensures
            final(self).wf(),
            final(self).keys@ == old(self).keys@.push(key),
            final(self).timestamps@.len() == old(self).timestamps@.len() + 1,
            final(self).timestamps@.drop_last() == old(self).timestamps@,
            final(self).timestamps@.last() >= old(self).earliest(),
            final(self).size == old(self).size + tags@.len(),
            final(self).floor == old(self).floor,
            forall|t: Seq<char>|
                #[trigger] final(self).tag_seq().contains(t) <==> old(self).tag_seq().contains(t)
                    || strings_view(tags@).contains(t),
            forall|t: Seq<char>|
                #[trigger] final(self).posting(t) == old(self).posting(t) + repeat(
                    old(self).keys@.len() as Index,
                    occurrences(strings_view(tags@), t),
                ),
    {
        let now = now_millis();
        self.push_at(key, tags, now);
    }

    /// Appends a document as of wall-clock time `now`: it takes the next ordinal, a
    /// timestamp no earlier than `now` nor than the last one, and its ordinal is added to
    /// the posting list of each of its tags, once per occurrence.
    pub fn push_at(&mut self, key: String, tags: Vec<String>, now: Timestamp)
        requires
            old(self).wf(),
            old(self).keys@.len() < u64::MAX,
            old(self).size + tags@.len() <= u64::MAX,
        ensures
            final(self).wf(),
            final(self).keys@ == old(self).keys@.push(key),
            final(self).timestamps@ == old(self).timestamps@.push(old(self).next_timestamp(now)),
            final(self).size == old(self).size + tags@.len(),
            final(self).floor == old(self).floor,
            forall|t: Seq<char>|
                #[trigger] final(self).tag_seq().contains(t) <==> old(self).tag_seq().contains(t)
                    || strings_view(tags@).contains(t),
            forall|t: Seq<char>|
                #[trigger] final(self).posting(t) == old(self).posting(t) + repeat(
                    old(self).keys@.len() as Index,
                    occurrences(strings_view(tags@), t),
                ),
    {
        let ghost start = *self;
        let ghost tv = strings_view(tags@);
        self.size = self.size + tags.len() as u64;
        let id = self.keys.len() as Index;
        let n = self.timestamps.len();
        let earliest = if n > 0 {
            self.timestamps[n - 1]
        } else {
            self.floor
        };
        let ts = if now < earliest {
            earliest
        } else {
            now
        };
        self.keys.push(key);
        self.timestamps.push(ts);
        proof {
            assert forall|i: int|
                0 <= i < self.index@.len() implies ascending(#[trigger] self.lists()[i]) && below(
                self.lists()[i],
                self.keys@.len() as int,
            ) by {
                assert(start.lists()[i] == self.lists()[i]);
            }
            assert(occurrences(tv.subrange(0, 0), tv[0]) == 0);
        }
        let mut i: usize = 0;
        while i < tags.len()
            invariant
                i <= tags@.len(),
                tv == strings_view(tags@),
                self.wf(),
                id == start.keys@.len(),
                self.keys@ == start.keys@.push(key),
                self.timestamps@ == start.timestamps@.push(start.next_timestamp(now)),
                self.size == start.size + tags@.len(),
                self.floor == start.floor,
                forall|t: Seq<char>|
                    #[trigger] self.tag_seq().contains(t) <==> start.tag_seq().contains(t)
                        || tv.subrange(0, i as int).contains(t),
                forall|t: Seq<char>|
                    #[trigger] self.posting(t) == start.posting(t) + repeat(
                        id,
                        occurrences(tv.subrange(0, i as int), t),
                    ),
            decreases tags@.len() - i,
        {
            let ghost before = *self;
            let tag = tags[i].clone();
            self.add_tag(tag, id);
            i += 1;
            proof {
                let prev = tv.subrange(0, i - 1);
                let cur = tv.subrange(0, i as int);
                assert(cur.drop_last() =~= prev);
                assert(cur.last() == tv[i - 1]);
                assert forall|t: Seq<char>| #[trigger]
                    self.tag_seq().contains(t) <==> start.tag_seq().contains(t) || cur.contains(t) by {
                    if prev.contains(t) {
                        let k = prev.index_of(t);
                        assert(cur[k] == t);
                    }
                    if cur.contains(t) && t != tv[i - 1] {
                        let k = cur.index_of(t);
                        assert(prev[k] == t);
                    }
                    if t == tv[i - 1] {
                        assert(cur[i - 1] == t);
                    }
                }
                assert forall|t: Seq<char>| #[trigger]
                    self.posting(t) == start.posting(t) + repeat(id, occurrences(cur, t)) by {
                    assert(before.posting(t) == start.posting(t) + repeat(id, occurrences(prev, t)));
                    if t == tv[i - 1] {
                        assert(repeat(id, occurrences(cur, t)) =~= repeat(
                            id,
                            occurrences(prev, t),
                        ).push(id));
                        assert(self.posting(t) =~= start.posting(t) + repeat(
                            id,
                            occurrences(cur, t),
                        ));
                    }
                }
            }
        }
        proof {
            assert(tv.subrange(0, tags@.len() as int) =~= tv);
        }
    }

    /// Adds ordinal `id`, the newest document's, to the posting list of `tag`, making the
    /// list if the tag is new.
    fn add_tag(&mut self, tag: String, id: Index)
        requires
            old(self).wf(),
            id + 1 == old(self).keys@.len(),
        ensures
            final(self).wf(),
            final(self).keys == old(self).keys,
            final(self).timestamps == old(self).timestamps,
            final(self).size == old(self).size,
            final(self).floor == old(self).floor,
            forall|t: Seq<char>|
                #[trigger] final(self).tag_seq().contains(t) <==> old(self).tag_seq().contains(t)
                    || t == tag@,
            forall|t: Seq<char>|
                #[trigger] final(self).posting(t) == if t == tag@ {
                    old(self).posting(t).push(id)
                } else {
                    old(self).posting(t)
                },
    {
        let ghost start = *self;
        let ghost st = self.tag_seq();
        let mut k: usize = 0;
        let mut found = false;
        let mut past = false;
        while k < self.tags.len() && !found && !past
            invariant
                *self == start,
                st == self.tag_seq(),
                k <= self.tags@.len(),
                forall|x: int| 0 <= x < k ==> seq_lt(#[trigger] st[x], tag@),
                found ==> k < st.len() && st[k as int] == tag@,
                past ==> k < st.len() && seq_lt(tag@, st[k as int]),
                !(found && past),
            decreases self.tags@.len() - k + if found || past { 0int } else { 1int },
        {
            match compare_str(self.tags[k].as_str(), tag.as_str()) {
                core::cmp::Ordering::Less => {
                    k += 1;
                },
                core::cmp::Ordering::Equal => {
                    found = true;
                },
                core::cmp::Ordering::Greater => {
                    past = true;
                },
            }
        }
        if found {
            let mut list: Vec<Index> = Vec::new();
            self.index.set_and_swap(k, &mut list);
            list.push(id);
            self.index.set(k, list);
            proof {
                lemma_posting_at(st, start.lists(), k as int);
                lemma_posting_at(st, self.lists(), k as int);
                assert(self.tag_seq() == st);
                assert forall|t: Seq<char>| #[trigger]
                    self.posting(t) == if t == tag@ {
                        start.posting(t).push(id)
                    } else {
                        start.posting(t)
                    } by {
                    if st.contains(t) && t != tag@ {
                        let p = st.index_of(t);
                        lemma_posting_at(st, start.lists(), p);
                        lemma_posting_at(st, self.lists(), p);
                    }
                }
                assert forall|i: int|
                    0 <= i < self.index@.len() implies ascending(#[trigger] self.lists()[i])
                    && below(self.lists()[i], self.keys@.len() as int) by {
                    if i == k {
                        assert(self.lists()[i] == start.lists()[i].push(id));
                    } else {
                        assert(self.lists()[i] == start.lists()[i]);
                    }
                }
            }
        } else {
            proof {
                assert forall|x: int| k <= x < st.len() implies seq_lt(tag@, #[trigger] st[x]) by {
                    if x > k {
                        lemma_lt_transitive(tag@, st[k as int], st[x]);
                    }
                }
            }
            let mut list: Vec<Index> = Vec::new();
            list.push(id);
            self.tags.insert(k, tag);
            self.index.insert(k, list);
            proof {
                let nt = self.tag_seq();
                assert(nt =~= st.insert(k as int, tag@));
                assert(self.lists() =~= start.lists().insert(k as int, seq![id]));
                assert forall|x: int, y: int| 0 <= x < y < nt.len() implies seq_lt(
                    #[trigger] nt[x],
                    #[trigger] nt[y],
                ) by {
                    if y < k {
                    } else if y == k {
                    } else if x < k {
                        lemma_lt_transitive(nt[x], tag@, nt[y]);
                    } else if x == k {
                    } else {
                        assert(nt[x] == st[x - 1] && nt[y] == st[y - 1]);
                    }
                }
                assert(!st.contains(tag@)) by {
                    if st.contains(tag@) {
                        let p = st.index_of(tag@);
                        lemma_lt_irreflexive(tag@);
                    }
                }
                assert forall|t: Seq<char>| #[trigger]
                    self.tag_seq().contains(t) <==> st.contains(t) || t == tag@ by {
                    if st.contains(t) {
                        let p = st.index_of(t);
                        if p < k {
                            assert(nt[p] == t);
                        } else {
                            assert(nt[p + 1] == t);
                        }
                    }
                    if t == tag@ {
                        assert(nt[k as int] == t);
                    }
                    if nt.contains(t) && t != tag@ {
                        let p = nt.index_of(t);
                        if p < k {
                            assert(st[p] == t);
                        } else {
                            assert(st[p - 1] == t);
                        }
                    }
                }
                assert forall|t: Seq<char>| #[trigger]
                    self.posting(t) == if t == tag@ {
                        start.posting(t).push(id)
                    } else {
                        start.posting(t)
                    } by {
                    if t == tag@ {
                        lemma_posting_at(nt, self.lists(), k as int);
                        assert(start.posting(t) =~= Seq::<Index>::empty());
                        assert(Seq::<Index>::empty().push(id) =~= seq![id]);
                    } else if st.contains(t) {
                        let p = st.index_of(t);
                        lemma_posting_at(st, start.lists(), p);
                        if p < k {
                            lemma_posting_at(nt, self.lists(), p);
                        } else {
                            lemma_posting_at(nt, self.lists(), p + 1);
                        }
                    }
                }
                assert forall|i: int|
                    0 <= i < self.index@.len() implies ascending(#[trigger] self.lists()[i])
                    && below(self.lists()[i], self.keys@.len() as int) by {
                    if i < k {
                        assert(self.lists()[i] == start.lists()[i]);
                    } else if i > k {
                        assert(self.lists()[i] == start.lists()[i - 1]);
                    }
                }
            }
        }
    }

    /// Seals the block: tags in order with their posting lists, keys and timestamps as
    /// pushed, and the size.
    pub fn into_block(self) -> (r: InMemoryBlock)
        requires
            self.wf(),
        ensures
            r.wf(),
            r.data.tags@ == self.tags@,
            r.data.keys@ == self.keys@,
            r.data.timestamps@ == self.timestamps@,
            r.data.lists() == self.lists(),
            r.size == self.size,
    {
        let ghost lists = self.lists();
        let mut source = self.index;
        let mut index: Vec<Option<Arc<Vec<Index>>>> = Vec::new();
        let mut k: usize = 0;
        while k < source.len()
            invariant
                k <= source@.len(),
                source@.len() == lists.len(),
                index@.len() == k,
                forall|x: int| k <= x < lists.len() ==> #[trigger] source@[x]@ == lists[x],
                forall|x: int| 0 <= x < k ==> (#[trigger] index@[x]).is_some(),
                forall|x: int| 0 <= x < k ==> #[trigger] crate::block::slot_list(index@[x]) == lists[x],
            decreases source@.len() - k,
        {
            let mut list: Vec<Index> = Vec::new();
            source.set_and_swap(k, &mut list);
            index.push(Some(Arc::new(list)));
            k += 1;
        }
        let data = BlockData { tags: self.tags, keys: self.keys, timestamps: self.timestamps, index };
        proof {
            assert(data.lists() =~= lists);
        }
        InMemoryBlock { data, size: self.size }
    }
}

} // verus!
