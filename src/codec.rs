//! The on-stream layout of a block: a header in room kept ahead of the content, then the
//! tags, keys, timestamps and the delta-coded posting lists, each in MessagePack.
use std::sync::Arc;
use vstd::prelude::*;
use vstd::utf8::encode_utf8;

use crate::block::{
    ascending, below, slot_list, slot_lists, strings_view, BlockData, BlockType,
    InMemoryBlock, Index, SearchBlock, StorageError, Timestamp,
};

verus! {

/// The MessagePack encoding of a sequence of strings.
pub uninterp spec fn msgpack_strings(v: Seq<Seq<char>>) -> Seq<u8>;

/// The MessagePack encoding of a sequence of unsigned integers.
pub uninterp spec fn msgpack_u64s(v: Seq<u64>) -> Seq<u8>;

/// The MessagePack encoding of a header's fields, as an array in field order.
pub uninterp spec fn msgpack_header(
    start: u64,
    tags: u64,
    keys: u64,
    timestamps: u64,
    index: Seq<u64>,
    from: u64,
    to: u64,
    size: u64,
) -> Seq<u8>;

/// Relies on `rmp_serde::encode::write` into a `Vec<u8>`: the MessagePack encoding of the
/// strings. With at most `u32::MAX` strings, each of at most `u32::MAX` bytes, the array's
/// length is written up front, and writing to a `Vec` does not fail. The array's mark takes
/// at most five bytes, and each string its bytes and a mark of at most five.
#[verifier::external_body]
fn encode_strings(v: &Vec<String>) -> (r: Option<Vec<u8>>)
    requires
        strings_encodable(strings_view(v@)),
    ensures
        r is Some,
        r matches Some(b) ==> b@ == msgpack_strings(strings_view(v@)) && b@.len()
            <= strings_bound(strings_view(v@)),
{
    let mut buf: Vec<u8> = Vec::new();
    match rmp_serde::encode::write(&mut buf, v) {
        Ok(()) => Some(buf),
        Err(_) => None,
    }
}

/// Relies on `rmp_serde::encode::write` into a `Vec<u8>`: the MessagePack encoding of the
/// integers. With at most `u32::MAX` of them the array's length is written up front, and
/// writing to a `Vec` does not fail. The array's mark takes at most five bytes, and each
/// integer at most nine.
#[verifier::external_body]
fn encode_u64s(v: &Vec<u64>) -> (r: Option<Vec<u8>>)
    requires
        v@.len() <= u32::MAX,
    ensures
        r is Some,
        r matches Some(b) ==> b@ == msgpack_u64s(v@) && b@.len() <= 5 + 9 * v@.len(),
{
    let mut buf: Vec<u8> = Vec::new();
    match rmp_serde::encode::write(&mut buf, v) {
        Ok(()) => Some(buf),
        Err(_) => None,
    }
}

/// Relies on `rmp_serde::encode::write` into a `Vec<u8>`: the MessagePack encoding of the
/// header's fields as an array, which does not fail with at most `u32::MAX` offsets. It
/// takes one byte for the array's mark, at most nine for each integer, and at most five for
/// the mark of the offsets' array.
#[verifier::external_body]
fn encode_header(h: &BlockHeader) -> (r: Option<Vec<u8>>)
    requires
        h.index@.len() <= u32::MAX,
    ensures
        r is Some,
        r matches Some(b) ==> b@ == header_bytes(h@) && b@.len() <= 69 + 9 * h.index@.len(),
{
    let fields = (h.start, h.tags, h.keys, h.timestamps, &h.index, h.from, h.to, h.size);
    let mut buf: Vec<u8> = Vec::new();
    match rmp_serde::encode::write(&mut buf, &fields) {
        Ok(()) => Some(buf),
        Err(_) => None,
    }
}

/// An upper bound on the encoded length of the strings: five bytes for the array's mark,
/// and for each string its UTF-8 bytes and five for its mark.
pub open spec fn strings_bound(v: Seq<Seq<char>>) -> int
    decreases v.len(),
{
    if v.len() == 0 {
        5
    } else {
        strings_bound(v.drop_last()) + 5 + encode_utf8(v.last()).len()
    }
}

/// Strings whose counts MessagePack can hold: at most `u32::MAX` of them, each of at most
/// `u32::MAX` bytes.
pub open spec fn strings_encodable(v: Seq<Seq<char>>) -> bool {
    &&& v.len() <= u32::MAX
    &&& forall|i: int| 0 <= i < v.len() ==> encode_utf8(#[trigger] v[i]).len() <= u32::MAX
}

/// Relies on `rmp_serde::from_read` over a byte slice, which reads exactly one value:
/// bytes that begin with the encoding of some strings decode to them, where no count
/// overflowed the 32 bits MessagePack gives it, and the number of bytes left after the
/// value is returned.
#[verifier::external_body]
fn decode_strings(bytes: &[u8]) -> (r: Option<(Vec<String>, usize)>)
    ensures
        r matches Some((_, left)) ==> left <= bytes@.len(),
        r matches Some((x, left)) ==> forall|v: Seq<Seq<char>>, rest: Seq<u8>|
            #[trigger] (msgpack_strings(v) + rest) == bytes@ && strings_encodable(v) ==> strings_view(x@)
                == v && left == rest.len(),
        r is None ==> forall|v: Seq<Seq<char>>, rest: Seq<u8>|
            #[trigger] (msgpack_strings(v) + rest) == bytes@ ==> !strings_encodable(v),
{
    let mut rd: &[u8] = bytes;
    let v: Option<Vec<String>> = rmp_serde::from_read(&mut rd).ok();
    v.map(|v| (v, rd.len()))
}

/// Relies on `rmp_serde::from_read` over a byte slice, which reads exactly one value:
/// bytes that begin with the encoding of at most `u32::MAX` integers decode to them.
#[verifier::external_body]
fn decode_u64s(bytes: &[u8]) -> (r: Option<Vec<u64>>)
    ensures
        r matches Some(x) ==> forall|v: Seq<u64>, rest: Seq<u8>|
            #[trigger] (msgpack_u64s(v) + rest) == bytes@ && v.len() <= u32::MAX ==> x@ == v,
        r is None ==> forall|v: Seq<u64>, rest: Seq<u8>|
            #[trigger] (msgpack_u64s(v) + rest) == bytes@ ==> v.len() > u32::MAX,
{
    let mut rd: &[u8] = bytes;
    rmp_serde::from_read(&mut rd).ok()
}

/// The fields of a header, in order.
pub type HeaderFields = (u64, u64, u64, u64, Vec<u64>, u64, u64, u64);

/// Relies on `rmp_serde::from_read` over a byte slice, which reads exactly one value:
/// bytes that begin with the encoding of a header's fields, with at most `u32::MAX`
/// offsets, decode to them.
#[verifier::external_body]
fn decode_header(bytes: &[u8]) -> (r: Option<HeaderFields>)
    ensures
        r matches Some(h) ==> forall|start: u64, tags: u64, keys: u64, timestamps: u64, index: Seq<u64>, from: u64, to: u64, size: u64, rest: Seq<u8>|
            #[trigger] (msgpack_header(start, tags, keys, timestamps, index, from, to, size) + rest) == bytes@ && index.len() <= u32::MAX ==> h.0 == start && h.1 == tags && h.2 == keys && h.3 == timestamps && h.4@ == index && h.5 == from && h.6 == to && h.7 == size,
        r is None ==> forall|start: u64, tags: u64, keys: u64, timestamps: u64, index: Seq<u64>, from: u64, to: u64, size: u64, rest: Seq<u8>|
            #[trigger] (msgpack_header(start, tags, keys, timestamps, index, from, to, size) + rest) == bytes@ ==> index.len() > u32::MAX,
{
    let mut rd: &[u8] = bytes;
    rmp_serde::from_read(&mut rd).ok()
}

/// `b` stands in `bytes` from offset `at` on.
pub open spec fn stored_at(bytes: Seq<u8>, at: int, b: Seq<u8>) -> bool {
    0 <= at && at + b.len() <= bytes.len() && bytes.subrange(at, at + b.len()) == b
}

/// The first element, then the difference of each element from the one before it.
pub open spec fn deltas(l: Seq<u64>) -> Seq<u64> {
    Seq::new(l.len(), |i: int| if i == 0 { l[0] } else { (l[i] - l[i - 1]) as u64 })
}

/// The sum of the first `i + 1` elements.
pub open spec fn prefix_sum(d: Seq<u64>, i: int) -> int
    decreases i,
{
    if i <= 0 {
        d[0] as int
    } else {
        prefix_sum(d, i - 1) + d[i]
    }
}

/// Summing the deltas of an ascending list gives the list back.
pub proof fn lemma_prefix_sum_of_deltas(l: Seq<u64>, i: int)
    requires
        ascending(l),
        0 <= i < l.len(),
    ensures
        prefix_sum(deltas(l), i) == l[i],
    decreases i,
{
    if i > 0 {
        lemma_prefix_sum_of_deltas(l, i - 1);
    }
}

/// Bytes `b` written over `data` from offset `pos`, any gap before `pos` filled with zeros.
pub open spec fn overwrite(data: Seq<u8>, pos: int, b: Seq<u8>) -> Seq<u8> {
    let padded = if pos > data.len() {
        data + Seq::new((pos - data.len()) as nat, |_i: int| 0u8)
    } else {
        data
    };
    let end = pos + b.len();
    padded.subrange(0, pos) + b + if end < padded.len() {
        padded.subrange(end, padded.len() as int)
    } else {
        Seq::empty()
    }
}

proof fn lemma_overwrite_len(data: Seq<u8>, pos: int, b: Seq<u8>)
    requires
        0 <= pos,
    ensures
        overwrite(data, pos, b).len() == if pos + b.len() > data.len() {
            pos + b.len()
        } else {
            data.len() as int
        },
{
}

proof fn lemma_overwrite_here(data: Seq<u8>, pos: int, b: Seq<u8>)
    requires
        0 <= pos,
    ensures
        stored_at(overwrite(data, pos, b), pos, b),
{
    let r = overwrite(data, pos, b);
    lemma_overwrite_len(data, pos, b);
    assert(r.subrange(pos, pos + b.len()) =~= b);
}

proof fn lemma_overwrite_keeps(data: Seq<u8>, pos: int, b: Seq<u8>, at: int, x: Seq<u8>)
    requires
        0 <= pos,
        stored_at(data, at, x),
        pos >= at + x.len() || pos + b.len() <= at,
    ensures
        stored_at(overwrite(data, pos, b), at, x),
{
    let r = overwrite(data, pos, b);
    lemma_overwrite_len(data, pos, b);
    assert forall|k: int| 0 <= k < x.len() implies r[at + k] == x[k] by {
        assert(data.subrange(at, at + x.len())[k] == data[at + k]);
    }
    assert(r.subrange(at, at + x.len()) =~= x);
}

/// `after` is at least as long as `before` and holds the same bytes below offset `p`.
pub open spec fn keeps_below(before: Seq<u8>, after: Seq<u8>, p: int) -> bool {
    &&& before.len() <= after.len()
    &&& forall|k: int| 0 <= k < p && k < before.len() ==> after[k] == before[k]
}

proof fn lemma_overwrite_keeps_below(data: Seq<u8>, pos: int, b: Seq<u8>)
    requires
        0 <= pos,
    ensures
        keeps_below(data, overwrite(data, pos, b), pos),
{
    lemma_overwrite_len(data, pos, b);
}

proof fn lemma_keeps_stored(a: Seq<u8>, c: Seq<u8>, p: int, at: int, x: Seq<u8>)
    requires
        stored_at(a, at, x),
        at + x.len() <= p,
        keeps_below(a, c, p),
    ensures
        stored_at(c, at, x),
{
    assert forall|k: int| 0 <= k < x.len() implies c[at + k] == x[k] by {
        assert(a.subrange(at, at + x.len())[k] == a[at + k]);
    }
    assert(c.subrange(at, at + x.len()) =~= x);
}

/// A seekable stream of bytes held in memory, which behaves as a cursor over a `Vec<u8>`:
/// a write at the position overwrites bytes there and extends the stream past its end.
#[derive(Debug, Clone)]
pub struct Stream {
    pub bytes: Vec<u8>,
    pub pos: usize,
}

impl Stream {
    pub fn new(bytes: Vec<u8>) -> (r: Stream)
        ensures
            r.bytes == bytes,
            r.pos == 0,
    {
        Stream { bytes, pos: 0 }
    }

    pub fn seek(&mut self, pos: usize)
        ensures
            final(self).bytes == old(self).bytes,
            final(self).pos == pos,
    {
        self.pos = pos;
    }

    pub fn position(&self) -> (r: usize)
        ensures
            r == self.pos,
    {
        self.pos
    }

    /// Writes `b` at the position and moves past it; fails, changing nothing, where the
    /// end would not fit in `usize`.
    pub fn write_all(&mut self, b: &[u8]) -> (r: Result<(), StorageError>)
        ensures
            r is Ok <==> old(self).pos + b@.len() <= usize::MAX,
            r is Ok ==> final(self).bytes@ == overwrite(old(self).bytes@, old(self).pos as int, b@)
                && final(self).pos == old(self).pos + b@.len(),
            r is Err ==> *final(self) == *old(self),
    {
        if b.len() > usize::MAX - self.pos {
            return Err(StorageError::Io);
        }
        let ghost data = self.bytes@;
        let ghost pos = self.pos as int;
        while self.bytes.len() < self.pos
            invariant
                self.pos == pos,
                data.len() <= self.bytes@.len() <= pos || self.bytes@.len() == data.len(),
                self.bytes@ =~= if pos > data.len() {
                    data + Seq::new((self.bytes@.len() - data.len()) as nat, |_i: int| 0u8)
                } else {
                    data
                },
            decreases pos - self.bytes@.len(),
        {
            self.bytes.push(0);
        }
        let ghost padded = self.bytes@;
        let mut k: usize = 0;
        while k < b.len()
            invariant
                k <= b@.len(),
                self.pos == pos,
                pos + b@.len() <= usize::MAX,
                padded.len() >= pos,
                padded =~= if pos > data.len() {
                    data + Seq::new((pos - data.len()) as nat, |_i: int| 0u8)
                } else {
                    data
                },
                self.bytes@ =~= padded.subrange(0, pos) + b@.subrange(0, k as int) + if pos + k
                    < padded.len() {
                    padded.subrange(pos + k, padded.len() as int)
                } else {
                    Seq::empty()
                },
            decreases b@.len() - k,
        {
            let at = self.pos + k;
            if at < self.bytes.len() {
                self.bytes.set(at, b[k]);
            } else {
                self.bytes.push(b[k]);
            }
            k += 1;
        }
        self.pos = self.pos + b.len();
        Ok(())
    }

    /// The bytes from offset `at` to the end: empty where `at` is past the end.
    pub fn tail(&self, at: usize) -> (r: &[u8])
        ensures
            at <= self.bytes@.len() ==> r@ == self.bytes@.subrange(at as int, self.bytes@.len() as int),
            at > self.bytes@.len() ==> r@.len() == 0,
    {
        if at <= self.bytes.len() {
            self.bytes.as_slice().split_at(at).1
        } else {
            self.bytes.as_slice().split_at(self.bytes.len()).1
        }
    }
}

/// Upper bound on the encoded size of a header with `n` posting lists: one byte of array
/// mark, nine for each of the start and the three section offsets, five of array overhead,
/// nine per posting-list offset, nine each for the time range and for the size.
pub fn header_size(n: usize) -> (r: u64)
    requires
        n <= (u64::MAX - 69) / 9,
    ensures
        r == 1 + 4 * 9 + 5 + n * 9 + 2 * 9 + 9,
{
    1 + 4 * 9 + 5 + n as u64 * 9 + 2 * 9 + 9
}

/// Where the sections of a stored block begin, the time range it covers and how many
/// bytes it takes.
#[derive(Debug, Clone, PartialEq)]
pub struct BlockHeader {
    pub start: u64,
    pub tags: u64,
    pub keys: u64,
    pub timestamps: u64,
    pub index: Vec<u64>,
    pub from: Timestamp,
    pub to: Timestamp,
    pub size: u64,
}

impl View for BlockHeader {
    type V = (u64, u64, u64, u64, Seq<u64>, Timestamp, Timestamp, u64);

    open spec fn view(&self) -> Self::V {
        (
            self.start,
            self.tags,
            self.keys,
            self.timestamps,
            self.index@,
            self.from,
            self.to,
            self.size,
        )
    }
}

/// The encoding of the header.
pub open spec fn header_bytes(h: (u64, u64, u64, u64, Seq<u64>, Timestamp, Timestamp, u64)) -> Seq<
    u8,
> {
    msgpack_header(h.0, h.1, h.2, h.3, h.4, h.5, h.6, h.7)
}

/// Block `b` is stored in `bytes` as header `h` describes: the header at its start, and
/// each section at the offset the header gives.
pub open spec fn block_stored(
    bytes: Seq<u8>,
    h: (u64, u64, u64, u64, Seq<u64>, Timestamp, Timestamp, u64),
    b: BlockData,
) -> bool {
    &&& stored_at(bytes, h.0 as int, header_bytes(h))
    &&& sections_stored(bytes, h, b)
}

/// The tags, keys, timestamps and the delta-coded posting lists of `b` stand at the
/// offsets in `h`.
pub open spec fn sections_stored(
    bytes: Seq<u8>,
    h: (u64, u64, u64, u64, Seq<u64>, Timestamp, Timestamp, u64),
    b: BlockData,
) -> bool {
    &&& stored_at(bytes, h.1 as int, msgpack_strings(b.tag_seq()))
    &&& stored_at(bytes, h.2 as int, msgpack_strings(b.key_seq()))
    &&& stored_at(bytes, h.3 as int, msgpack_u64s(b.timestamps@))
    &&& h.4.len() == b.index@.len()
    &&& forall|i: int|
        0 <= i < h.4.len() ==> stored_at(
            bytes,
            #[trigger] h.4[i] as int,
            msgpack_u64s(deltas(b.lists()[i])),
        )
}

/// Every part of block `b` stored as `h` describes lies within the `h.7` bytes from `h.0`.
pub open spec fn block_within(
    h: (u64, u64, u64, u64, Seq<u64>, Timestamp, Timestamp, u64),
    b: BlockData,
) -> bool {
    let end = h.0 + h.7;
    &&& h.0 + header_bytes(h).len() <= end
    &&& h.1 + msgpack_strings(b.tag_seq()).len() <= end
    &&& h.2 + msgpack_strings(b.key_seq()).len() <= end
    &&& h.3 + msgpack_u64s(b.timestamps@).len() <= end
    &&& forall|i: int|
        0 <= i < h.4.len() ==> #[trigger] h.4[i] + msgpack_u64s(deltas(b.lists()[i])).len() <= end
}

impl Default for BlockHeader {
    fn default() -> (r: BlockHeader)
        ensures
            r.start == 0 && r.tags == 0 && r.keys == 0 && r.timestamps == 0 && r.index@.len()
                == 0 && r.from == 0 && r.to == 0 && r.size == 0,
    {
        BlockHeader {
            start: 0,
            tags: 0,
            keys: 0,
            timestamps: 0,
            index: Vec::new(),
            from: 0,
            to: 0,
            size: 0,
        }
    }
}

/// The delta coding of an ascending list.
fn delta_encode(l: &Vec<Index>) -> (r: Vec<u64>)
    requires
        ascending(l@),
    ensures
        r@ == deltas(l@),
{
    let mut r: Vec<u64> = Vec::new();
    let mut k: usize = 0;
    while k < l.len()
        invariant
            k <= l@.len(),
            ascending(l@),
            r@.len() == k,
            forall|x: int| 0 <= x < k ==> r@[x] == deltas(l@)[x],
        decreases l@.len() - k,
    {
        if k == 0 {
            r.push(l[0]);
        } else {
            r.push(l[k] - l[k - 1]);
        }
        k += 1;
    }
    assert(r@ =~= deltas(l@));
    r
}

/// Writes `enc` at the stream's position, keeping every region listed in `kept` that
/// ends at or before that position.
fn put(out: &mut Stream, enc: &Vec<u8>) -> (r: Result<(), StorageError>)
    ensures
        r is Ok ==> final(out).bytes@ == overwrite(old(out).bytes@, old(out).pos as int, enc@)
            && final(out).pos == old(out).pos + enc@.len()
            && stored_at(final(out).bytes@, old(out).pos as int, enc@)
            && keeps_below(old(out).bytes@, final(out).bytes@, old(out).pos as int)
            && final(out).pos <= final(out).bytes@.len()
            && final(out).bytes@.len() == if old(out).bytes@.len() > old(out).pos + enc@.len() {
                old(out).bytes@.len() as int
            } else {
                old(out).pos + enc@.len()
            },
        r is Ok <==> old(out).pos + enc@.len() <= usize::MAX,
        r is Ok ==> forall|at: int, x: Seq<u8>|
            #![trigger stored_at(final(out).bytes@, at, x)]
            stored_at(old(out).bytes@, at, x) && at + x.len() <= old(out).pos ==> stored_at(
                final(out).bytes@,
                at,
                x,
            ),
{
    let r = out.write_all(enc.as_slice());
    proof {
        if r is Ok {
            lemma_overwrite_here(old(out).bytes@, old(out).pos as int, enc@);
            lemma_overwrite_len(old(out).bytes@, old(out).pos as int, enc@);
            lemma_overwrite_keeps_below(old(out).bytes@, old(out).pos as int, enc@);
            assert forall|at: int, x: Seq<u8>|
                #![trigger stored_at(out.bytes@, at, x)]
                stored_at(old(out).bytes@, at, x) && at + x.len() <= old(out).pos implies stored_at(
                out.bytes@,
                at,
                x,
            ) by {
                lemma_overwrite_keeps(old(out).bytes@, old(out).pos as int, enc@, at, x);
            }
        }
    }
    r
}

/// What MessagePack can hold of the block: every count within 32 bits.
pub open spec fn encodable(b: BlockData) -> bool {
    &&& strings_encodable(b.tag_seq())
    &&& strings_encodable(b.key_seq())
    &&& b.timestamps@.len() <= u32::MAX
    &&& b.index@.len() <= u32::MAX
    &&& forall|i: int| 0 <= i < b.index@.len() ==> (#[trigger] b.lists()[i]).len() <= u32::MAX
}

/// The bytes that the first `i` delta-coded posting lists take.
pub open spec fn lists_len(b: BlockData, i: int) -> int
    decreases i,
{
    if i <= 0 {
        0
    } else {
        lists_len(b, i - 1) + msgpack_u64s(deltas(b.lists()[i - 1])).len()
    }
}

/// The bytes a stored block takes: the room for the header, then tags, keys, timestamps
/// and posting lists.
pub open spec fn block_len(b: BlockData) -> int {
    69 + 9 * b.index@.len() + msgpack_strings(b.tag_seq()).len() + msgpack_strings(
        b.key_seq(),
    ).len() + msgpack_u64s(b.timestamps@).len() + lists_len(b, b.index@.len() as int)
}

/// The sections follow one another without gaps, tags, keys, timestamps, then the posting
/// lists in order, after room of `header_size(n)` bytes that the header's encoding fits
/// in; the size is the sum of them all.
pub open spec fn laid_out(
    h: (u64, u64, u64, u64, Seq<u64>, Timestamp, Timestamp, u64),
    b: BlockData,
) -> bool {
    let n = b.index@.len();
    &&& h.1 == h.0 + 69 + 9 * n
    &&& h.2 == h.1 + msgpack_strings(b.tag_seq()).len()
    &&& h.3 == h.2 + msgpack_strings(b.key_seq()).len()
    &&& h.4.len() == n
    &&& forall|i: int|
        0 <= i < n ==> #[trigger] h.4[i] == h.3 + msgpack_u64s(b.timestamps@).len() + lists_len(
            b,
            i,
        )
    &&& h.7 == block_len(b)
    &&& header_bytes(h).len() <= 69 + 9 * n
}

proof fn lemma_lists_len_mono(b: BlockData, i: int, j: int)
    requires
        0 <= i <= j,
    ensures
        0 <= lists_len(b, i) <= lists_len(b, j),
    decreases j,
{
    if j > i {
        lemma_lists_len_mono(b, i, j - 1);
    } else if i > 0 {
        lemma_lists_len_mono(b, 0, i - 1);
    }
}

/// Whether MessagePack can hold the strings' counts.
fn strings_fit(v: &Vec<String>) -> (r: bool)
    ensures
        r == strings_encodable(strings_view(v@)),
{
    if v.len() > u32::MAX as usize {
        return false;
    }
    let mut k: usize = 0;
    while k < v.len()
        invariant
            k <= v@.len(),
            v@.len() <= u32::MAX,
            forall|i: int| 0 <= i < k ==> encode_utf8(#[trigger] strings_view(v@)[i]).len() <= u32::MAX,
        decreases v@.len() - k,
    {
        if v[k].as_str().as_bytes().len() > u32::MAX as usize {
            assert(encode_utf8(strings_view(v@)[k as int]).len() > u32::MAX);
            return false;
        }
        k += 1;
    }
    true
}

impl BlockData {
    /// Stores the block in `file` at its position and gives back the stream with its
    /// header. Fails, giving the block back, where a posting list is not loaded, where a
    /// count does not fit MessagePack, or where the stream would pass `usize::MAX` bytes.
    pub fn write(self, file: Stream) -> (r: Result<BlockFile, (BlockData, StorageError)>)
        requires
            self.lists_valid(),
        ensures
            !self.loaded() ==> r matches Err((_, StorageError::IndexNotLoaded)),
            self.loaded() && !encodable(self) ==> r matches Err((_, StorageError::Encode)),
            self.loaded() && encodable(self) && file.pos + block_len(self) <= usize::MAX
                ==> r is Ok,
            r matches Ok(f) ==> f.data == self && BlockData::written(&self, &file, &f.file, &f.header),
            r matches Err((d, _)) ==> d == self,
    {
        let mut file = file;
        match self.write_impl(&mut file) {
            Ok(header) => Ok(BlockFile { file, header, data: self }),
            Err(e) => Err((self, e)),
        }
    }

    /// `after` is `before` with the block stored at its old position as header `h` says
    /// and laid out in order, the bytes before the block kept, the stream ending at the
    /// block's end or where it ended before if that is further, and the position just past
    /// the block.
    pub open spec fn written(&self, before: &Stream, after: &Stream, h: &BlockHeader) -> bool {
        &&& self.loaded()
        &&& encodable(*self)
        &&& block_stored(after.bytes@, h@, *self)
        &&& block_within(h@, *self)
        &&& laid_out(h@, *self)
        &&& keeps_below(before.bytes@, after.bytes@, h.start as int)
        &&& after.bytes@.len() == if before.bytes@.len() > h.start + h.size {
            before.bytes@.len() as int
        } else {
            h.start + h.size
        }
        &&& after.pos <= after.bytes@.len()
        &&& h.start == before.pos
        &&& after.pos == h.start + h.size
        &&& h.from == if self.timestamps@.len() > 0 {
            self.timestamps@.first()
        } else {
            0
        }
        &&& h.to == if self.timestamps@.len() > 0 {
            self.timestamps@.last()
        } else {
            0
        }
    }

    fn write_impl(&self, out: &mut Stream) -> (r: Result<BlockHeader, StorageError>)
        requires
            self.lists_valid(),
        ensures
            !self.loaded() ==> r == Err::<BlockHeader, StorageError>(StorageError::IndexNotLoaded),
            self.loaded() && !encodable(*self) ==> r == Err::<BlockHeader, StorageError>(
                StorageError::Encode,
            ),
            self.loaded() && encodable(*self) && old(out).pos + block_len(*self) <= usize::MAX
                ==> r is Ok,
            r matches Ok(h) ==> self.written(old(out), final(out), &h),
    {
        let n = self.index.len();
        let mut k: usize = 0;
        while k < n
            invariant
                n == self.index@.len(),
                k <= n,
                forall|i: int| 0 <= i < k ==> (#[trigger] self.index@[i]).is_some(),
            decreases n - k,
        {
            if self.index[k].is_none() {
                return Err(StorageError::IndexNotLoaded);
            }
            k += 1;
        }
        if !strings_fit(&self.tags) || !strings_fit(&self.keys) || self.timestamps.len()
            > u32::MAX as usize || n > u32::MAX as usize {
            return Err(StorageError::Encode);
        }
        let mut k: usize = 0;
        while k < n
            invariant
                n == self.index@.len(),
                self.lists_valid(),
                self.loaded(),
                k <= n,
                forall|i: int| 0 <= i < k ==> (#[trigger] self.lists()[i]).len() <= u32::MAX,
            decreases n - k,
        {
            let list = match &self.index[k] {
                Some(l) => l,
                None => return Err(StorageError::IndexNotLoaded),
            };
            let list: &Vec<Index> = &**list;
            assert(list@ == self.lists()[k as int]);
            if list.len() > u32::MAX as usize {
                return Err(StorageError::Encode);
            }
            k += 1;
        }
        let ghost fits = old(out).pos + block_len(*self) <= usize::MAX;
        proof {
            lemma_lists_len_mono(*self, 0, n as int);
        }
        let hs = header_size(n);
        let start = out.position();
        let ghost orig = out.bytes@;
        if hs > (usize::MAX - start) as u64 {
            return Err(StorageError::Io);
        }
        let tags_pos: usize = start + hs as usize;
        out.seek(tags_pos);
        let enc = match encode_strings(&self.tags) {
            Some(e) => e,
            None => return Err(StorageError::Encode),
        };
        let ghost enc_tags = enc@;
        if put(out, &enc).is_err() {
            return Err(StorageError::Io);
        }
        let keys_pos = out.position();
        let enc = match encode_strings(&self.keys) {
            Some(e) => e,
            None => return Err(StorageError::Encode),
        };
        let ghost enc_keys = enc@;
        if put(out, &enc).is_err() {
            return Err(StorageError::Io);
        }
        let ts_pos = out.position();
        let enc = match encode_u64s(&self.timestamps) {
            Some(e) => e,
            None => return Err(StorageError::Encode),
        };
        let ghost enc_ts = enc@;
        if put(out, &enc).is_err() {
            return Err(StorageError::Io);
        }
        let mut offsets: Vec<u64> = Vec::new();
        let mut k: usize = 0;
        while k < n
            invariant
                self.lists_valid(),
                self.loaded(),
                encodable(*self),
                fits == (start + block_len(*self) <= usize::MAX),
                start == old(out).pos,
                n == self.index@.len(),
                k <= n,
                offsets@.len() == k,
                start <= tags_pos <= keys_pos <= ts_pos <= out.pos,
                tags_pos == start + hs,
                hs == 69 + 9 * n,
                enc_tags == msgpack_strings(self.tag_seq()),
                enc_keys == msgpack_strings(self.key_seq()),
                enc_ts == msgpack_u64s(self.timestamps@),
                keys_pos == tags_pos + enc_tags.len(),
                ts_pos == keys_pos + enc_keys.len(),
                out.pos == ts_pos + enc_ts.len() + lists_len(*self, k as int),
                out.bytes@.len() == if orig.len() > out.pos {
                    orig.len() as int
                } else {
                    out.pos as int
                },
                stored_at(out.bytes@, tags_pos as int, enc_tags),
                stored_at(out.bytes@, keys_pos as int, enc_keys),
                stored_at(out.bytes@, ts_pos as int, enc_ts),
                tags_pos + enc_tags.len() <= out.pos,
                keys_pos + enc_keys.len() <= out.pos,
                ts_pos + enc_ts.len() <= out.pos,
                keeps_below(orig, out.bytes@, start as int),
                out.pos <= out.bytes@.len(),
                forall|i: int|
                    0 <= i < k ==> #[trigger] offsets@[i] == ts_pos + enc_ts.len() + lists_len(
                        *self,
                        i,
                    ),
                forall|i: int|
                    0 <= i < k ==> tags_pos <= #[trigger] offsets@[i] && offsets@[i]
                        + msgpack_u64s(deltas(self.lists()[i])).len() <= out.pos && stored_at(
                        out.bytes@,
                        offsets@[i] as int,
                        msgpack_u64s(deltas(self.lists()[i])),
                    ),
            decreases n - k,
        {
            let at = out.position();
            let list = match &self.index[k] {
                Some(l) => l,
                None => return Err(StorageError::IndexNotLoaded),
            };
            let list: &Vec<Index> = &**list;
            assert(list@ == self.lists()[k as int]);
            let d = delta_encode(list);
            let enc = match encode_u64s(&d) {
                Some(e) => e,
                None => return Err(StorageError::Encode),
            };
            let ghost before = out.bytes@;
            proof {
                lemma_lists_len_mono(*self, k + 1, n as int);
                assert(lists_len(*self, k + 1) == lists_len(*self, k as int) + enc@.len());
            }
            if put(out, &enc).is_err() {
                return Err(StorageError::Io);
            }
            offsets.push(at as u64);
            k += 1;
            proof {
                assert forall|i: int|
                    0 <= i < k implies tags_pos <= #[trigger] offsets@[i] && offsets@[i]
                    + msgpack_u64s(deltas(self.lists()[i])).len() <= out.pos && stored_at(
                    out.bytes@,
                    offsets@[i] as int,
                    msgpack_u64s(deltas(self.lists()[i])),
                ) by {
                    if i < k - 1 {
                        assert(stored_at(
                            before,
                            offsets@[i] as int,
                            msgpack_u64s(deltas(self.lists()[i])),
                        ));
                    }
                }
                assert forall|i: int| 0 <= i < k implies #[trigger] offsets@[i] == ts_pos
                    + enc_ts.len() + lists_len(*self, i) by {
                    if i < k - 1 {
                    }
                }
            }
        }
        let end = out.position();
        let size = (end - start) as u64;
        let from = if self.timestamps.len() > 0 {
            self.timestamps[0]
        } else {
            0
        };
        let to = if self.timestamps.len() > 0 {
            self.timestamps[self.timestamps.len() - 1]
        } else {
            0
        };
        let header = BlockHeader {
            start: start as u64,
            tags: tags_pos as u64,
            keys: keys_pos as u64,
            timestamps: ts_pos as u64,
            index: offsets,
            from,
            to,
            size,
        };
        let ghost body = out.bytes@;
        out.seek(start);
        let enc = match encode_header(&header) {
            Some(e) => e,
            None => return Err(StorageError::Encode),
        };
        if enc.len() as u64 > hs {
            return Err(StorageError::HeaderOverflow);
        }
        let r = out.write_all(enc.as_slice());
        if r.is_err() {
            return Err(StorageError::Io);
        }
        proof {
            lemma_overwrite_len(body, start as int, enc@);
            lemma_overwrite_here(body, start as int, enc@);
            lemma_overwrite_keeps_below(body, start as int, enc@);
            lemma_overwrite_keeps(body, start as int, enc@, tags_pos as int, enc_tags);
            lemma_overwrite_keeps(body, start as int, enc@, keys_pos as int, enc_keys);
            lemma_overwrite_keeps(body, start as int, enc@, ts_pos as int, enc_ts);
            assert forall|i: int| 0 <= i < header.index@.len() implies stored_at(
                out.bytes@,
                #[trigger] header.index@[i] as int,
                msgpack_u64s(deltas(self.lists()[i])),
            ) by {
                lemma_overwrite_keeps(
                    body,
                    start as int,
                    enc@,
                    header.index@[i] as int,
                    msgpack_u64s(deltas(self.lists()[i])),
                );
            }
        }
        out.seek(end);
        Ok(header)
    }
}

impl BlockHeader {
    /// The header's encoding, as it is stored ahead of a block.
    /// It takes at most `header_size(n)` bytes for `n` offsets of posting lists.
    pub fn encode(&self) -> (r: Option<Vec<u8>>)
        requires
            self.index@.len() <= u32::MAX,
        ensures
            r is Some,
            r matches Some(b) ==> b@ == header_bytes(self@) && b@.len() <= 69 + 9
                * self.index@.len(),
    {
        encode_header(self)
    }
}

/// Two blocks written one after the other into one stream: the second begins where the
/// first ends, and the first is still stored whole, so each can be read back from its own
/// start.
pub proof fn lemma_blocks_in_one_stream(
    b1: BlockData,
    b2: BlockData,
    s0: Stream,
    s1: Stream,
    s2: Stream,
    h1: BlockHeader,
    h2: BlockHeader,
)
    requires
        b1.written(&s0, &s1, &h1),
        b2.written(&s1, &s2, &h2),
    ensures
        h2.start == h1.start + h1.size,
        block_stored(s2.bytes@, h1@, b1),
{
    let (a, c, p) = (s1.bytes@, s2.bytes@, h2.start as int);
    lemma_keeps_stored(a, c, p, h1.start as int, header_bytes(h1@));
    lemma_keeps_stored(a, c, p, h1.tags as int, msgpack_strings(b1.tag_seq()));
    lemma_keeps_stored(a, c, p, h1.keys as int, msgpack_strings(b1.key_seq()));
    lemma_keeps_stored(a, c, p, h1.timestamps as int, msgpack_u64s(b1.timestamps@));
    assert forall|i: int| 0 <= i < h1.index@.len() implies stored_at(
        c,
        #[trigger] h1.index@[i] as int,
        msgpack_u64s(deltas(b1.lists()[i])),
    ) by {
        lemma_keeps_stored(a, c, p, h1.index@[i] as int, msgpack_u64s(deltas(b1.lists()[i])));
    }
}

impl InMemoryBlock {
    /// Stores the block in `file`; on failure gives the block back with the error. An
    /// in-memory block has every list loaded, so only the sizes can make it fail.
    pub fn write(self, file: Stream) -> (r: Result<BlockFile, (InMemoryBlock, StorageError)>)
        requires
            self.wf(),
        ensures
            !encodable(self.data) ==> r matches Err((_, StorageError::Encode)),
            encodable(self.data) && file.pos + block_len(self.data) <= usize::MAX ==> r is Ok,
            r matches Ok(f) ==> f.data == self.data && BlockData::written(
                &self.data,
                &file,
                &f.file,
                &f.header,
            ),
            r matches Err((b, _)) ==> b == self,
    {
        let size = self.size;
        match self.data.write(file) {
            Ok(f) => Ok(f),
            Err((data, e)) => Err((InMemoryBlock { data, size }, e)),
        }
    }
}

/// A block stored in a stream: its header, its tags, keys and timestamps, and the posting
/// lists read so far.
#[derive(Debug)]
pub struct BlockFile {
    pub file: Stream,
    pub header: BlockHeader,
    pub data: BlockData,
}

impl BlockHeader {
    /// Reads the header stored at offset `start`, which must record that same start.
    pub fn read_header(input: &Stream, start: u64) -> (r: Result<BlockHeader, StorageError>)
        ensures
            r matches Ok(h) ==> h.start == start,
            forall|hv: (u64, u64, u64, u64, Seq<u64>, Timestamp, Timestamp, u64)|
                #![trigger header_bytes(hv)]
                stored_at(input.bytes@, start as int, header_bytes(hv)) && hv.0 == start && hv.4.len()
                    <= u32::MAX ==> (r matches Ok(h) && h@ == hv),
    {
        let _ = input.bytes.len();
        if start > usize::MAX as u64 {
            return Err(StorageError::Io);
        }
        let t = input.tail(start as usize);
        let r = match decode_header(t) {
            Some(f) => if f.0 == start {
                Ok(
                    BlockHeader {
                        start: f.0,
                        tags: f.1,
                        keys: f.2,
                        timestamps: f.3,
                        index: f.4,
                        from: f.5,
                        to: f.6,
                        size: f.7,
                    },
                )
            } else {
                Err(StorageError::Decode)
            },
            None => Err(StorageError::Decode),
        };
        proof {
            let bytes = input.bytes@;
            assert forall|hv: (u64, u64, u64, u64, Seq<u64>, Timestamp, Timestamp, u64)|
                #![trigger header_bytes(hv)]
                stored_at(bytes, start as int, header_bytes(hv)) && hv.0 == start && hv.4.len() <= u32::MAX implies (r matches Ok(h) && h@ == hv) by {
                let enc = header_bytes(hv);
                let rest = bytes.subrange(start + enc.len(), bytes.len() as int);
                assert(t@ =~= enc + rest);
                assert(msgpack_header(hv.0, hv.1, hv.2, hv.3, hv.4, hv.5, hv.6, hv.7) + rest == t@);
            }
        }
        r
    }

    /// Reads the tags, keys and timestamps at the offsets the header gives, one tag for each
    /// posting list; no posting list is loaded yet.
    pub fn read_meta(self, file: Stream) -> (r: Result<BlockFile, StorageError>)
        ensures
            r matches Ok(f) ==> f.file == file && f.header == self && f.inv() && f.data.index@.len()
                == self.index@.len() && forall|i: int|
                0 <= i < f.data.index@.len() ==> (#[trigger] f.data.index@[i]) is None,
            forall|t: Seq<Seq<char>>, k: Seq<Seq<char>>, ts: Seq<u64>|
                #![trigger msgpack_strings(t), msgpack_strings(k), msgpack_u64s(ts)]
                stored_at(file.bytes@, self.tags as int, msgpack_strings(t)) && stored_at(
                    file.bytes@,
                    self.keys as int,
                    msgpack_strings(k),
                ) && stored_at(file.bytes@, self.timestamps as int, msgpack_u64s(ts)) && t.len()
                    == self.index@.len() && strings_encodable(t) && strings_encodable(k) && ts.len()
                    <= u32::MAX ==> (r matches Ok(
                    f,
                ) && f.data.tag_seq() == t && f.data.key_seq() == k && f.data.timestamps@ == ts),
    {
        let ghost bytes = file.bytes@;
        let _ = file.bytes.len();
        if self.tags > usize::MAX as u64 || self.keys > usize::MAX as u64 || self.timestamps
            > usize::MAX as u64 {
            return Err(StorageError::Io);
        }
        let t1 = file.tail(self.tags as usize);
        let t2 = file.tail(self.keys as usize);
        let t3 = file.tail(self.timestamps as usize);
        let d1 = decode_strings(t1);
        let d2 = decode_strings(t2);
        let d3 = decode_u64s(t3);
        proof {
            assert forall|t: Seq<Seq<char>>, k: Seq<Seq<char>>, ts: Seq<u64>|
                #![trigger msgpack_strings(t), msgpack_strings(k), msgpack_u64s(ts)]
                stored_at(bytes, self.tags as int, msgpack_strings(t)) && stored_at(
                    bytes,
                    self.keys as int,
                    msgpack_strings(k),
                ) && stored_at(bytes, self.timestamps as int, msgpack_u64s(ts)) && strings_encodable(t)
                    && strings_encodable(k) && ts.len() <= u32::MAX implies ((d1 matches Some(
                (x, _),
            ) && strings_view(x@) == t) && (d2 matches Some((y, _)) && strings_view(y@) == k)
                && (d3 matches Some(z) && z@ == ts)) by {
                let e1 = msgpack_strings(t);
                let e2 = msgpack_strings(k);
                let e3 = msgpack_u64s(ts);
                let r1 = bytes.subrange(self.tags + e1.len(), bytes.len() as int);
                let r2 = bytes.subrange(self.keys + e2.len(), bytes.len() as int);
                let r3 = bytes.subrange(self.timestamps + e3.len(), bytes.len() as int);
                assert(t1@ =~= e1 + r1);
                assert(t2@ =~= e2 + r2);
                assert(t3@ =~= e3 + r3);
            }
        }
        let (tags, keys, timestamps) = match (d1, d2, d3) {
            (Some((tags, _)), Some((keys, _)), Some(timestamps)) => (tags, keys, timestamps),
            _ => return Err(StorageError::Decode),
        };
        if self.index.len() != tags.len() {
            return Err(StorageError::Decode);
        }
        let mut index: Vec<Option<Arc<Vec<Index>>>> = Vec::new();
        let mut k: usize = 0;
        while k < self.index.len()
            invariant
                k <= self.index@.len(),
                index@.len() == k,
                forall|i: int| 0 <= i < k ==> (#[trigger] index@[i]) is None,
            decreases self.index@.len() - k,
        {
            index.push(None);
            k += 1;
        }
        let data = BlockData { tags, keys, timestamps, index };
        proof {
            assert forall|i: int| 0 <= i < data.index@.len() implies ascending(
                #[trigger] data.lists()[i],
            ) && below(data.lists()[i], data.keys@.len() as int) by {
                assert(data.lists()[i] == Seq::<Index>::empty());
            }
        }
        Ok(BlockFile { file, header: self, data })
    }
}

impl BlockFile {
    /// A header that matches the block, whose loaded posting lists are valid.
    pub open spec fn inv(&self) -> bool {
        &&& self.data.lists_valid()
        &&& self.header.index@.len() == self.data.index@.len()
    }

    /// Reads the block stored at offset `start` of `file`: header, tags, keys and
    /// timestamps, then every posting list. A block that `write` stored there comes back
    /// whole.
    pub fn open(file: Stream, start: u64) -> (r: Result<BlockFile, StorageError>)
        ensures
            r matches Ok(f) ==> f.inv() && f.data.loaded() && f.header.start == start,
            forall|b: BlockData, s: Stream, h: BlockHeader|
                #![trigger b.written(&s, &file, &h)]
                b.written(&s, &file, &h) && b.lists_valid() && h.start == start ==> (r matches Ok(f)
                    && f.header@ == h@ && f.data.tag_seq() == b.tag_seq() && f.data.key_seq()
                    == b.key_seq() && f.data.timestamps@ == b.timestamps@ && f.data.lists()
                    == b.lists()),
    {
        let header = match BlockHeader::read_header(&file, start) {
            Ok(h) => h,
            Err(e) => return Err(e),
        };
        let ghost hv = header@;
        let mut f = match header.read_meta(file) {
            Ok(f) => f,
            Err(e) => return Err(e),
        };
        let ghost meta = f;
        let r = f.read_all();
        proof {
            assert forall|b: BlockData, s: Stream, h: BlockHeader|
                #![trigger b.written(&s, &file, &h)]
                b.written(&s, &file, &h) && b.lists_valid() && h.start == start implies (r is Ok
                && f.header@ == h@ && f.data.tag_seq() == b.tag_seq() && f.data.key_seq()
                == b.key_seq() && f.data.timestamps@ == b.timestamps@ && f.data.lists()
                == b.lists()) by {
                assert(header_bytes(h@) == header_bytes(h@));
                assert(hv == h@);
                assert(msgpack_strings(b.tag_seq()) == msgpack_strings(b.tag_seq()));
                assert(msgpack_strings(b.key_seq()) == msgpack_strings(b.key_seq()));
                assert(msgpack_u64s(b.timestamps@) == msgpack_u64s(b.timestamps@));
                assert(b.key_seq().len() == b.keys@.len());
                assert(meta.data.key_seq().len() == meta.data.keys@.len());
                assert(meta.sections_hold(b));
            }
        }
        match r {
            Ok(()) => Ok(f),
            Err(e) => Err(e),
        }
    }

    /// No posting list is loaded.
    pub open spec fn unloaded(&self) -> bool {
        forall|i: int| 0 <= i < self.data.index@.len() ==> (#[trigger] self.data.index@[i]) is None
    }

    /// The posting lists of `b` are stored where this block's header says, and this block
    /// holds the same number of documents.
    pub open spec fn sections_hold(&self, b: BlockData) -> bool {
        &&& sections_stored(self.file.bytes@, self.header@, b)
        &&& b.lists_valid()
        &&& encodable(b)
        &&& self.data.keys@.len() == b.keys@.len()
    }

    /// Loads every posting list.
    pub fn read_all(&mut self) -> (r: Result<(), StorageError>)
        requires
            old(self).inv(),
        ensures
            final(self).inv(),
            final(self).file == old(self).file,
            final(self).header == old(self).header,
            final(self).data.tags == old(self).data.tags,
            final(self).data.keys == old(self).data.keys,
            final(self).data.timestamps == old(self).data.timestamps,
            r is Ok ==> final(self).data.loaded(),
            forall|b: BlockData|
                #![trigger old(self).sections_hold(b)]
                old(self).sections_hold(b) && old(self).unloaded() ==> (r is Ok
                    && final(self).data.lists() == b.lists()),
    {
        let n = self.data.index.len();
        let mut i: usize = 0;
        while i < n
            invariant
                self.inv(),
                n == self.data.index@.len(),
                i <= n,
                self.file == old(self).file,
                self.header == old(self).header,
                self.data.tags == old(self).data.tags,
                self.data.keys == old(self).data.keys,
                self.data.timestamps == old(self).data.timestamps,
                old(self).data.index@.len() == n,
                forall|k: int| 0 <= k < i ==> (#[trigger] self.data.index@[k]).is_some(),
                forall|k: int|
                    i <= k < n ==> #[trigger] self.data.index@[k] == old(self).data.index@[k],
                forall|b: BlockData|
                    #![trigger old(self).sections_hold(b)]
                    old(self).sections_hold(b) && old(self).unloaded() ==> forall|
                        k: int,
                    |
                        0 <= k < i ==> #[trigger] self.data.lists()[k] == b.lists()[k],
            decreases n - i,
        {
            let ghost before = *self;
            let r = if self.data.index[i].is_some() {
                Ok(())
            } else {
                self.load_index(i)
            };
            proof {
                assert forall|b: BlockData|
                    #![trigger old(self).sections_hold(b)]
                    old(self).sections_hold(b) && old(self).unloaded() implies (r is Ok
                    && self.data.lists()[i as int] == b.lists()[i as int]) by {
                    assert(old(self).data.index@.len() == n);
                    assert(before.data.index@[i as int] == old(self).data.index@[i as int]);
                    assert(before.data.index@[i as int] is None);
                    assert(b.index@.len() == n);
                    let l = b.lists()[i as int];
                    assert(ascending(l) && below(l, b.keys@.len() as int));
                    assert(before.data.keys@.len() == b.keys@.len());
                    assert(stored_at(
                        before.file.bytes@,
                        before.header.index@[i as int] as int,
                        msgpack_u64s(deltas(b.lists()[i as int])),
                    ));
                }
            }
            match r {
                Ok(()) => {},
                Err(e) => return Err(e),
            }
            proof {
                assert forall|k: int| 0 <= k < i + 1 implies (#[trigger] self.data.index@[k]).is_some() by {
                    if k < i {
                        assert(before.data.index@[k].is_some());
                    }
                }
                assert forall|b: BlockData|
                    #![trigger old(self).sections_hold(b)]
                    old(self).sections_hold(b) && old(self).unloaded() implies forall|
                        k: int,
                    |
                        0 <= k < i + 1 ==> #[trigger] self.data.lists()[k] == b.lists()[k] by {
                    assert forall|k: int| 0 <= k < i + 1 implies #[trigger] self.data.lists()[k]
                        == b.lists()[k] by {
                        if k < i {
                            assert(before.data.lists()[k] == b.lists()[k]);
                            assert(before.data.index@[k].is_some());
                            assert(self.data.index@[k] == before.data.index@[k]);
                        }
                    }
                }
                assert forall|k: int| i + 1 <= k < n implies #[trigger] self.data.index@[k]
                    == old(self).data.index@[k] by {
                    assert(before.data.index@[k] == old(self).data.index@[k]);
                }
            }
            i += 1;
        }
        proof {
            assert forall|b: BlockData|
                #![trigger old(self).sections_hold(b)]
                old(self).sections_hold(b) && old(self).unloaded() implies self.data.lists()
                == b.lists() by {
                assert(self.data.lists() =~= b.lists());
            }
        }
        Ok(())
    }

    /// Loads posting list `id` from the stream: decodes its deltas and sums them back,
    /// checking that the list stays ascending over ordinals of this block.
    fn load_index(&mut self, id: usize) -> (r: Result<(), StorageError>)
        requires
            old(self).inv(),
            id < old(self).data.index@.len(),
        ensures
            final(self).inv(),
            final(self).file == old(self).file,
            final(self).header == old(self).header,
            final(self).data.tags == old(self).data.tags,
            final(self).data.keys == old(self).data.keys,
            final(self).data.timestamps == old(self).data.timestamps,
            r is Ok ==> final(self).data.index@ == old(self).data.index@.update(
                id as int,
                final(self).data.index@[id as int],
            ) && final(self).data.index@[id as int].is_some(),
            r is Err ==> *final(self) == *old(self),
            r matches Err(e) ==> e == (if old(self).header.index@[id as int] > usize::MAX {
                StorageError::Io
            } else {
                StorageError::Decode
            }),
            forall|l: Seq<Index>|
                #![trigger msgpack_u64s(deltas(l))]
                stored_at(
                    old(self).file.bytes@,
                    old(self).header.index@[id as int] as int,
                    msgpack_u64s(deltas(l)),
                ) && ascending(l) && below(l, old(self).data.keys@.len() as int) && l.len()
                    <= u32::MAX ==> (r is Ok
                    && final(self).data.lists()[id as int] == l),
    {
        let at = self.header.index[id];
        let _ = self.file.bytes.len();
        if at > usize::MAX as u64 {
            return Err(StorageError::Io);
        }
        let t = self.file.tail(at as usize);
        let decoded = decode_u64s(t);
        let ghost bytes = self.file.bytes@;
        proof {
            assert forall|l: Seq<Index>|
                #![trigger msgpack_u64s(deltas(l))]
                stored_at(bytes, at as int, msgpack_u64s(deltas(l))) && l.len() <= u32::MAX implies (decoded matches Some(d)
                && d@ == deltas(l)) by {
                let e = msgpack_u64s(deltas(l));
                let rest = bytes.subrange(at + e.len(), bytes.len() as int);
                assert(t@ =~= e + rest);
            }
        }
        let d = match decoded {
            Some(d) => d,
            None => return Err(StorageError::Decode),
        };
        let nkeys = self.data.keys.len() as u64;
        let ghost good = exists|l: Seq<Index>|
            #![trigger msgpack_u64s(deltas(l))]
            stored_at(bytes, at as int, msgpack_u64s(deltas(l))) && ascending(l) && below(
                l,
                nkeys as int,
            ) && l.len() <= u32::MAX;
        let ghost l0 = choose|l: Seq<Index>|
            #![trigger msgpack_u64s(deltas(l))]
            stored_at(bytes, at as int, msgpack_u64s(deltas(l))) && ascending(l) && below(
                l,
                nkeys as int,
            ) && l.len() <= u32::MAX;
        let mut list: Vec<Index> = Vec::new();
        let mut acc: u64 = 0;
        let mut k: usize = 0;
        while k < d.len()
            invariant
                *self == *old(self),
                self.inv(),
                bytes == old(self).file.bytes@,
                at == old(self).header.index@[id as int],
                at <= usize::MAX,
                k <= d@.len(),
                list@.len() == k,
                nkeys == self.data.keys@.len(),
                k > 0 ==> acc == list@[k - 1],
                forall|x: int| 0 <= x < k ==> #[trigger] list@[x] == prefix_sum(d@, x),
                ascending(list@),
                below(list@, nkeys as int),
                good ==> d@ == deltas(l0) && ascending(l0) && below(l0, nkeys as int),
                good == exists|l: Seq<Index>|
                    #![trigger msgpack_u64s(deltas(l))]
                    stored_at(bytes, at as int, msgpack_u64s(deltas(l))) && ascending(l) && below(
                        l,
                        nkeys as int,
                    ) && l.len() <= u32::MAX,
            decreases d@.len() - k,
        {
            proof {
                if good {
                    lemma_prefix_sum_of_deltas(l0, k as int);
                }
            }
            if k == 0 {
                acc = d[0];
            } else {
                if d[k] > u64::MAX - acc {
                    assert(good ==> prefix_sum(d@, k as int) == acc + d@[k as int]);
                    assert(!good);
                    return Err(StorageError::Decode);
                }
                acc = acc + d[k];
            }
            assert(acc == prefix_sum(d@, k as int));
            if acc >= nkeys {
                assert(!good);
                return Err(StorageError::Decode);
            }
            list.push(acc);
            k += 1;
        }
        proof {
            assert forall|l: Seq<Index>|
                #![trigger msgpack_u64s(deltas(l))]
                stored_at(bytes, at as int, msgpack_u64s(deltas(l))) && ascending(l) && below(
                    l,
                    nkeys as int,
                ) && l.len() <= u32::MAX implies list@ == l by {
                assert forall|x: int| 0 <= x < l.len() implies list@[x] == l[x] by {
                    lemma_prefix_sum_of_deltas(l, x);
                }
                assert(list@ =~= l);
            }
        }
        self.data.index.set(id, Some(Arc::new(list)));
        proof {
            assert forall|i: int| 0 <= i < self.data.index@.len() implies ascending(
                #[trigger] self.data.lists()[i],
            ) && below(self.data.lists()[i], self.data.keys@.len() as int) by {
                if i != id {
                    assert(self.data.lists()[i] == old(self).data.lists()[i]);
                }
            }
        }
        Ok(())
    }

    /// Writes loaded posting list `id` back over its place in the stream. Only safe when
    /// its encoding is as long as the one it replaces.
    pub fn update_index(&mut self, id: usize) -> (r: Result<(), StorageError>)
        requires
            old(self).inv(),
            id < old(self).data.index@.len(),
        ensures
            final(self).header == old(self).header,
            final(self).data == old(self).data,
            old(self).data.index@[id as int] is None ==> r == Err::<(), StorageError>(
                StorageError::IndexNotLoaded,
            ),
            r is Ok ==> final(self).file.bytes@ == overwrite(
                old(self).file.bytes@,
                old(self).header.index@[id as int] as int,
                msgpack_u64s(deltas(old(self).data.lists()[id as int])),
            ),
            old(self).data.index@[id as int] is Some && old(self).data.lists()[id as int].len()
                <= u32::MAX && old(self).header.index@[id as int] + msgpack_u64s(deltas(old(self).data.lists()[id as int])).len() <= usize::MAX
                ==> r is Ok,
    {
        let at = self.header.index[id];
        let list = match &self.data.index[id] {
            Some(l) => l,
            None => return Err(StorageError::IndexNotLoaded),
        };
        let list: &Vec<Index> = &**list;
        assert(list@ == self.data.lists()[id as int]);
        if list.len() > u32::MAX as usize {
            return Err(StorageError::Encode);
        }
        let d = delta_encode(list);
        let enc = match encode_u64s(&d) {
            Some(e) => e,
            None => return Err(StorageError::Encode),
        };
        if at > usize::MAX as u64 {
            return Err(StorageError::Io);
        }
        self.file.seek(at as usize);
        self.file.write_all(enc.as_slice())
    }

    /// The first and last timestamps.
    pub fn range(&self) -> (r: (Timestamp, Timestamp))
        requires
            self.data.timestamps@.len() > 0,
        ensures
            r == (self.data.timestamps@.first(), self.data.timestamps@.last()),
    {
        self.data.range()
    }

    /// The stream, the header and the block, taken apart.
    pub fn release_all(self) -> (r: (Stream, BlockHeader, BlockData))
        ensures
            r == (self.file, self.header, self.data),
    {
        (self.file, self.header, self.data)
    }

    /// Drops loaded posting list `ind`; it can be read again later.
    pub fn release(&mut self, ind: usize)
        requires
            ind < old(self).data.index@.len(),
        ensures
            final(self).file == old(self).file,
            final(self).header == old(self).header,
            final(self).data.tags == old(self).data.tags,
            final(self).data.keys == old(self).data.keys,
            final(self).data.timestamps == old(self).data.timestamps,
            final(self).data.index@ == old(self).data.index@.update(ind as int, None),
    {
        self.data.release(ind);
    }
}

impl SearchBlock for BlockFile {
    open spec fn block(&self) -> BlockData {
        self.data
    }

    open spec fn inv(&self) -> bool {
        BlockFile::inv(self)
    }

    /// The list is loaded, or the stream holds, where the header says, the deltas of an
    /// ascending list of ordinals of this block, at most `u32::MAX` of them.
    open spec fn loadable(&self, id: int) -> bool {
        self.data.index@[id] is Some || exists|l: Seq<Index>|
            #![trigger msgpack_u64s(deltas(l))]
            stored_at(self.file.bytes@, self.header.index@[id] as int, msgpack_u64s(deltas(l)))
                && ascending(l) && below(l, self.data.keys@.len() as int) && l.len() <= u32::MAX
    }

    /// An offset past `usize::MAX` cannot be reached; other failures are bytes that do not
    /// decode to a valid list.
    open spec fn load_error(&self, id: int) -> StorageError {
        if self.header.index@[id] > usize::MAX {
            StorageError::Io
        } else {
            StorageError::Decode
        }
    }

    fn get_tags(&self) -> (r: &[String]) {
        self.data.tags.as_slice()
    }

    fn get_keys(&self) -> (r: &[String]) {
        self.data.keys.as_slice()
    }

    fn read_index(&mut self, id: usize) -> (r: Result<(), StorageError>)
        ensures
            final(self).data.index@ == old(self).data.index@.update(
                id as int,
                final(self).data.index@[id as int],
            ),
            final(self).file == old(self).file,
            final(self).header == old(self).header,
            final(self).data.tags == old(self).data.tags,
            final(self).data.keys == old(self).data.keys,
            final(self).data.timestamps == old(self).data.timestamps,
            old(self).data.index@[id as int] is Some ==> r is Ok && *final(self) == *old(self),
            r is Err ==> *final(self) == *old(self),
            forall|l: Seq<Index>|
                #![trigger msgpack_u64s(deltas(l))]
                old(self).data.index@[id as int] is None && stored_at(
                    old(self).file.bytes@,
                    old(self).header.index@[id as int] as int,
                    msgpack_u64s(deltas(l)),
                ) && ascending(l) && below(l, old(self).data.keys@.len() as int) && l.len()
                    <= u32::MAX ==> (r is Ok
                    && final(self).data.lists()[id as int] == l),
    {
        if self.data.index[id].is_some() {
            return Ok(());
        }
        let ghost before = *self;
        let r = self.load_index(id);
        proof {
            if before.loadable(id as int) {
                let l = choose|l: Seq<Index>|
                    #![trigger msgpack_u64s(deltas(l))]
                    stored_at(
                        before.file.bytes@,
                        before.header.index@[id as int] as int,
                        msgpack_u64s(deltas(l)),
                    ) && ascending(l) && below(l, before.data.keys@.len() as int) && l.len()
                        <= u32::MAX;
                assert(stored_at(
                    before.file.bytes@,
                    before.header.index@[id as int] as int,
                    msgpack_u64s(deltas(l)),
                ));
            }
            if r is Ok {
                assert forall|k: int|
                    0 <= k < before.data.index@.len() && #[trigger] before.loadable(k)
                        implies self.loadable(k) by {
                    if before.data.index@[k] is Some {
                        if k != id {
                            assert(self.data.index@[k] == before.data.index@[k]);
                        }
                    } else if k != id {
                        let l = choose|l: Seq<Index>|
                            #![trigger msgpack_u64s(deltas(l))]
                            stored_at(
                                before.file.bytes@,
                                before.header.index@[k] as int,
                                msgpack_u64s(deltas(l)),
                            ) && ascending(l) && below(l, before.data.keys@.len() as int)
                                && l.len() <= u32::MAX;
                        assert(stored_at(
                            self.file.bytes@,
                            self.header.index@[k] as int,
                            msgpack_u64s(deltas(l)),
                        ));
                    }
                }
            }
        }
        r
    }

    fn try_get_index(&self, id: usize) -> (r: Option<Arc<Vec<Index>>>) {
        self.data.try_get_index(id)
    }

    fn get_type(&self) -> (r: BlockType)
        ensures
            r == BlockType::File,
    {
        BlockType::File
    }
}

} // verus!
