use vstd::prelude::*;

use crate::bloom::{spec_bloom_contains, BloomFilter};
use crate::keys::{
    key_compare, key_eq, key_lt, lemma_key_lt_asymmetric, lemma_key_lt_irreflexive,
    lemma_key_lt_transitive, lemma_key_lt_trichotomy, KeyOrder,
};
use crate::types::{slice_to_vec, Value};
use vstd::bytes::{
    lemma_auto_spec_u32_to_from_le_bytes, lemma_auto_spec_u64_to_from_le_bytes,
    spec_u32_from_le_bytes, spec_u32_to_le_bytes, spec_u64_from_le_bytes, spec_u64_to_le_bytes,
};

verus! {

/// Sentinel stored as a tombstone's value offset in the key block: the
/// data block holds no bytes for a deleted key, and this offset can never
/// belong to a stored value.  This is a deliberate extension of the key
/// record's offset field: an empty stored value keeps a real offset to
/// its zero-length frame, while a deletion stores the sentinel, so the
/// two stay distinguishable after a flush — writing deletions as empty
/// values would silently turn them into present empty values on the
/// read path.
pub const TOMBSTONE_OFFSET: u64 = 0xffff_ffff_ffff_ffff;

/// One logical entry of an on-disk table: the key, the value offset
/// field of its key-block record, and the logical value those bytes
/// denote (`None` for a tombstone).
pub struct SstEntry {
    pub key: Seq<u8>,
    pub voff: u64,
    pub value: Option<Seq<u8>>,
}

/// One key-block record:
/// `key_len(4 LE) | key | value_offset(8 LE)`.
pub open spec fn kb_entry_bytes(key: Seq<u8>, voff: u64) -> Seq<u8> {
    spec_u32_to_le_bytes(key.len() as u32) + key + spec_u64_to_le_bytes(voff)
}

/// Concatenated key-block records of an entry list.
pub open spec fn kb_enc(es: Seq<SstEntry>) -> Seq<u8>
    decreases es.len(),
{
    if es.len() == 0 {
        Seq::empty()
    } else {
        kb_entry_bytes(es.first().key, es.first().voff) + kb_enc(es.drop_first())
    }
}

/// The `(key, value_offset)` pairs a key-block region holds, reading
/// records from the front until the bytes run out mid-record.
pub open spec fn parse_key_block(bytes: Seq<u8>) -> Seq<(Seq<u8>, u64)>
    decreases bytes.len(),
{
    if bytes.len() < 12 {
        Seq::empty()
    } else {
        let key_len = spec_u32_from_le_bytes(bytes.subrange(0, 4)) as int;
        let total = 12 + key_len;
        if total <= bytes.len() {
            let key = bytes.subrange(4, 4 + key_len);
            let voff = spec_u64_from_le_bytes(bytes.subrange(4 + key_len, total));
            seq![(key, voff)] + parse_key_block(bytes.skip(total))
        } else {
            Seq::empty()
        }
    }
}

/// Keys short enough for their four-byte length field.
pub open spec fn sst_entries_wf(es: Seq<SstEntry>) -> bool {
    forall|i: int| 0 <= i < es.len() ==> (#[trigger] es[i]).key.len() <= u32::MAX
}

/// Parsing an encoded key-block record off the front of any tail
/// recovers the record and leaves the tail.
pub proof fn lemma_parse_kb_prepend(key: Seq<u8>, voff: u64, rest: Seq<u8>)
    requires
        key.len() <= u32::MAX,
    ensures
        parse_key_block(kb_entry_bytes(key, voff) + rest) == seq![(key, voff)] + parse_key_block(
            rest,
        ),
{
    lemma_auto_spec_u32_to_from_le_bytes();
    lemma_auto_spec_u64_to_from_le_bytes();
    let enc = kb_entry_bytes(key, voff);
    let bytes = enc + rest;
    let klen = key.len() as int;
    assert(enc.len() == 12 + klen);
    assert(bytes.subrange(0, 4) =~= spec_u32_to_le_bytes(key.len() as u32));
    assert(bytes.subrange(4, 4 + klen) =~= key);
    assert(bytes.subrange(4 + klen, 12 + klen) =~= spec_u64_to_le_bytes(voff));
    assert(bytes.skip(12 + klen) =~= rest);
    assert(seq![(bytes.subrange(4, 4 + klen), spec_u64_from_le_bytes(
        bytes.subrange(4 + klen, 12 + klen),
    ))] =~= seq![(key, voff)]);
}

/// The `(key, value_offset)` pairs of an entry list.
pub open spec fn kv_pairs(es: Seq<SstEntry>) -> Seq<(Seq<u8>, u64)> {
    Seq::new(es.len(), |i: int| (es[i].key, es[i].voff))
}

/// Parsing the encoding of a well-formed entry list followed by any tail
/// yields its pairs and the tail's records.
pub proof fn lemma_parse_kb_concat(es: Seq<SstEntry>, suffix: Seq<u8>)
    requires
        sst_entries_wf(es),
    ensures
        parse_key_block(kb_enc(es) + suffix) == kv_pairs(es) + parse_key_block(suffix),
    decreases es.len(),
{
    if es.len() == 0 {
        assert(kb_enc(es) + suffix =~= suffix);
        assert(kv_pairs(es) + parse_key_block(suffix) =~= parse_key_block(suffix));
    } else {
        let e = es.first();
        let rest = es.drop_first();
        assert(es[0].key.len() <= u32::MAX);
        assert(sst_entries_wf(rest)) by {
            assert forall|i: int| 0 <= i < rest.len() implies (#[trigger] rest[i]).key.len()
                <= u32::MAX by {
                assert(rest[i] == es[i + 1]);
            }
        }
        assert(kb_enc(es) + suffix =~= kb_entry_bytes(e.key, e.voff) + (kb_enc(rest) + suffix));
        lemma_parse_kb_prepend(e.key, e.voff, kb_enc(rest) + suffix);
        lemma_parse_kb_concat(rest, suffix);
        assert(seq![(e.key, e.voff)] + (kv_pairs(rest) + parse_key_block(suffix)) =~= kv_pairs(es)
            + parse_key_block(suffix));
    }
}

/// Entries strictly sorted by key.
pub open spec fn sst_sorted(es: Seq<SstEntry>) -> bool {
    forall|i: int, j: int|
        0 <= i < j < es.len() ==> key_lt(#[trigger] es[i].key, #[trigger] es[j].key)
}

/// The key-to-value mapping an entry list denotes.
pub open spec fn sst_as_map(es: Seq<SstEntry>) -> Map<Seq<u8>, Option<Seq<u8>>>
    decreases es.len(),
{
    if es.len() == 0 {
        Map::empty()
    } else {
        sst_as_map(es.drop_last()).insert(es.last().key, es.last().value)
    }
}

/// Every entry of a sorted list is present in its mapping.
pub proof fn lemma_sst_as_map_index(es: Seq<SstEntry>, i: int)
    requires
        sst_sorted(es),
        0 <= i < es.len(),
    ensures
        sst_as_map(es).contains_key(es[i].key),
        sst_as_map(es)[es[i].key] == es[i].value,
    decreases es.len(),
{
    if i < es.len() - 1 {
        lemma_sst_as_map_index(es.drop_last(), i);
        assert(key_lt(es[i].key, es.last().key));
        lemma_key_lt_irreflexive(es[i].key);
    }
}

/// A key under no entry is absent from the mapping.
pub proof fn lemma_sst_as_map_absent(es: Seq<SstEntry>, key: Seq<u8>)
    requires
        forall|i: int| 0 <= i < es.len() ==> (#[trigger] es[i].key) != key,
    ensures
        !sst_as_map(es).contains_key(key),
    decreases es.len(),
{
    if es.len() > 0 {
        lemma_sst_as_map_absent(es.drop_last(), key);
    }
}

/// Sentinel closing every table file; a mismatch marks the file corrupt.
pub const MAGIC: u64 = 0x4b45_504c_4552_3031;

/// Size of the footer: six eight-byte fields.
pub const SST_FOOTER_SIZE: usize = 48;

/// Target byte size of one key-block region under a sparse-index anchor.
pub const PAGE_4KB: usize = 4096;

/// Size of a four-byte length field.
pub const LEN_SIZE: usize = 4;

/// Size of an eight-byte offset field.
pub const OFFSET_SIZE: usize = 8;

/// One sparse-index record: an anchor key and the byte region of the
/// key-block span it covers.
pub struct SpEntry {
    pub key: Seq<u8>,
    pub off: u64,
    pub len: u64,
}

/// One sparse-index record on disk:
/// `key_len(4 LE) | key | key_block_offset(8 LE) | block_len(8 LE)`.
pub open spec fn sp_entry_bytes(e: SpEntry) -> Seq<u8> {
    spec_u32_to_le_bytes(e.key.len() as u32) + e.key + spec_u64_to_le_bytes(e.off)
        + spec_u64_to_le_bytes(e.len)
}

/// Concatenated sparse-index records.
pub open spec fn sp_enc(list: Seq<SpEntry>) -> Seq<u8>
    decreases list.len(),
{
    if list.len() == 0 {
        Seq::empty()
    } else {
        sp_entry_bytes(list.first()) + sp_enc(list.drop_first())
    }
}

/// Anchor keys short enough for their length field.
pub open spec fn sp_entries_wf(list: Seq<SpEntry>) -> bool {
    forall|i: int| 0 <= i < list.len() ==> (#[trigger] list[i]).key.len() <= u32::MAX
}

/// Reads `count` sparse-index records off the front of `bytes`; `None`
/// when the bytes run out first.
pub open spec fn parse_sparse(bytes: Seq<u8>, count: int) -> Option<Seq<SpEntry>>
    decreases count,
{
    if count <= 0 {
        Some(Seq::empty())
    } else if bytes.len() < 4 {
        None
    } else {
        let klen = spec_u32_from_le_bytes(bytes.subrange(0, 4)) as int;
        if 20 + klen <= bytes.len() {
            let e = SpEntry {
                key: bytes.subrange(4, 4 + klen),
                off: spec_u64_from_le_bytes(bytes.subrange(4 + klen, 12 + klen)),
                len: spec_u64_from_le_bytes(bytes.subrange(12 + klen, 20 + klen)),
            };
            match parse_sparse(bytes.skip(20 + klen), count - 1) {
                Some(rest) => Some(seq![e] + rest),
                None => None,
            }
        } else {
            None
        }
    }
}

/// Parsing an encoded sparse record off the front of any tail recovers
/// the record and leaves the tail.
pub proof fn lemma_parse_sp_prepend(e: SpEntry, rest: Seq<u8>, count: int)
    requires
        e.key.len() <= u32::MAX,
        count >= 1,
    ensures
        parse_sparse(sp_entry_bytes(e) + rest, count) == match parse_sparse(rest, count - 1) {
            Some(l) => Some(seq![e] + l),
            None => None::<Seq<SpEntry>>,
        },
{
    lemma_auto_spec_u32_to_from_le_bytes();
    lemma_auto_spec_u64_to_from_le_bytes();
    let enc = sp_entry_bytes(e);
    let bytes = enc + rest;
    let klen = e.key.len() as int;
    assert(enc.len() == 20 + klen);
    assert(bytes.subrange(0, 4) =~= spec_u32_to_le_bytes(e.key.len() as u32));
    assert(bytes.subrange(4, 4 + klen) =~= e.key);
    assert(bytes.subrange(4 + klen, 12 + klen) =~= spec_u64_to_le_bytes(e.off));
    assert(bytes.subrange(12 + klen, 20 + klen) =~= spec_u64_to_le_bytes(e.len));
    assert(bytes.skip(20 + klen) =~= rest);
    let parsed = SpEntry {
        key: bytes.subrange(4, 4 + klen),
        off: spec_u64_from_le_bytes(bytes.subrange(4 + klen, 12 + klen)),
        len: spec_u64_from_le_bytes(bytes.subrange(12 + klen, 20 + klen)),
    };
    assert(parsed == e);
    match parse_sparse(rest, count - 1) {
        Some(l) => {
            assert(seq![parsed] + l =~= seq![e] + l);
        },
        None => {},
    }
}

/// Parsing the encoding of a well-formed record list followed by any
/// tail yields exactly the list.
pub proof fn lemma_parse_sp_concat(list: Seq<SpEntry>, suffix: Seq<u8>)
    requires
        sp_entries_wf(list),
    ensures
        parse_sparse(sp_enc(list) + suffix, list.len() as int) == Some(list),
    decreases list.len(),
{
    if list.len() == 0 {
        assert(parse_sparse(sp_enc(list) + suffix, 0) == Some(Seq::<SpEntry>::empty()));
        assert(list =~= Seq::<SpEntry>::empty());
    } else {
        let e = list.first();
        let rest = list.drop_first();
        assert(list[0].key.len() <= u32::MAX);
        assert(sp_entries_wf(rest)) by {
            assert forall|i: int| 0 <= i < rest.len() implies (#[trigger] rest[i]).key.len()
                <= u32::MAX by {
                assert(rest[i] == list[i + 1]);
            }
        }
        assert(sp_enc(list) + suffix =~= sp_entry_bytes(e) + (sp_enc(rest) + suffix));
        lemma_parse_sp_prepend(e, sp_enc(rest) + suffix, list.len() as int);
        lemma_parse_sp_concat(rest, suffix);
        assert(seq![e] + rest =~= list);
    }
}

/// Encoding of key-block records distributes over concatenation.
pub proof fn lemma_kb_enc_add(a: Seq<SstEntry>, b: Seq<SstEntry>)
    ensures
        kb_enc(a + b) == kb_enc(a) + kb_enc(b),
    decreases a.len(),
{
    if a.len() == 0 {
        assert(a + b =~= b);
        assert(kb_enc(a) == Seq::<u8>::empty());
        assert(kb_enc(a) + kb_enc(b) =~= kb_enc(b));
    } else {
        assert((a + b).first() == a.first());
        assert((a + b).drop_first() =~= a.drop_first() + b);
        lemma_kb_enc_add(a.drop_first(), b);
        assert(kb_entry_bytes(a.first().key, a.first().voff) + (kb_enc(a.drop_first()) + kb_enc(b))
            =~= (kb_entry_bytes(a.first().key, a.first().voff) + kb_enc(a.drop_first())) + kb_enc(
            b,
        ));
    }
}

/// Field `k` of the footer, counted from its start.
pub open spec fn footer_u64(bytes: Seq<u8>, k: int) -> u64 {
    spec_u64_from_le_bytes(
        bytes.subrange(bytes.len() - 48 + 8 * k, bytes.len() - 48 + 8 * k + 8),
    )
}

pub open spec fn footer_sparse_off(bytes: Seq<u8>) -> u64 {
    footer_u64(bytes, 0)
}

pub open spec fn footer_bloom_off(bytes: Seq<u8>) -> u64 {
    footer_u64(bytes, 1)
}

pub open spec fn footer_max_seqno(bytes: Seq<u8>) -> u64 {
    footer_u64(bytes, 2)
}

pub open spec fn footer_min_seqno(bytes: Seq<u8>) -> u64 {
    footer_u64(bytes, 3)
}

pub open spec fn footer_sstno(bytes: Seq<u8>) -> u64 {
    footer_u64(bytes, 4)
}

pub open spec fn footer_magic(bytes: Seq<u8>) -> u64 {
    footer_u64(bytes, 5)
}

/// The sparse-index records a table image announces: read the count at
/// the footer's sparse offset, then that many records after it.  Corrupt
/// structure reads as no records.
pub open spec fn sst_file_anchors(bytes: Seq<u8>) -> Seq<SpEntry> {
    if bytes.len() < 48 || footer_magic(bytes) != MAGIC {
        Seq::empty()
    } else {
        let so = footer_sparse_off(bytes) as int;
        if 0 <= so && so + 4 <= bytes.len() {
            let count = spec_u32_from_le_bytes(bytes.subrange(so, so + 4)) as int;
            match parse_sparse(bytes.skip(so + 4), count) {
                Some(l) => l,
                None => Seq::empty(),
            }
        } else {
            Seq::empty()
        }
    }
}

/// The key-block records under one anchor's region; a region out of
/// bounds reads as empty.
pub open spec fn anchor_pairs(bytes: Seq<u8>, a: SpEntry) -> Seq<(Seq<u8>, u64)> {
    if a.off + a.len <= bytes.len() {
        parse_key_block(bytes.subrange(a.off as int, a.off + a.len))
    } else {
        Seq::empty()
    }
}

/// All key-block records of a table image, in anchor order.
pub open spec fn anchors_pairs(bytes: Seq<u8>, list: Seq<SpEntry>) -> Seq<(Seq<u8>, u64)>
    decreases list.len(),
{
    if list.len() == 0 {
        Seq::empty()
    } else {
        anchor_pairs(bytes, list.first()) + anchors_pairs(bytes, list.drop_first())
    }
}

/// All `(key, value offset)` pairs of a table image.
pub open spec fn sst_file_pairs(bytes: Seq<u8>) -> Seq<(Seq<u8>, u64)> {
    anchors_pairs(bytes, sst_file_anchors(bytes))
}

/// The logical value a value-offset field denotes in the image.
pub open spec fn pair_value(bytes: Seq<u8>, voff: u64) -> Option<Seq<u8>> {
    if voff == TOMBSTONE_OFFSET {
        None
    } else if voff + 4 <= bytes.len() {
        let vlen = spec_u32_from_le_bytes(bytes.subrange(voff as int, voff + 4)) as int;
        if voff + 4 + vlen <= bytes.len() {
            Some(bytes.subrange(voff + 4, voff + 4 + vlen))
        } else {
            Some(Seq::empty())
        }
    } else {
        Some(Seq::empty())
    }
}

/// End position after reading `count` sparse-index records from `pos`,
/// or nothing when the bytes run out first.
pub open spec fn sparse_skip(bytes: Seq<u8>, pos: int, count: int) -> Option<int>
    decreases count,
{
    if count <= 0 {
        Some(pos)
    } else if pos < 0 || pos + 20 > bytes.len() {
        None
    } else {
        let klen = spec_u32_from_le_bytes(bytes.subrange(pos, pos + 4)) as int;
        if pos + 20 + klen <= bytes.len() {
            sparse_skip(bytes, pos + 20 + klen, count - 1)
        } else {
            None
        }
    }
}

/// The mapping a list of key records denotes in an image, later records
/// shadowing earlier ones.
pub open spec fn pairs_view(bytes: Seq<u8>, pairs: Seq<(Seq<u8>, u64)>) -> Map<
    Seq<u8>,
    Option<Seq<u8>>,
>
    decreases pairs.len(),
{
    if pairs.len() == 0 {
        Map::empty()
    } else {
        pairs_view(bytes, pairs.drop_last()).insert(
            pairs.last().0,
            pair_value(bytes, pairs.last().1),
        )
    }
}

/// The mapping a table image stores, read the way recovery reads it:
/// the key records between the end of the sparse index and the filter
/// offset, each value decoded at its offset.  Corrupt structure reads
/// as the empty mapping.
pub open spec fn sst_image_view(bytes: Seq<u8>) -> Map<Seq<u8>, Option<Seq<u8>>> {
    if bytes.len() < 48 {
        Map::empty()
    } else {
        let so = footer_sparse_off(bytes) as int;
        let bo = footer_bloom_off(bytes) as int;
        if 0 <= so && so + 4 <= bytes.len() {
            let count = spec_u32_from_le_bytes(bytes.subrange(so, so + 4)) as int;
            match sparse_skip(bytes, so + 4, count) {
                Some(ke) => if ke <= bo <= bytes.len() {
                    pairs_view(bytes, parse_key_block(bytes.subrange(ke, bo)))
                } else {
                    Map::empty()
                },
                None => Map::empty(),
            }
        } else {
            Map::empty()
        }
    }
}

/// The logical entries a table image stores.
pub open spec fn sst_file_entries(bytes: Seq<u8>) -> Seq<SstEntry> {
    Seq::new(
        sst_file_pairs(bytes).len(),
        |i: int|
            SstEntry {
                key: sst_file_pairs(bytes)[i].0,
                voff: sst_file_pairs(bytes)[i].1,
                value: pair_value(bytes, sst_file_pairs(bytes)[i].1),
            },
    )
}

/// The key-to-value mapping a table image stores.
pub open spec fn sst_file_map(bytes: Seq<u8>) -> Map<Seq<u8>, Option<Seq<u8>>> {
    sst_as_map(sst_file_entries(bytes))
}

/// One sparse-index anchor: the first key of a block of the key block,
/// with the block's byte region in the file.
pub struct SparseIndex {
    first_key: Vec<u8>,
    offset: usize,
    len: usize,
}

impl SparseIndex {
    pub closed spec fn spec_key(&self) -> Seq<u8> {
        self.first_key@
    }

    pub closed spec fn spec_offset(&self) -> int {
        self.offset as int
    }

    pub closed spec fn spec_len(&self) -> int {
        self.len as int
    }

    pub fn new(key: &[u8], offset: usize, len: usize) -> (r: Self)
        ensures
            r.spec_key() == key@,
            r.spec_offset() == offset,
            r.spec_len() == len,
    {
        Self { first_key: slice_to_vec(key), offset, len }
    }

    /// The anchor key.
    pub fn key(&self) -> (r: &Vec<u8>)
        ensures
            r@ == self.spec_key(),
    {
        &self.first_key
    }

    /// The block's byte offset in the file.
    pub fn offset_val(&self) -> (r: usize)
        ensures
            r == self.spec_offset(),
    {
        self.offset
    }

    /// The block's byte length.
    pub fn len_val(&self) -> (r: usize)
        ensures
            r == self.spec_len(),
    {
        self.len
    }
}

/// One immutable on-disk table, held as its file image beside the parsed
/// sparse index, the membership filter, and (for reasoning) the logical
/// entries the image stores.
pub struct SSTable {
    id: u64,
    data: Vec<u8>,
    index: Vec<SparseIndex>,
    bloomfilter: BloomFilter,
    entries: Ghost<Seq<SstEntry>>,
    block_starts: Ghost<Seq<int>>,
}

/// The value-offset field of each entry points at a length-prefixed
/// value inside the image, or is the tombstone sentinel for a deleted
/// key.
pub open spec fn sst_values_wf(es: Seq<SstEntry>, data: Seq<u8>) -> bool {
    forall|i: int|
        0 <= i < es.len() ==> {
            let e = #[trigger] es[i];
            match e.value {
                None => e.voff == TOMBSTONE_OFFSET,
                Some(v) => {
                    &&& e.voff != TOMBSTONE_OFFSET
                    &&& e.voff + 4 + v.len() <= data.len()
                    &&& v.len() <= u32::MAX
                    &&& spec_u32_from_le_bytes(data.subrange(e.voff as int, e.voff + 4)) == v.len()
                    &&& v == data.subrange(e.voff + 4, e.voff + 4 + v.len())
                },
            }
        }
}

impl SSTable {
    /// The table number.
    pub closed spec fn spec_id(&self) -> u64 {
        self.id
    }

    /// The file image.
    pub closed spec fn spec_data(&self) -> Seq<u8> {
        self.data@
    }

    /// The logical entries, in key order.
    pub closed spec fn spec_entries(&self) -> Seq<SstEntry> {
        self.entries@
    }

    /// The key-to-value mapping the table serves.
    pub open spec fn view(&self) -> Map<Seq<u8>, Option<Seq<u8>>> {
        sst_as_map(self.spec_entries())
    }

    pub closed spec fn spec_index(&self) -> Seq<SparseIndex> {
        self.index@
    }

    pub closed spec fn spec_blocks(&self) -> Seq<int> {
        self.block_starts@
    }

    pub closed spec fn spec_bloom_bits(&self) -> Seq<u8> {
        self.bloomfilter.spec_bits()
    }

    pub closed spec fn spec_bloom_bit_size(&self) -> nat {
        self.bloomfilter.spec_bit_size()
    }

    /// Everything `get` relies on: sorted entries, a block partition
    /// whose anchors are the blocks' first keys and whose byte regions
    /// encode the blocks' key records, value offsets that decode, and a
    /// filter that passes every stored key.
    pub open spec fn wf(&self) -> bool {
        let es = self.spec_entries();
        let blocks = self.spec_blocks();
        let index = self.spec_index();
        &&& sst_sorted(es)
        &&& sst_entries_wf(es)
        &&& sst_values_wf(es, self.spec_data())
        &&& blocks.len() == index.len() + 1
        &&& blocks[0] == 0
        &&& blocks.last() == es.len()
        &&& forall|j: int, k: int| 0 <= j < k < blocks.len() ==> blocks[j] < blocks[k]
        &&& forall|j: int|
            0 <= j < index.len() ==> {
                let ix = #[trigger] index[j];
                &&& 0 <= blocks[j] < es.len()
                &&& ix.spec_key() == es[blocks[j]].key
                &&& ix.spec_offset() >= 0
                &&& ix.spec_len() >= 0
                &&& ix.spec_offset() + ix.spec_len() <= self.spec_data().len()
                &&& self.spec_data().subrange(ix.spec_offset(), ix.spec_offset() + ix.spec_len())
                    == kb_enc(es.subrange(blocks[j], blocks[j + 1]))
            }
        &&& self.spec_bloom_bits().len() == (self.spec_bloom_bit_size() + 7) / 8
        &&& es.len() > 0 ==> self.spec_bloom_bit_size() > 0
        &&& forall|i: int|
            0 <= i < es.len() ==> spec_bloom_contains(
                self.spec_bloom_bits(),
                self.spec_bloom_bit_size(),
                (#[trigger] es[i]).key,
            )
    }

    /// Assembles a table from its parts; the caller has established that
    /// they belong together.
    pub fn new(
        id: u64,
        data: Vec<u8>,
        index: Vec<SparseIndex>,
        bloomfilter: BloomFilter,
        Ghost(entries): Ghost<Seq<SstEntry>>,
        Ghost(block_starts): Ghost<Seq<int>>,
    ) -> (r: Self)
        ensures
            r.spec_id() == id,
            r.spec_data() == data@,
            r.spec_index() == index@,
            r.spec_bloom_bits() == bloomfilter.spec_bits(),
            r.spec_bloom_bit_size() == bloomfilter.spec_bit_size(),
            r.spec_entries() == entries,
            r.spec_blocks() == block_starts,
    {
        Self { id, data, index, bloomfilter, entries: Ghost(entries), block_starts: Ghost(block_starts) }
    }

    /// The table number.
    pub fn id(&self) -> (r: u64)
        ensures
            r == self.spec_id(),
    {
        self.id
    }

    /// Borrows the file image.
    pub fn bytes(&self) -> (r: &Vec<u8>)
        ensures
            r@ == self.spec_data(),
    {
        &self.data
    }

    /// Whether the filter admits the key; `false` certainly means the
    /// key is not stored.
    pub fn contains(&self, key: &[u8]) -> (r: bool)
        requires
            self.wf(),
        ensures
            r == spec_bloom_contains(self.spec_bloom_bits(), self.spec_bloom_bit_size(), key@),
            !r ==> !self@.contains_key(key@),
    {
        let r = self.bloomfilter.contains(key);
        proof {
            if !r {
                assert forall|i: int|
                    0 <= i < self.spec_entries().len() implies (
                #[trigger] self.spec_entries()[i].key) != key@ by {}
                lemma_sst_as_map_absent(self.spec_entries(), key@);
            }
        }
        r
    }

    /// Number of anchors with key at or below `key`.
    fn partition_point(&self, key: &[u8]) -> (r: usize)
        requires
            self.wf(),
        ensures
            r <= self.spec_index().len(),
            forall|j: int|
                0 <= j < r ==> !key_lt(key@, #[trigger] self.spec_index()[j].spec_key()),
            forall|j: int|
                r <= j < self.spec_index().len() ==> key_lt(
                    key@,
                    #[trigger] self.spec_index()[j].spec_key(),
                ),
    {
        let mut lo: usize = 0;
        let mut hi: usize = self.index.len();
        while lo < hi
            invariant
                lo <= hi <= self.spec_index().len(),
                self.wf(),
                forall|j: int|
                    0 <= j < lo ==> !key_lt(key@, #[trigger] self.spec_index()[j].spec_key()),
                forall|j: int|
                    hi <= j < self.spec_index().len() ==> key_lt(
                        key@,
                        #[trigger] self.spec_index()[j].spec_key(),
                    ),
            decreases hi - lo,
        {
            let mid = lo + (hi - lo) / 2;
            let anchor = self.index[mid].key();
            match key_compare(anchor.as_slice(), key) {
                KeyOrder::Greater => {
                    proof {
                        let a = self.spec_index()[mid as int].spec_key();
                        assert(key_lt(key@, a));
                        assert forall|j: int|
                            mid <= j < self.spec_index().len() implies key_lt(
                            key@,
                            #[trigger] self.spec_index()[j].spec_key(),
                        ) by {
                            if j > mid {
                                let b = self.spec_index()[j].spec_key();
                                let ei = self.spec_blocks()[mid as int];
                                let ej = self.spec_blocks()[j];
                                assert(a == self.spec_entries()[ei].key);
                                assert(b == self.spec_entries()[ej].key);
                                assert(key_lt(a, b));
                                lemma_key_lt_transitive(key@, a, b);
                            }
                        }
                    }
                    hi = mid;
                },
                KeyOrder::Equal => {
                    proof {
                        lemma_key_lt_irreflexive(key@);
                        assert(!key_lt(key@, self.spec_index()[mid as int].spec_key()));
                        assert forall|j: int|
                            0 <= j < mid + 1 implies !key_lt(
                            key@,
                            #[trigger] self.spec_index()[j].spec_key(),
                        ) by {
                            if j < mid {
                                let a = self.spec_index()[j].spec_key();
                                let b = self.spec_index()[mid as int].spec_key();
                                let ei = self.spec_blocks()[j];
                                let ej = self.spec_blocks()[mid as int];
                                assert(a == self.spec_entries()[ei].key);
                                assert(b == self.spec_entries()[ej].key);
                                assert(key_lt(a, b));
                                if key_lt(key@, a) {
                                    lemma_key_lt_transitive(key@, a, b);
                                    lemma_key_lt_irreflexive(key@);
                                }
                            }
                        }
                    }
                    lo = mid + 1;
                },
                KeyOrder::Less => {
                    proof {
                        let b = self.spec_index()[mid as int].spec_key();
                        lemma_key_lt_asymmetric(b, key@);
                        assert forall|j: int|
                            0 <= j < mid + 1 implies !key_lt(
                            key@,
                            #[trigger] self.spec_index()[j].spec_key(),
                        ) by {
                            if j < mid {
                                let a = self.spec_index()[j].spec_key();
                                let ei = self.spec_blocks()[j];
                                let ej = self.spec_blocks()[mid as int];
                                assert(a == self.spec_entries()[ei].key);
                                assert(b == self.spec_entries()[ej].key);
                                assert(key_lt(a, b));
                                if key_lt(key@, a) {
                                    lemma_key_lt_transitive(key@, a, b);
                                    lemma_key_lt_asymmetric(b, key@);
                                }
                            }
                        }
                    }
                    lo = mid + 1;
                },
            }
        }
        lo
    }

    /// Looks up `key`, answering the stored value, the stored tombstone,
    /// or nothing when the key is absent.
    pub fn get(&self, key: &[u8]) -> (r: Option<Value>)
        requires
            self.wf(),
        ensures
            match r {
                Some(v) => self@.contains_key(key@) && v.model() == self@[key@],
                None => !self@.contains_key(key@),
            },
    {
        let i = self.partition_point(key);
        if i == 0 {
            proof {
                assert forall|p: int|
                    0 <= p < self.spec_entries().len() implies (
                #[trigger] self.spec_entries()[p].key) != key@ by {
                    if self.spec_index().len() > 0 {
                        let a0 = self.spec_index()[0].spec_key();
                        assert(key_lt(key@, a0));
                        assert(a0 == self.spec_entries()[self.spec_blocks()[0]].key);
                        assert(self.spec_blocks()[0] == 0);
                        if p > 0 {
                            assert(key_lt(self.spec_entries()[0].key, self.spec_entries()[p].key));
                            lemma_key_lt_transitive(
                                key@,
                                self.spec_entries()[0].key,
                                self.spec_entries()[p].key,
                            );
                        }
                        lemma_key_lt_irreflexive(key@);
                        if self.spec_entries()[p].key == key@ {
                            assert(key_lt(key@, self.spec_entries()[p].key));
                        }
                    } else {
                        assert(self.spec_blocks().len() == 1);
                        assert(self.spec_entries().len() == 0);
                    }
                }
                lemma_sst_as_map_absent(self.spec_entries(), key@);
            }
            return None;
        }
        proof {
            let es = self.spec_entries();
            let blocks = self.spec_blocks();
            let bi = i - 1;
            assert(!key_lt(key@, self.spec_index()[bi as int].spec_key()));
            if blocks[bi + 1] < es.len() {
                assert(bi + 1 < self.spec_index().len());
                assert(key_lt(key@, self.spec_index()[bi + 1].spec_key()));
                assert(self.spec_index()[bi + 1].spec_key() == es[blocks[bi + 1]].key);
            }
        }
        self.search(key, i - 1)
    }

    /// Scans block `bi` of the key block for an exact match of `key`,
    /// decoding the value it points at.
    fn search(&self, key: &[u8], bi: usize) -> (r: Option<Value>)
        requires
            self.wf(),
            bi < self.spec_index().len(),
            !key_lt(key@, self.spec_index()[bi as int].spec_key()),
            self.spec_blocks()[bi + 1] < self.spec_entries().len() ==> key_lt(
                key@,
                self.spec_entries()[self.spec_blocks()[bi + 1]].key,
            ),
        ensures
            match r {
                Some(v) => self@.contains_key(key@) && v.model() == self@[key@],
                None => !self@.contains_key(key@),
            },
    {
        let ghost es = self.spec_entries();
        let ghost blocks = self.spec_blocks();
        let ghost b_lo = blocks[bi as int];
        let ghost b_hi = blocks[bi as int + 1];
        let target_offset = self.index[bi].offset_val();
        let block_len = self.index[bi].len_val();
        let dlen: usize = self.data.len();
        proof {
            assert(self.spec_index()[bi as int].spec_offset() + self.spec_index()[
                bi as int
            ].spec_len() <= self.spec_data().len());
            assert(target_offset + block_len <= dlen);
        }
        let end_bound = target_offset + block_len;
        let mut idx = target_offset;
        let ghost mut m: int = b_lo;
        proof {
            lemma_auto_spec_u32_to_from_le_bytes();
            lemma_auto_spec_u64_to_from_le_bytes();
            assert(self.spec_data().subrange(target_offset as int, end_bound as int) == kb_enc(
                es.subrange(b_lo, b_hi),
            ));
            // keys outside this block cannot be the probed key
            let anchor = self.spec_index()[bi as int].spec_key();
            assert(anchor == es[b_lo].key);
            lemma_key_lt_trichotomy(anchor, key@);
            assert forall|p: int| 0 <= p < b_lo implies (#[trigger] es[p].key) != key@ by {
                assert(key_lt(es[p].key, es[b_lo].key));
                if anchor == key@ {
                    lemma_key_lt_irreflexive(key@);
                } else {
                    assert(key_lt(anchor, key@));
                    lemma_key_lt_transitive(es[p].key, anchor, key@);
                    lemma_key_lt_irreflexive(key@);
                }
            }
            assert forall|p: int| b_hi <= p < es.len() implies (#[trigger] es[p].key) != key@ by {
                assert(blocks[bi + 1] < es.len());
                assert(key_lt(key@, es[b_hi].key));
                if p > b_hi {
                    assert(key_lt(es[b_hi].key, es[p].key));
                    lemma_key_lt_transitive(key@, es[b_hi].key, es[p].key);
                }
                lemma_key_lt_irreflexive(key@);
            }
        }
        while idx < end_bound
            invariant
                self.wf(),
                bi < self.spec_index().len(),
                es == self.spec_entries(),
                blocks == self.spec_blocks(),
                b_lo == blocks[bi as int],
                b_hi == blocks[bi as int + 1],
                0 <= b_lo <= m <= b_hi <= es.len(),
                end_bound <= self.spec_data().len(),
                idx <= end_bound,
                self.spec_data().subrange(idx as int, end_bound as int) == kb_enc(
                    es.subrange(m, b_hi),
                ),
                forall|p: int| 0 <= p < m ==> (#[trigger] es[p].key) != key@,
                forall|p: int| b_hi <= p < es.len() ==> (#[trigger] es[p].key) != key@,
            decreases end_bound - idx,
        {
            proof {
                lemma_auto_spec_u32_to_from_le_bytes();
                lemma_auto_spec_u64_to_from_le_bytes();
                if m == b_hi {
                    assert(es.subrange(m, b_hi) =~= Seq::<SstEntry>::empty());
                    assert(kb_enc(Seq::<SstEntry>::empty()) == Seq::<u8>::empty());
                    assert(kb_enc(es.subrange(m, b_hi)) == Seq::<u8>::empty());
                    assert(self.spec_data().subrange(idx as int, end_bound as int).len()
                        == end_bound - idx);
                    assert(end_bound - idx == 0);
                }
                assert(m < b_hi);
            }
            let ghost rest = es.subrange(m, b_hi);
            let ghost e = es[m];
            let ghost region = self.spec_data().subrange(idx as int, end_bound as int);
            proof {
                assert(rest.first() == e);
                assert(rest.drop_first() =~= es.subrange(m + 1, b_hi));
                assert(region == kb_entry_bytes(e.key, e.voff) + kb_enc(es.subrange(m + 1, b_hi)));
                assert(e.key.len() <= u32::MAX);
                assert(kb_entry_bytes(e.key, e.voff).len() == 12 + e.key.len());
                assert(region.len() == end_bound - idx);
                assert(region.len() >= 12 + e.key.len());
                assert(region.subrange(0, 4) =~= spec_u32_to_le_bytes(e.key.len() as u32));
                assert(region.subrange(0, 4) =~= self.spec_data().subrange(idx as int, idx + 4));
            }
            let key_len = crate::utils::read_u32_at(&self.data, idx) as usize;
            proof {
                assert(key_len == e.key.len());
                assert(region.subrange(4, 4 + key_len as int) =~= e.key);
                assert(region.subrange(4, 4 + key_len as int) =~= self.spec_data().subrange(
                    idx + 4,
                    idx + 4 + key_len,
                ));
                assert(region.subrange(4 + key_len as int, 12 + key_len as int)
                    =~= spec_u64_to_le_bytes(e.voff));
                assert(region.subrange(4 + key_len as int, 12 + key_len as int)
                    =~= self.spec_data().subrange(idx + 4 + key_len, idx + 12 + key_len));
            }
            let found_key = vstd::slice::slice_subrange(
                self.data.as_slice(),
                idx + 4,
                idx + 4 + key_len,
            );
            match key_compare(found_key, key) {
                KeyOrder::Equal => {
                    proof {
                        assert(e.key == key@);
                        lemma_sst_as_map_index(es, m);
                    }
                    let voff = crate::utils::read_u64_at(&self.data, idx + 4 + key_len);
                    proof {
                        assert(voff == e.voff);
                    }
                    if voff == TOMBSTONE_OFFSET {
                        proof {
                            assert(e.value is None);
                        }
                        return Some(Value::Tombstone);
                    }
                    let dlen: usize = self.data.len();
                    proof {
                        assert(e.value is Some);
                        assert(e.voff + 4 + e.value->Some_0.len() <= self.spec_data().len());
                        assert(dlen == self.spec_data().len());
                        assert(voff <= dlen as u64);
                    }
                    let voff_usize = voff as usize;
                    proof {
                        assert(voff_usize == e.voff);
                    }
                    let val_len = crate::utils::read_u32_at(&self.data, voff_usize) as usize;
                    proof {
                        assert(val_len == e.value->Some_0.len());
                    }
                    let val_slice = vstd::slice::slice_subrange(
                        self.data.as_slice(),
                        voff_usize + 4,
                        voff_usize + 4 + val_len,
                    );
                    let val = slice_to_vec(val_slice);
                    proof {
                        assert(val@ == e.value->Some_0);
                    }
                    return Some(Value::Data(val));
                },
                KeyOrder::Greater => {
                    proof {
                        assert(key_lt(key@, e.key));
                        assert forall|p: int|
                            0 <= p < es.len() implies (#[trigger] es[p].key) != key@ by {
                            if m <= p < b_hi {
                                if p > m {
                                    assert(key_lt(es[m].key, es[p].key));
                                    lemma_key_lt_transitive(key@, es[m].key, es[p].key);
                                }
                                lemma_key_lt_irreflexive(key@);
                                if es[p].key == key@ {
                                    assert(key_lt(key@, es[p].key));
                                }
                            }
                        }
                        lemma_sst_as_map_absent(es, key@);
                    }
                    return None;
                },
                KeyOrder::Less => {
                    proof {
                        assert(key_lt(e.key, key@));
                        lemma_key_lt_irreflexive(key@);
                        assert(e.key != key@);
                        let step = 12 + key_len as int;
                        assert(region.skip(step) =~= self.spec_data().subrange(
                            idx + step,
                            end_bound as int,
                        ));
                        assert(region.skip(step) =~= kb_enc(es.subrange(m + 1, b_hi)));
                        m = m + 1;
                    }
                    idx = idx + 12 + key_len;
                },
            }
        }
        proof {
            if m < b_hi {
                assert(es.subrange(m, b_hi).len() > 0);
                assert(kb_enc(es.subrange(m, b_hi)).len() > 0) by {
                    lemma_auto_spec_u32_to_from_le_bytes();
                    lemma_auto_spec_u64_to_from_le_bytes();
                    assert(kb_enc(es.subrange(m, b_hi)) == kb_entry_bytes(
                        es.subrange(m, b_hi).first().key,
                        es.subrange(m, b_hi).first().voff,
                    ) + kb_enc(es.subrange(m, b_hi).drop_first()));
                }
                assert(false);
            }
            assert forall|p: int| 0 <= p < es.len() implies (#[trigger] es[p].key) != key@ by {}
            lemma_sst_as_map_absent(es, key@);
        }
        None
    }
}

} // verus!
