use vstd::prelude::*;

use crate::bloom::{
    bit_is_set, bits_with_probes, spec_bloom_contains, spec_probe, BloomFilter, BITS_PER_KEY,
    HASH_COUNT,
};
use crate::error::{KeplerErr, KeplerResult};
use crate::keys::key_lt;
use crate::mem_table::{as_map, drop_seqnos, entries_sorted, TableMap};
use crate::sstable::{
    anchor_pairs, anchors_pairs, footer_bloom_off, footer_magic, footer_max_seqno,
    footer_min_seqno, footer_sparse_off, footer_sstno, kb_enc, kb_entry_bytes, kv_pairs,
    lemma_kb_enc_add, lemma_parse_kb_concat, lemma_parse_sp_concat, pair_value, parse_key_block,
    parse_sparse, sp_enc, sp_entries_wf, sp_entry_bytes, sst_as_map, sst_entries_wf,
    sst_file_anchors, sst_file_entries, sst_file_map, sst_file_pairs, sst_sorted, sst_values_wf,
    SSTable, SparseIndex, SpEntry, SstEntry, LEN_SIZE, MAGIC, OFFSET_SIZE, PAGE_4KB,
    TOMBSTONE_OFFSET,
};
use crate::types::{TableEntry, Value};
use crate::utils::{push_bytes, push_u32_le, push_u64_le};
use vstd::bytes::{
    lemma_auto_spec_u32_to_from_le_bytes, lemma_auto_spec_u64_to_from_le_bytes,
    spec_u32_from_le_bytes, spec_u32_to_le_bytes, spec_u64_from_le_bytes, spec_u64_to_le_bytes,
};

verus! {

/// What one flush reports to the manifest: record type (0 = table added,
/// 1 = table removed), the table number, and the range of sequence
/// numbers the table covers.
#[derive(Debug, Clone, Copy, PartialEq, Eq, Structural)]
pub struct FlushResult {
    pub t: u8,
    pub sstno: u64,
    pub max_seqno: u64,
    pub min_seqno: u64,
}

impl FlushResult {
    pub fn new(t: u8, sstno: u64, max_seqno: u64, min_seqno: u64) -> (r: Self)
        ensures
            r.t == t,
            r.sstno == sstno,
            r.max_seqno == max_seqno,
            r.min_seqno == min_seqno,
    {
        Self { t, sstno, max_seqno, min_seqno }
    }
}

/// Greatest sequence number among the entries, or zero for none.
pub open spec fn entries_max_seqno(tes: Seq<TableEntry>) -> u64
    decreases tes.len(),
{
    if tes.len() == 0 {
        0
    } else {
        let m = entries_max_seqno(tes.drop_last());
        if tes.last().seqno > m {
            tes.last().seqno
        } else {
            m
        }
    }
}

/// Least sequence number among the entries, or `u64::MAX` for none.
pub open spec fn entries_min_seqno(tes: Seq<TableEntry>) -> u64
    decreases tes.len(),
{
    if tes.len() == 0 {
        0xffff_ffff_ffff_ffff
    } else {
        let m = entries_min_seqno(tes.drop_last());
        if tes.last().seqno < m {
            tes.last().seqno
        } else {
            m
        }
    }
}

/// Every key and value short enough for its length field.
pub open spec fn table_entries_bounded(tes: Seq<TableEntry>) -> bool {
    forall|i: int|
        0 <= i < tes.len() ==> (#[trigger] tes[i]).key@.len() <= u32::MAX
            && tes[i].value.spec_len() <= u32::MAX
}

/// The table and image entries carry the same keys and logical values,
/// position by position.
pub open spec fn entries_aligned(tes: Seq<TableEntry>, ses: Seq<SstEntry>) -> bool {
    &&& ses.len() == tes.len()
    &&& forall|i: int|
        0 <= i < tes.len() ==> (#[trigger] ses[i]).key == (#[trigger] tes[i]).key@ && ses[i].value
            == tes[i].value.model()
}

/// Aligned entry lists denote the same mapping, sequence numbers aside.
pub proof fn lemma_aligned_maps(tes: Seq<TableEntry>, ses: Seq<SstEntry>)
    requires
        entries_aligned(tes, ses),
    ensures
        sst_as_map(ses) == drop_seqnos(as_map(tes)),
    decreases tes.len(),
{
    if tes.len() == 0 {
        assert(sst_as_map(ses) =~= drop_seqnos(as_map(tes)));
    } else {
        assert(entries_aligned(tes.drop_last(), ses.drop_last())) by {
            assert forall|i: int|
                0 <= i < tes.drop_last().len() implies (#[trigger] ses.drop_last()[i]).key == (
            #[trigger] tes.drop_last()[i]).key@ && ses.drop_last()[i].value
                == tes.drop_last()[i].value.model() by {
                assert(ses.drop_last()[i] == ses[i]);
                assert(tes.drop_last()[i] == tes[i]);
            }
        }
        lemma_aligned_maps(tes.drop_last(), ses.drop_last());
        assert(ses.last() == ses[tes.len() - 1]);
        assert(tes.last() == tes[tes.len() - 1]);
        assert(sst_as_map(ses) =~= drop_seqnos(as_map(tes)));
    }
}

/// Consecutive runs of pairs concatenate to the run over the union.
proof fn lemma_kv_pairs_split(es: Seq<SstEntry>, a: int, b: int, c: int)
    requires
        0 <= a <= b <= c <= es.len(),
    ensures
        kv_pairs(es.subrange(a, b)) + kv_pairs(es.subrange(b, c)) == kv_pairs(es.subrange(a, c)),
{
    assert(kv_pairs(es.subrange(a, b)) + kv_pairs(es.subrange(b, c)) =~= kv_pairs(
        es.subrange(a, c),
    ));
}

/// The key-block regions of the anchors, walked in order, list exactly
/// the pairs of the entries they partition.
proof fn lemma_blocks_pairs(
    bytes: Seq<u8>,
    sp: Seq<SpEntry>,
    es: Seq<SstEntry>,
    starts: Seq<int>,
    j: int,
)
    requires
        sst_entries_wf(es),
        starts.len() == sp.len() + 1,
        starts.last() == es.len(),
        forall|p: int, q: int| 0 <= p < q < starts.len() ==> starts[p] < starts[q],
        starts[0] == 0,
        0 <= j <= sp.len(),
        forall|p: int|
            0 <= p < sp.len() ==> {
                let a = #[trigger] sp[p];
                &&& a.off + a.len <= bytes.len()
                &&& bytes.subrange(a.off as int, a.off + a.len) == kb_enc(
                    es.subrange(starts[p], starts[p + 1]),
                )
            },
    ensures
        anchors_pairs(bytes, sp.skip(j)) == kv_pairs(es.subrange(starts[j], es.len() as int)),
    decreases sp.len() - j,
{
    if j == sp.len() {
        assert(sp.skip(j) =~= Seq::<SpEntry>::empty());
        assert(anchors_pairs(bytes, Seq::<SpEntry>::empty()) == Seq::<(Seq<u8>, u64)>::empty());
        assert(es.subrange(starts[j], es.len() as int) =~= Seq::<SstEntry>::empty());
        assert(kv_pairs(Seq::<SstEntry>::empty()) =~= Seq::<(Seq<u8>, u64)>::empty());
    } else {
        let rest = sp.skip(j);
        assert(rest.first() == sp[j]);
        assert(rest.drop_first() =~= sp.skip(j + 1));
        let a = sp[j];
        let block = es.subrange(starts[j], starts[j + 1]);
        assert(bytes.subrange(a.off as int, a.off + a.len) == kb_enc(block));
        assert(sst_entries_wf(block)) by {
            assert forall|i: int| 0 <= i < block.len() implies (#[trigger] block[i]).key.len()
                <= u32::MAX by {
                assert(block[i] == es[starts[j] + i]);
            }
        }
        lemma_parse_kb_concat(block, Seq::<u8>::empty());
        assert(kb_enc(block) + Seq::<u8>::empty() =~= kb_enc(block));
        assert(parse_key_block(Seq::<u8>::empty()) =~= Seq::<(Seq<u8>, u64)>::empty());
        assert(kv_pairs(block) + Seq::<(Seq<u8>, u64)>::empty() =~= kv_pairs(block));
        assert(anchor_pairs(bytes, a) == kv_pairs(block));
        lemma_blocks_pairs(bytes, sp, es, starts, j + 1);
        lemma_kv_pairs_split(es, starts[j], starts[j + 1], es.len() as int);
        assert(anchors_pairs(bytes, sp.skip(j)) == anchor_pairs(bytes, a) + anchors_pairs(
            bytes,
            sp.skip(j + 1),
        ));
    }
}

/// Encoding of sparse records distributes over appending one record.
proof fn lemma_sp_enc_push(list: Seq<SpEntry>, e: SpEntry)
    ensures
        sp_enc(list.push(e)) == sp_enc(list) + sp_entry_bytes(e),
    decreases list.len(),
{
    if list.len() == 0 {
        assert(list.push(e).drop_first() =~= Seq::<SpEntry>::empty());
        assert(list.push(e).first() == e);
        assert(sp_enc(Seq::<SpEntry>::empty()) == Seq::<u8>::empty());
        assert(sp_enc(list.push(e)) =~= sp_entry_bytes(e) + Seq::<u8>::empty());
        assert(sp_enc(list) + sp_entry_bytes(e) =~= sp_entry_bytes(e));
        assert(sp_entry_bytes(e) + Seq::<u8>::empty() =~= sp_entry_bytes(e));
    } else {
        assert(list.push(e).first() == list.first());
        assert(list.push(e).drop_first() =~= list.drop_first().push(e));
        lemma_sp_enc_push(list.drop_first(), e);
        assert(sp_entry_bytes(list.first()) + (sp_enc(list.drop_first()) + sp_entry_bytes(e)) =~= (
        sp_entry_bytes(list.first()) + sp_enc(list.drop_first())) + sp_entry_bytes(e));
    }
}

/// Byte size of the sparse-index records for these anchors.
pub open spec fn anchors_size(list: Seq<SparseIndex>) -> int
    decreases list.len(),
{
    if list.len() == 0 {
        0
    } else {
        anchors_size(list.drop_last()) + 20 + list.last().spec_key().len()
    }
}

/// Serializes a frozen table as one on-disk table image: the data block
/// of length-prefixed values, the sparse index, the key block, the
/// filter, and the footer.  Fails only when the image would not fit the
/// machine's address range or a count would not fit its field.
/// The closed blocks recorded so far: each anchor names its block's
/// first key and the byte span of its key records.
pub open spec fn anchors_ok(
    anchors: Seq<SparseIndex>,
    starts: Seq<int>,
    ses: Seq<SstEntry>,
    closed_upto: int,
) -> bool {
    &&& anchors.len() == starts.len()
    &&& forall|p: int| 0 <= p < starts.len() ==> 0 <= (#[trigger] starts[p]) < closed_upto
    &&& forall|p: int, q: int| 0 <= p < q < starts.len() ==> starts[p] < starts[q]
    &&& forall|p: int|
        0 <= p < starts.len() ==> {
            let b = #[trigger] starts[p];
            let c = if p + 1 < starts.len() {
                starts[p + 1]
            } else {
                closed_upto
            };
            &&& anchors[p].spec_key() == ses[b].key
            &&& anchors[p].spec_offset() == kb_enc(ses.take(b)).len()
            &&& anchors[p].spec_len() == kb_enc(ses.subrange(b, c)).len()
        }
}

/// Appending an entry beyond the closed blocks leaves their records as
/// they were.
proof fn lemma_anchors_ok_push(
    anchors: Seq<SparseIndex>,
    starts: Seq<int>,
    ses: Seq<SstEntry>,
    se: SstEntry,
    closed_upto: int,
)
    requires
        anchors_ok(anchors, starts, ses, closed_upto),
        0 <= closed_upto <= ses.len(),
    ensures
        anchors_ok(anchors, starts, ses.push(se), closed_upto),
{
    let ses2 = ses.push(se);
    assert forall|p: int| 0 <= p < starts.len() implies {
        let b = #[trigger] starts[p];
        let c = if p + 1 < starts.len() {
            starts[p + 1]
        } else {
            closed_upto
        };
        &&& anchors[p].spec_key() == ses2[b].key
        &&& anchors[p].spec_offset() == kb_enc(ses2.take(b)).len()
        &&& anchors[p].spec_len() == kb_enc(ses2.subrange(b, c)).len()
    } by {
        let b = starts[p];
        let c = if p + 1 < starts.len() {
            starts[p + 1]
        } else {
            closed_upto
        };
        if p + 1 < starts.len() {
            assert(starts[p + 1] < closed_upto);
        }
        assert(ses2.take(b) =~= ses.take(b));
        assert(ses2.subrange(b, c) =~= ses.subrange(b, c));
        assert(ses2[b] == ses[b]);
    }
}

/// Closing one more block extends the record by its anchor.
proof fn lemma_anchors_ok_close(
    anchors: Seq<SparseIndex>,
    a: SparseIndex,
    starts: Seq<int>,
    ses: Seq<SstEntry>,
    closed_upto: int,
    new_end: int,
)
    requires
        anchors_ok(anchors, starts, ses, closed_upto),
        0 <= closed_upto < new_end <= ses.len(),
        a.spec_key() == ses[closed_upto].key,
        a.spec_offset() == kb_enc(ses.take(closed_upto)).len(),
        a.spec_len() == kb_enc(ses.subrange(closed_upto, new_end)).len(),
    ensures
        anchors_ok(anchors.push(a), starts.push(closed_upto), ses, new_end),
{
    let anchors2 = anchors.push(a);
    let starts2 = starts.push(closed_upto);
    assert forall|p: int| 0 <= p < starts2.len() implies {
        let b = #[trigger] starts2[p];
        let c = if p + 1 < starts2.len() {
            starts2[p + 1]
        } else {
            new_end
        };
        &&& anchors2[p].spec_key() == ses[b].key
        &&& anchors2[p].spec_offset() == kb_enc(ses.take(b)).len()
        &&& anchors2[p].spec_len() == kb_enc(ses.subrange(b, c)).len()
    } by {
        if p < starts.len() {
            assert(starts2[p] == starts[p]);
            assert(anchors2[p] == anchors[p]);
            let c_old = if p + 1 < starts.len() {
                starts[p + 1]
            } else {
                closed_upto
            };
            let c_new = if p + 1 < starts2.len() {
                starts2[p + 1]
            } else {
                new_end
            };
            assert(c_old == c_new);
        } else {
            assert(starts2[p] == closed_upto);
            assert(anchors2[p] == a);
        }
    }
}

/// The closed-block record, restated over the boundary list that ends
/// at the entry count.
proof fn lemma_anchors_ok_to_fs(
    anchors: Seq<SparseIndex>,
    starts: Seq<int>,
    fs: Seq<int>,
    ses: Seq<SstEntry>,
)
    requires
        anchors_ok(anchors, starts, ses, ses.len() as int),
        fs == starts.push(ses.len() as int),
    ensures
        fs.len() == anchors.len() + 1,
        fs.last() == ses.len(),
        forall|p: int, q: int| 0 <= p < q < fs.len() ==> fs[p] < fs[q],
        forall|p: int|
            0 <= p < anchors.len() ==> {
                let a = #[trigger] anchors[p];
                &&& 0 <= fs[p] < ses.len()
                &&& a.spec_key() == ses[fs[p]].key
                &&& a.spec_offset() == kb_enc(ses.take(fs[p])).len()
                &&& a.spec_len() == kb_enc(ses.subrange(fs[p], fs[p + 1])).len()
            },
{
    assert forall|p: int, q: int| 0 <= p < q < fs.len() implies fs[p] < fs[q] by {
        assert(fs[p] == starts[p]);
        if q < starts.len() {
            assert(fs[q] == starts[q]);
        } else {
            assert(fs[q] == ses.len());
            assert(starts[p] < ses.len());
        }
    }
    assert forall|p: int| 0 <= p < anchors.len() implies {
        let a = #[trigger] anchors[p];
        &&& 0 <= fs[p] < ses.len()
        &&& a.spec_key() == ses[fs[p]].key
        &&& a.spec_offset() == kb_enc(ses.take(fs[p])).len()
        &&& a.spec_len() == kb_enc(ses.subrange(fs[p], fs[p + 1])).len()
    } by {
        assert(fs[p] == starts[p]);
        if p + 1 < starts.len() {
            assert(fs[p + 1] == starts[p + 1]);
        } else {
            assert(fs[p + 1] == ses.len());
        }
    }
}

/// One more aligned entry keeps the lists aligned.
proof fn lemma_step_aligned(tes: Seq<TableEntry>, ses: Seq<SstEntry>, se: SstEntry, i: int)
    requires
        0 <= i < tes.len(),
        entries_aligned(tes.take(i), ses),
        se.key == tes[i].key@,
        se.value == tes[i].value.model(),
    ensures
        entries_aligned(tes.take(i + 1), ses.push(se)),
{
    let ses2 = ses.push(se);
    assert forall|p: int|
        0 <= p < i + 1 implies (#[trigger] ses2[p]).key == (#[trigger] tes.take(i + 1)[p]).key@
        && ses2[p].value == tes.take(i + 1)[p].value.model() by {
        assert(tes.take(i + 1)[p] == tes[p]);
        if p < i {
            assert(ses2[p] == ses[p]);
            assert(tes.take(i)[p] == tes[p]);
        } else {
            assert(ses2[p] == se);
        }
    }
}

/// Appends one entry's value bytes, key-block record and filter probes
/// to the sections under construction, handing back the image entry it
/// denotes.
fn flush_push_entry(
    data_buf: &mut Vec<u8>,
    kb_buf: &mut Vec<u8>,
    filter: &mut BloomFilter,
    e: &TableEntry,
    Ghost(ses): Ghost<Seq<SstEntry>>,
) -> (se: Ghost<SstEntry>)
    requires
        old(kb_buf)@ == kb_enc(ses),
        sst_values_wf(ses, old(data_buf)@),
        e.key@.len() <= u32::MAX,
        e.value.spec_len() <= u32::MAX,
        old(filter).wf(),
    ensures
        se@.key == e.key@,
        se@.value == e.value.model(),
        final(kb_buf)@ == kb_enc(ses.push(se@)),
        final(kb_buf)@.len() == old(kb_buf)@.len() + 12 + e.key@.len(),
        sst_values_wf(ses.push(se@), final(data_buf)@),
        final(data_buf)@.len() >= old(data_buf)@.len(),
        final(filter).wf(),
        final(filter).spec_bit_size() == old(filter).spec_bit_size(),
        final(filter).spec_bits().len() == old(filter).spec_bits().len(),
        forall|k: Seq<u8>|
            #[trigger] spec_bloom_contains(
                old(filter).spec_bits(),
                old(filter).spec_bit_size(),
                k,
            ) ==> spec_bloom_contains(
                final(filter).spec_bits(),
                final(filter).spec_bit_size(),
                k,
            ),
        old(filter).spec_bit_size() > 0 ==> spec_bloom_contains(
            final(filter).spec_bits(),
            final(filter).spec_bit_size(),
            e.key@,
        ),
{
    let ghost data0 = data_buf@;
    let voff: u64 = match &e.value {
        Value::Data(b) => {
            let dlen: usize = data_buf.len();
            let v: u64 = dlen as u64;
            push_u32_le(data_buf, b.len() as u32);
            push_bytes(data_buf, b.as_slice());
            let dlen2: usize = data_buf.len();
            proof {
                lemma_auto_spec_u32_to_from_le_bytes();
                assert(data_buf@.subrange(v as int, v + 4) =~= spec_u32_to_le_bytes(
                    b@.len() as u32,
                ));
                assert(data_buf@.subrange(v + 4, v + 4 + b@.len()) =~= b@);
                assert(v + 4 + b@.len() == dlen2);
                assert(v < u64::MAX);
            }
            v
        },
        Value::Tombstone => TOMBSTONE_OFFSET,
    };
    let ghost se = SstEntry { key: e.key@, voff, value: e.value.model() };
    proof {
        // earlier values keep their bytes under the grown data block
        assert forall|p: int| 0 <= p < ses.len() implies {
            let q = #[trigger] ses[p];
            match q.value {
                None => q.voff == TOMBSTONE_OFFSET,
                Some(v) => {
                    &&& q.voff != TOMBSTONE_OFFSET
                    &&& q.voff + 4 + v.len() <= data_buf@.len()
                    &&& v.len() <= u32::MAX
                    &&& spec_u32_from_le_bytes(data_buf@.subrange(q.voff as int, q.voff + 4))
                        == v.len()
                    &&& v == data_buf@.subrange(q.voff + 4, q.voff + 4 + v.len())
                },
            }
        } by {
            let q = ses[p];
            match q.value {
                None => {},
                Some(v) => {
                    assert(data_buf@.subrange(q.voff as int, q.voff + 4) =~= data0.subrange(
                        q.voff as int,
                        q.voff + 4,
                    ));
                    assert(data_buf@.subrange(q.voff + 4, q.voff + 4 + v.len()) =~= data0.subrange(
                        q.voff + 4,
                        q.voff + 4 + v.len(),
                    ));
                },
            }
        }
        assert(sst_values_wf(ses.push(se), data_buf@)) by {
            assert forall|p: int| 0 <= p < ses.push(se).len() implies {
                let q = #[trigger] ses.push(se)[p];
                match q.value {
                    None => q.voff == TOMBSTONE_OFFSET,
                    Some(v) => {
                        &&& q.voff != TOMBSTONE_OFFSET
                        &&& q.voff + 4 + v.len() <= data_buf@.len()
                        &&& v.len() <= u32::MAX
                        &&& spec_u32_from_le_bytes(data_buf@.subrange(q.voff as int, q.voff + 4))
                            == v.len()
                        &&& v == data_buf@.subrange(q.voff + 4, q.voff + 4 + v.len())
                    },
                }
            } by {
                if p < ses.len() {
                    assert(ses.push(se)[p] == ses[p]);
                } else {
                    assert(ses.push(se)[p] == se);
                }
            }
        }
    }
    let klen = e.key.len();
    let ghost kb0 = kb_buf@;
    push_u32_le(kb_buf, klen as u32);
    push_bytes(kb_buf, e.key.as_slice());
    push_u64_le(kb_buf, voff);
    filter.add(e.key.as_slice());
    proof {
        lemma_auto_spec_u32_to_from_le_bytes();
        lemma_auto_spec_u64_to_from_le_bytes();
        let ses2 = ses.push(se);
        assert(ses2 =~= ses + seq![se]);
        lemma_kb_enc_add(ses, seq![se]);
        assert(seq![se].first() == se);
        assert(seq![se].drop_first() =~= Seq::<SstEntry>::empty());
        assert(kb_enc(seq![se].drop_first()) == kb_enc(Seq::<SstEntry>::empty()));
        assert(kb_enc(Seq::<SstEntry>::empty()) == Seq::<u8>::empty());
        assert(kb_enc(seq![se]) =~= kb_entry_bytes(se.key, se.voff) + Seq::<u8>::empty());
        assert(kb_enc(seq![se]) =~= kb_entry_bytes(se.key, se.voff));
        assert(kb_buf@ =~= kb0 + kb_entry_bytes(se.key, se.voff));
        assert(kb_buf@ == kb_enc(ses2));
        assert(kb_entry_bytes(se.key, se.voff).len() == 12 + e.key@.len());
        // filter growth keeps every admitted key admitted
        let obits = old(filter).spec_bits();
        let bsz = old(filter).spec_bit_size();
        let nbits = filter.spec_bits();
        assert forall|k: Seq<u8>| #[trigger] spec_bloom_contains(obits, bsz, k) implies
            spec_bloom_contains(nbits, bsz, k) by {
            if bsz > 0 {
                assert forall|i0: int| 0 <= i0 < HASH_COUNT implies bit_is_set(
                    nbits,
                    #[trigger] spec_probe(k, i0, bsz),
                ) by {
                    assert(bit_is_set(obits, spec_probe(k, i0, bsz)));
                    assert(0 <= spec_probe(k, i0, bsz) < bsz);
                    assert(8 * obits.len() >= bsz);
                }
            }
        }
    }
    Ghost(se)
}

#[verifier::rlimit(100)]
pub fn flush_one(sstno: u64, table: &TableMap) -> (r: KeplerResult<(SSTable, FlushResult)>)
    requires
        table.wf(),
        table_entries_bounded(table.spec_entries()),
    ensures
        match r {
            Ok((sst, fr)) => {
                &&& sst.wf()
                &&& sst.spec_id() == sstno
                &&& entries_aligned(table.spec_entries(), sst.spec_entries())
                &&& sst@ == drop_seqnos(as_map(table.spec_entries()))
                &&& sst_file_entries(sst.spec_data()) =~= sst.spec_entries()
                &&& sst_file_map(sst.spec_data()) == sst@
                &&& sst.spec_data().len() >= 48
                &&& footer_magic(sst.spec_data()) == MAGIC
                &&& footer_sstno(sst.spec_data()) == sstno
                &&& footer_max_seqno(sst.spec_data()) == entries_max_seqno(table.spec_entries())
                &&& footer_min_seqno(sst.spec_data()) == entries_min_seqno(table.spec_entries())
                &&& ({
                    let d = sst.spec_data();
                    let fbo = footer_bloom_off(d) as int;
                    &&& footer_sparse_off(d) as int <= fbo
                    &&& fbo + 8 + sst.spec_bloom_bits().len() + 48 == d.len()
                    &&& spec_u32_from_le_bytes(d.subrange(fbo, fbo + 4))
                        == sst.spec_bloom_bits().len()
                    &&& spec_u32_from_le_bytes(d.subrange(fbo + 4, fbo + 8))
                        == sst.spec_bloom_bit_size()
                    &&& d.subrange(fbo + 8, fbo + 8 + sst.spec_bloom_bits().len() as int)
                        == sst.spec_bloom_bits()
                })
                &&& forall|j: int|
                    0 <= j < sst.spec_index().len() - 1 ==> (
                    #[trigger] sst.spec_index()[j]).spec_len() + LEN_SIZE + OFFSET_SIZE
                        >= PAGE_4KB
                &&& fr.t == 0
                &&& fr.sstno == sstno
                &&& fr.max_seqno == entries_max_seqno(table.spec_entries())
                &&& fr.min_seqno == entries_min_seqno(table.spec_entries())
            },
            Err(e) => e == KeplerErr::CorruptedSst(0),
        },
        table.spec_entries().len() == 0 ==> r is Ok,
{
    let ghost tes = table.spec_entries();
    let n = table.len();
    if n > usize::MAX / BITS_PER_KEY {
        return Err(KeplerErr::CorruptedSst(0));
    }
    let mut data_buf: Vec<u8> = Vec::new();
    let mut kb_buf: Vec<u8> = Vec::new();
    let mut filter = BloomFilter::new(n);
    let mut anchors: Vec<SparseIndex> = Vec::new();
    let mut closed_upto: usize = 0;
    let mut block_start_byte: usize = 0;
    let mut max_seqno: u64 = 0;
    let mut min_seqno: u64 = 0xffff_ffff_ffff_ffff;
    let ghost mut ses: Seq<SstEntry> = Seq::empty();
    let ghost mut starts: Seq<int> = Seq::empty();
    let mut i: usize = 0;
    proof {
        assert(kb_enc(ses) == Seq::<u8>::empty());
        assert(kb_buf@ =~= kb_enc(ses));
        assert(tes.take(0) =~= Seq::<TableEntry>::empty());
        assert(ses.take(0) =~= Seq::<SstEntry>::empty());
    }
    while i < n
        invariant
            n == tes.len(),
            table.wf(),
            tes == table.spec_entries(),
            table_entries_bounded(tes),
            i <= n,
            closed_upto <= i,
            ses.len() == i,
            i == 0 ==> data_buf@.len() == 0,
            entries_aligned(tes.take(i as int), ses),
            sst_values_wf(ses, data_buf@),
            kb_buf@ == kb_enc(ses),
            // closed blocks partition the entries below closed_upto
            anchors_ok(anchors@, starts, ses, closed_upto as int),
            starts.len() == 0 ==> closed_upto == 0,
            starts.len() > 0 ==> starts[0] == 0,
            forall|p: int|
                0 <= p < anchors@.len() ==> (#[trigger] anchors@[p]).spec_len() + LEN_SIZE
                    + OFFSET_SIZE >= PAGE_4KB,
            block_start_byte <= kb_buf@.len(),
            block_start_byte == kb_enc(ses.take(closed_upto as int)).len(),
            // bloom filter state
            filter.wf(),
            filter.spec_bit_size() == if n == 0 {
                0
            } else {
                n * BITS_PER_KEY
            },
            forall|p: int|
                0 <= p < i ==> spec_bloom_contains(
                    filter.spec_bits(),
                    filter.spec_bit_size(),
                    (#[trigger] ses[p]).key,
                ),
            max_seqno == entries_max_seqno(tes.take(i as int)),
            min_seqno == entries_min_seqno(tes.take(i as int)),
        decreases n - i,
    {
        let e = table.entry_at(i);
        if e.seqno > max_seqno {
            max_seqno = e.seqno;
        }
        if e.seqno < min_seqno {
            min_seqno = e.seqno;
        }
        proof {
            assert(tes.take(i + 1).drop_last() =~= tes.take(i as int));
            assert(tes.take(i + 1).last() == tes[i as int]);
        }
        let se_g = flush_push_entry(&mut data_buf, &mut kb_buf, &mut filter, e, Ghost(ses));
        let ghost se = se_g@;
        proof {
            lemma_anchors_ok_push(anchors@, starts, ses, se, closed_upto as int);
            assert(ses.push(se).take(closed_upto as int) =~= ses.take(closed_upto as int));
            lemma_step_aligned(tes, ses, se, i as int);
            ses = ses.push(se);
        }
        let kb_len_now: usize = kb_buf.len();
        // close the block once it reaches the page target
        let block_bytes: u64 = (kb_len_now as u64) - (block_start_byte as u64);
        if block_bytes >= ((PAGE_4KB - LEN_SIZE - OFFSET_SIZE) as u64) {
            let first = table.entry_at(closed_upto);
            let blen_usize = kb_len_now - block_start_byte;
            let ghost anchors_pre = anchors@;
            let a_ix = SparseIndex::new(first.key.as_slice(), block_start_byte, blen_usize);
            anchors.push(a_ix);
            proof {
                let b = closed_upto as int;
                assert(ses.take(b) + ses.subrange(b, i + 1) =~= ses);
                lemma_kb_enc_add(ses.take(b), ses.subrange(b, i + 1));
                assert(kb_enc(ses.take(b)).len() + kb_enc(ses.subrange(b, i + 1)).len()
                    == kb_buf@.len());
                assert(tes.take(i + 1)[b] == tes[b]);
                assert(ses[b].key == tes[b].key@);
                assert(a_ix.spec_key() == ses[b].key);
                assert(a_ix.spec_len() + LEN_SIZE + OFFSET_SIZE >= PAGE_4KB);
                lemma_anchors_ok_close(anchors_pre, a_ix, starts, ses, b, i + 1);
                starts = starts.push(b);
                assert(ses.take(i + 1) =~= ses);
            }
            closed_upto = i + 1;
            block_start_byte = kb_len_now;
        }
        i = i + 1;
    }
    flush_tail(
        sstno,
        table,
        data_buf,
        kb_buf,
        filter,
        anchors,
        closed_upto,
        block_start_byte,
        max_seqno,
        min_seqno,
        Ghost(ses),
        Ghost(starts),
        Ghost(tes),
    )
}

/// Closes the trailing partial block with the final anchor, so that
/// every key stays reachable through the sparse index, and hands the
/// sections to assembly.
#[verifier::rlimit(100)]
#[verifier::spinoff_prover]
fn flush_tail(
    sstno: u64,
    table: &TableMap,
    data_buf: Vec<u8>,
    kb_buf: Vec<u8>,
    filter: BloomFilter,
    anchors: Vec<SparseIndex>,
    closed_upto: usize,
    block_start_byte: usize,
    max_seqno: u64,
    min_seqno: u64,
    Ghost(ses): Ghost<Seq<SstEntry>>,
    Ghost(starts0): Ghost<Seq<int>>,
    Ghost(tes): Ghost<Seq<TableEntry>>,
) -> (r: KeplerResult<(SSTable, FlushResult)>)
    requires
        table.wf(),
        tes == table.spec_entries(),
        table_entries_bounded(tes),
        ses.len() == tes.len(),
        ses.len() == 0 ==> data_buf@.len() == 0,
        entries_aligned(tes.take(tes.len() as int), ses),
        sst_values_wf(ses, data_buf@),
        kb_buf@ == kb_enc(ses),
        closed_upto <= tes.len(),
        anchors_ok(anchors@, starts0, ses, closed_upto as int),
        starts0.len() == 0 ==> closed_upto == 0,
        starts0.len() > 0 ==> starts0[0] == 0,
        forall|p: int|
            0 <= p < anchors@.len() ==> (#[trigger] anchors@[p]).spec_len() + LEN_SIZE
                + OFFSET_SIZE >= PAGE_4KB,
        block_start_byte <= kb_buf@.len(),
        block_start_byte == kb_enc(ses.take(closed_upto as int)).len(),
        filter.wf(),
        filter.spec_bit_size() == if tes.len() == 0 {
            0
        } else {
            tes.len() * BITS_PER_KEY
        },
        forall|p: int|
            0 <= p < ses.len() ==> spec_bloom_contains(
                filter.spec_bits(),
                filter.spec_bit_size(),
                (#[trigger] ses[p]).key,
            ),
        max_seqno == entries_max_seqno(tes.take(tes.len() as int)),
        min_seqno == entries_min_seqno(tes.take(tes.len() as int)),
    ensures
        match r {
            Ok((sst, fr)) => {
                &&& sst.wf()
                &&& sst.spec_id() == sstno
                &&& entries_aligned(tes, sst.spec_entries())
                &&& sst@ == drop_seqnos(as_map(tes))
                &&& sst_file_entries(sst.spec_data()) =~= sst.spec_entries()
                &&& sst_file_map(sst.spec_data()) == sst@
                &&& sst.spec_data().len() >= 48
                &&& footer_magic(sst.spec_data()) == MAGIC
                &&& footer_sstno(sst.spec_data()) == sstno
                &&& footer_max_seqno(sst.spec_data()) == entries_max_seqno(tes)
                &&& footer_min_seqno(sst.spec_data()) == entries_min_seqno(tes)
                &&& ({
                    let d = sst.spec_data();
                    let fbo = footer_bloom_off(d) as int;
                    &&& footer_sparse_off(d) as int <= fbo
                    &&& fbo + 8 + sst.spec_bloom_bits().len() + 48 == d.len()
                    &&& spec_u32_from_le_bytes(d.subrange(fbo, fbo + 4))
                        == sst.spec_bloom_bits().len()
                    &&& spec_u32_from_le_bytes(d.subrange(fbo + 4, fbo + 8))
                        == sst.spec_bloom_bit_size()
                    &&& d.subrange(fbo + 8, fbo + 8 + sst.spec_bloom_bits().len() as int)
                        == sst.spec_bloom_bits()
                })
                &&& forall|j: int|
                    0 <= j < sst.spec_index().len() - 1 ==> (
                    #[trigger] sst.spec_index()[j]).spec_len() + LEN_SIZE + OFFSET_SIZE
                        >= PAGE_4KB
                &&& fr.t == 0
                &&& fr.sstno == sstno
                &&& fr.max_seqno == entries_max_seqno(tes)
                &&& fr.min_seqno == entries_min_seqno(tes)
            },
            Err(e) => e == KeplerErr::CorruptedSst(0),
        },
        tes.len() == 0 ==> r is Ok,
{
    let mut anchors = anchors;
    let starts_g = close_trailing(
        table,
        &kb_buf,
        &mut anchors,
        closed_upto,
        block_start_byte,
        Ghost(ses),
        Ghost(starts0),
        Ghost(tes),
    );
    let ghost starts = starts_g@;
    let ghost n = tes.len() as int;
    let ghost fs = starts.push(n);
    proof {
        assert(tes.take(tes.len() as int) =~= tes);
        assert(entries_max_seqno(tes.take(tes.len() as int)) == entries_max_seqno(tes));
        assert(ses.take(n) =~= ses);
        lemma_anchors_ok_to_fs(anchors@, starts, fs, ses);
        assert(fs[0] == 0);
        assert(fs.last() == ses.len());
        assert(entries_aligned(tes, ses));
    }
    flush_assemble(
        sstno,
        data_buf,
        kb_buf,
        filter,
        anchors,
        max_seqno,
        min_seqno,
        Ghost(ses),
        Ghost(fs),
        Ghost(tes),
    )
}

/// The laid-out image reads back, through the footer, the sparse index
/// and the key-block regions, to exactly the entries it was built from.
#[verifier::rlimit(80)]
proof fn flush_image_facts(
    ff: Seq<u8>,
    body: Seq<u8>,
    dd: Seq<u8>,
    kb: Seq<u8>,
    sp: Seq<SpEntry>,
    ses: Seq<SstEntry>,
    fs: Seq<int>,
    tes: Seq<TableEntry>,
    bits: Seq<u8>,
    bsz: nat,
    so: int,
    kb_base: int,
    bo: int,
    cnt: int,
    max_seqno: u64,
    min_seqno: u64,
    sstno: u64,
)
    requires
        body == dd + spec_u32_to_le_bytes(cnt as u32) + sp_enc(sp) + kb + spec_u32_to_le_bytes(
            bits.len() as u32,
        ) + spec_u32_to_le_bytes(bsz as u32) + bits,
        ff == body + spec_u64_to_le_bytes(so as u64) + spec_u64_to_le_bytes(bo as u64)
            + spec_u64_to_le_bytes(max_seqno) + spec_u64_to_le_bytes(min_seqno)
            + spec_u64_to_le_bytes(sstno) + spec_u64_to_le_bytes(MAGIC),
        ff.len() <= usize::MAX,
        so == dd.len(),
        cnt == sp.len(),
        0 <= cnt <= u32::MAX,
        kb == kb_enc(ses),
        kb_base == so + 4 + sp_enc(sp).len(),
        bo == kb_base + kb.len(),
        bits.len() <= u32::MAX,
        bsz <= u32::MAX,
        fs.len() == sp.len() + 1,
        fs[0] == 0,
        fs.last() == ses.len(),
        forall|p: int, q: int| 0 <= p < q < fs.len() ==> fs[p] < fs[q],
        sst_entries_wf(ses),
        sst_values_wf(ses, dd),
        forall|p: int|
            0 <= p < sp.len() ==> {
                let s = #[trigger] sp[p];
                &&& 0 <= fs[p] < ses.len()
                &&& s.key == ses[fs[p]].key
                &&& s.off == kb_base + kb_enc(ses.take(fs[p])).len()
                &&& s.len == kb_enc(ses.subrange(fs[p], fs[p + 1])).len()
            },
    ensures
        ff.len() == body.len() + 48,
        ff.len() >= 48,
        footer_sparse_off(ff) == so as u64,
        footer_bloom_off(ff) == bo as u64,
        footer_max_seqno(ff) == max_seqno,
        footer_min_seqno(ff) == min_seqno,
        footer_sstno(ff) == sstno,
        footer_magic(ff) == MAGIC,
        sst_file_anchors(ff) == sp,
        forall|p: int|
            0 <= p < sp.len() ==> (#[trigger] sp[p]).off + sp[p].len <= ff.len() && ff.subrange(
                sp[p].off as int,
                sp[p].off + sp[p].len,
            ) == kb_enc(ses.subrange(fs[p], fs[p + 1])),
        sst_file_entries(ff) =~= ses,
        bo + 8 + bits.len() + 48 == ff.len(),
        spec_u32_from_le_bytes(ff.subrange(bo, bo + 4)) == bits.len(),
        spec_u32_from_le_bytes(ff.subrange(bo + 4, bo + 8)) == bsz,
        ff.subrange(bo + 8, bo + 8 + bits.len() as int) == bits,
{
    lemma_auto_spec_u32_to_from_le_bytes();
    lemma_auto_spec_u64_to_from_le_bytes();
    let lb = body.len() as int;
    assert(ff.len() == lb + 48);
    assert(ff.subrange(lb, lb + 8) =~= spec_u64_to_le_bytes(so as u64));
    assert(ff.subrange(lb + 8, lb + 16) =~= spec_u64_to_le_bytes(bo as u64));
    assert(ff.subrange(lb + 16, lb + 24) =~= spec_u64_to_le_bytes(max_seqno));
    assert(ff.subrange(lb + 24, lb + 32) =~= spec_u64_to_le_bytes(min_seqno));
    assert(ff.subrange(lb + 32, lb + 40) =~= spec_u64_to_le_bytes(sstno));
    assert(ff.subrange(lb + 40, lb + 48) =~= spec_u64_to_le_bytes(MAGIC));
    assert(footer_sparse_off(ff) == so as u64);
    assert(footer_magic(ff) == MAGIC);
    // the filter section sits between the key block and the footer
    assert(ff.subrange(bo, bo + 4) =~= spec_u32_to_le_bytes(bits.len() as u32));
    assert(ff.subrange(bo + 4, bo + 8) =~= spec_u32_to_le_bytes(bsz as u32));
    assert(ff.subrange(bo + 8, bo + 8 + bits.len() as int) =~= bits);
    // the sparse index reads back
    assert(0 <= so && so + 4 <= ff.len());
    assert(ff.subrange(so, so + 4) =~= spec_u32_to_le_bytes(cnt as u32));
    assert(spec_u32_from_le_bytes(ff.subrange(so, so + 4)) == cnt as u32);
    let rest = kb + spec_u32_to_le_bytes(bits.len() as u32) + spec_u32_to_le_bytes(bsz as u32)
        + bits + spec_u64_to_le_bytes(so as u64) + spec_u64_to_le_bytes(bo as u64)
        + spec_u64_to_le_bytes(max_seqno) + spec_u64_to_le_bytes(min_seqno)
        + spec_u64_to_le_bytes(sstno) + spec_u64_to_le_bytes(MAGIC);
    assert(ff.skip(so + 4) =~= sp_enc(sp) + rest);
    assert(sp_entries_wf(sp)) by {
        assert forall|p: int| 0 <= p < sp.len() implies (#[trigger] sp[p]).key.len()
            <= u32::MAX by {
            assert(sp[p].key == ses[fs[p]].key);
            assert(ses[fs[p]].key.len() <= u32::MAX);
        }
    }
    lemma_parse_sp_concat(sp, rest);
    assert(parse_sparse(ff.skip(so + 4), cnt) == Some(sp));
    assert(sst_file_anchors(ff) == sp) by {
        assert((so as u64) as int == so);
    }
    // each anchor region holds its block's records
    assert(ff.subrange(kb_base, kb_base + kb.len() as int) =~= kb);
    assert forall|p: int|
        0 <= p < sp.len() implies (#[trigger] sp[p]).off + sp[p].len <= ff.len() && ff.subrange(
        sp[p].off as int,
        sp[p].off + sp[p].len,
    ) == kb_enc(ses.subrange(fs[p], fs[p + 1])) by {
        let b = fs[p];
        let c = fs[p + 1];
        assert(0 <= b <= c <= ses.len()) by {
            if p + 1 < fs.len() - 1 {
                assert(fs[p + 1] < fs[fs.len() - 1]);
            }
        }
        assert(ses.take(b) + ses.subrange(b, c) =~= ses.take(c));
        lemma_kb_enc_add(ses.take(b), ses.subrange(b, c));
        assert(ses.take(c) + ses.skip(c) =~= ses);
        lemma_kb_enc_add(ses.take(c), ses.skip(c));
        assert(kb_enc(ses) == kb_enc(ses.take(b)) + kb_enc(ses.subrange(b, c)) + kb_enc(
            ses.skip(c),
        ));
        let o1 = kb_enc(ses.take(b)).len() as int;
        let l1 = kb_enc(ses.subrange(b, c)).len() as int;
        assert(o1 + l1 <= kb.len());
        assert(sp[p].off + sp[p].len <= kb_base + kb.len());
        assert(ff.subrange(kb_base + o1, kb_base + o1 + l1) =~= kb.subrange(o1, o1 + l1));
        assert(kb.subrange(o1, o1 + l1) =~= kb_enc(ses.subrange(b, c)));
    }
    // the walked regions list exactly the entries' pairs
    lemma_blocks_pairs(ff, sp, ses, fs, 0);
    assert(sp.skip(0) =~= sp);
    assert(ses.subrange(fs[0], ses.len() as int) =~= ses);
    assert(sst_file_pairs(ff) == kv_pairs(ses));
    // values decode from the data block prefix
    assert(sst_file_entries(ff) =~= ses) by {
        assert(sst_file_entries(ff).len() == ses.len());
        assert forall|p: int| 0 <= p < ses.len() implies sst_file_entries(ff)[p] == ses[p] by {
            assert(sst_file_pairs(ff)[p] == (ses[p].key, ses[p].voff));
            let q = ses[p];
            match q.value {
                None => {
                    assert(pair_value(ff, q.voff) == q.value);
                },
                Some(v) => {
                    assert(q.voff + 4 + v.len() <= dd.len());
                    assert(ff.subrange(q.voff as int, q.voff + 4) =~= dd.subrange(
                        q.voff as int,
                        q.voff + 4,
                    ));
                    assert(spec_u32_from_le_bytes(ff.subrange(q.voff as int, q.voff + 4))
                        == v.len());
                    assert(ff.subrange(q.voff + 4, q.voff + 4 + v.len()) =~= dd.subrange(
                        q.voff + 4,
                        q.voff + 4 + v.len(),
                    ));
                    assert(pair_value(ff, q.voff) == Some(v));
                },
            }
        }
    }
}

/// Lays the prepared sections out as one image and proves the image
/// reads back to the entries it was built from.
#[verifier::rlimit(60)]
fn flush_assemble(
    sstno: u64,
    data_buf: Vec<u8>,
    kb_buf: Vec<u8>,
    filter: BloomFilter,
    anchors: Vec<SparseIndex>,
    max_seqno: u64,
    min_seqno: u64,
    Ghost(ses): Ghost<Seq<SstEntry>>,
    Ghost(fs): Ghost<Seq<int>>,
    Ghost(tes): Ghost<Seq<TableEntry>>,
) -> (r: KeplerResult<(SSTable, FlushResult)>)
    requires
        entries_aligned(tes, ses),
        entries_sorted(tes),
        table_entries_bounded(tes),
        sst_values_wf(ses, data_buf@),
        ses.len() == 0 ==> data_buf@.len() == 0,
        kb_buf@ == kb_enc(ses),
        fs.len() == anchors@.len() + 1,
        fs[0] == 0,
        fs.last() == ses.len(),
        forall|p: int, q: int| 0 <= p < q < fs.len() ==> fs[p] < fs[q],
        forall|p: int|
            0 <= p < anchors@.len() ==> {
                let a = #[trigger] anchors@[p];
                &&& 0 <= fs[p] < ses.len()
                &&& a.spec_key() == ses[fs[p]].key
                &&& a.spec_offset() == kb_enc(ses.take(fs[p])).len()
                &&& a.spec_len() == kb_enc(ses.subrange(fs[p], fs[p + 1])).len()
            },
        forall|p: int|
            0 <= p < anchors@.len() - 1 ==> (#[trigger] anchors@[p]).spec_len() + LEN_SIZE
                + OFFSET_SIZE >= PAGE_4KB,
        filter.wf(),
        filter.spec_bit_size() == if ses.len() == 0 {
            0
        } else {
            ses.len() * BITS_PER_KEY
        },
        forall|p: int|
            0 <= p < ses.len() ==> spec_bloom_contains(
                filter.spec_bits(),
                filter.spec_bit_size(),
                (#[trigger] ses[p]).key,
            ),
        max_seqno == entries_max_seqno(tes),
        min_seqno == entries_min_seqno(tes),
    ensures
        match r {
            Ok((sst, fr)) => {
                &&& sst.wf()
                &&& sst.spec_id() == sstno
                &&& entries_aligned(tes, sst.spec_entries())
                &&& sst@ == drop_seqnos(as_map(tes))
                &&& sst_file_entries(sst.spec_data()) =~= sst.spec_entries()
                &&& sst_file_map(sst.spec_data()) == sst@
                &&& sst.spec_data().len() >= 48
                &&& footer_magic(sst.spec_data()) == MAGIC
                &&& footer_sstno(sst.spec_data()) == sstno
                &&& footer_max_seqno(sst.spec_data()) == entries_max_seqno(tes)
                &&& footer_min_seqno(sst.spec_data()) == entries_min_seqno(tes)
                &&& ({
                    let d = sst.spec_data();
                    let fbo = footer_bloom_off(d) as int;
                    &&& footer_sparse_off(d) as int <= fbo
                    &&& fbo + 8 + sst.spec_bloom_bits().len() + 48 == d.len()
                    &&& spec_u32_from_le_bytes(d.subrange(fbo, fbo + 4))
                        == sst.spec_bloom_bits().len()
                    &&& spec_u32_from_le_bytes(d.subrange(fbo + 4, fbo + 8))
                        == sst.spec_bloom_bit_size()
                    &&& d.subrange(fbo + 8, fbo + 8 + sst.spec_bloom_bits().len() as int)
                        == sst.spec_bloom_bits()
                })
                &&& forall|j: int|
                    0 <= j < sst.spec_index().len() - 1 ==> (
                    #[trigger] sst.spec_index()[j]).spec_len() + LEN_SIZE + OFFSET_SIZE
                        >= PAGE_4KB
                &&& fr.t == 0
                &&& fr.sstno == sstno
                &&& fr.max_seqno == entries_max_seqno(tes)
                &&& fr.min_seqno == entries_min_seqno(tes)
            },
            Err(e) => e == KeplerErr::CorruptedSst(0),
        },
        ses.len() == 0 ==> r is Ok,
{
    let ghost dd = data_buf@;
    let ghost kb = kb_buf@;
    proof {
        if ses.len() == 0 {
            // an empty table has empty sections and no anchors, so every
            // size check passes
            assert(kb_enc(ses) == Seq::<u8>::empty());
            if anchors@.len() > 0 {
                assert(fs[0] < fs[fs.len() - 1]);
                assert(false);
            }
            assert(anchors@ =~= Seq::<SparseIndex>::empty());
        }
    }
    let n_anchors = anchors.len();
    proof {
        assert(anchors@.take(0) =~= Seq::<SparseIndex>::empty());
        assert forall|p: int|
            0 <= p < anchors@.len() implies (#[trigger] anchors@[p]).spec_key().len()
            <= u32::MAX by {
            assert(anchors@[p].spec_key() == ses[fs[p]].key);
            assert(ses[fs[p]].key == tes[fs[p]].key@);
        }
    }
    // measure the sparse-index section
    let mut isec_len128: u128 = 0;
    let mut j: usize = 0;
    while j < n_anchors
        invariant
            j <= n_anchors,
            n_anchors == anchors@.len(),
            forall|p: int|
                0 <= p < anchors@.len() ==> (#[trigger] anchors@[p]).spec_key().len() <= u32::MAX,
            isec_len128 == anchors_size(anchors@.take(j as int)),
            isec_len128 <= j * (20 + 0xffff_ffffu128),
        decreases n_anchors - j,
    {
        let klen = anchors[j].key().len();
        proof {
            assert(anchors@.take(j + 1).drop_last() =~= anchors@.take(j as int));
            assert(anchors@.take(j + 1).last() == anchors@[j as int]);
        }
        isec_len128 = isec_len128 + 20 + (klen as u128);
        j = j + 1;
    }
    proof {
        assert(anchors@.take(n_anchors as int) =~= anchors@);
        assert forall|p: int|
            0 <= p < anchors@.len() implies (#[trigger] anchors@[p]).spec_key().len()
            <= u32::MAX by {
            assert(anchors@[p].spec_key() == ses[fs[p]].key);
            assert(ses[fs[p]].key == tes[fs[p]].key@);
        }
    }
    let data_len = data_buf.len();
    let kb_len = kb_buf.len();
    let filter_len = filter.len();
    let total128: u128 = (data_len as u128) + 4 + isec_len128 + (kb_len as u128) + 8 + (
    filter_len as u128) + 48;
    if total128 > (usize::MAX as u128) {
        return Err(KeplerErr::CorruptedSst(0));
    }
    if n_anchors > (u32::MAX as usize) || filter_len > (u32::MAX as usize) || filter.bit_size()
        > (u32::MAX as usize) {
        return Err(KeplerErr::CorruptedSst(0));
    }
    let isec_len: usize = isec_len128 as usize;
    let so = data_len;
    let kb_base = so + 4 + isec_len;
    proof {
        assert(kb_base + kb_len + 8 + filter_len + 48 <= usize::MAX);
        assert(sst_entries_wf(ses)) by {
            assert forall|p: int| 0 <= p < ses.len() implies (#[trigger] ses[p]).key.len()
                <= u32::MAX by {
                assert(ses[p].key == tes[p].key@);
            }
        }
        assert forall|p: int|
            0 <= p < anchors@.len() implies 0 <= (#[trigger] anchors@[p]).spec_offset()
            && anchors@[p].spec_offset() + anchors@[p].spec_len() <= kb.len() by {
            let b = fs[p];
            let c = fs[p + 1];
            assert(fs[p] < fs[p + 1]);
            if p + 1 < fs.len() - 1 {
                assert(fs[p + 1] < fs[fs.len() - 1]);
            }
            assert(0 <= b <= c <= ses.len());
            assert(ses.take(b) + ses.subrange(b, c) =~= ses.take(c));
            lemma_kb_enc_add(ses.take(b), ses.subrange(b, c));
            assert(ses.take(c) + ses.skip(c) =~= ses);
            lemma_kb_enc_add(ses.take(c), ses.skip(c));
        }
    }
    // emit: count, then the sparse records with file offsets
    let mut file = data_buf;
    push_u32_le(&mut file, n_anchors as u32);
    let mut final_index: Vec<SparseIndex> = Vec::new();
    let ghost mut sp: Seq<SpEntry> = Seq::empty();
    let mut j: usize = 0;
    proof {
        lemma_auto_spec_u32_to_from_le_bytes();
        assert(sp_enc(sp) == Seq::<u8>::empty());
        assert(file@ =~= dd + spec_u32_to_le_bytes(n_anchors as u32) + sp_enc(sp));
        assert(anchors_size(anchors@.take(0)) == 0) by {
            assert(anchors@.take(0) =~= Seq::<SparseIndex>::empty());
        }
        assert(file@.len() == so + 4 + anchors_size(anchors@.take(0)));
    }
    while j < n_anchors
        invariant
            j <= n_anchors,
            n_anchors == anchors@.len(),
            n_anchors <= u32::MAX,
            sp.len() == j,
            final_index@.len() == j,
            kb_base == so + 4 + isec_len,
            isec_len == anchors_size(anchors@),
            kb_len == kb.len(),
            so == dd.len(),
            kb_base + kb_len + 8 + filter_len + 48 <= usize::MAX,
            forall|p: int|
                0 <= p < anchors@.len() ==> (#[trigger] anchors@[p]).spec_key().len() <= u32::MAX,
            forall|p: int|
                0 <= p < anchors@.len() ==> 0 <= (#[trigger] anchors@[p]).spec_offset()
                    && anchors@[p].spec_offset() + anchors@[p].spec_len() <= kb.len(),
            forall|p: int|
                0 <= p < j ==> {
                    let s = #[trigger] sp[p];
                    &&& s.key == anchors@[p].spec_key()
                    &&& s.off == kb_base + anchors@[p].spec_offset()
                    &&& s.len == anchors@[p].spec_len()
                },
            forall|p: int|
                0 <= p < j ==> {
                    let fi = #[trigger] final_index@[p];
                    &&& fi.spec_key() == anchors@[p].spec_key()
                    &&& fi.spec_offset() == kb_base + anchors@[p].spec_offset()
                    &&& fi.spec_len() == anchors@[p].spec_len()
                },
            file@ == dd + spec_u32_to_le_bytes(n_anchors as u32) + sp_enc(sp),
            file@.len() == so + 4 + anchors_size(anchors@.take(j as int)),
        decreases n_anchors - j,
    {
        let a_key_len = anchors[j].key().len();
        let a_off = anchors[j].offset_val();
        let a_len = anchors[j].len_val();
        let off_file = kb_base + a_off;
        let ghost pre = file@;
        push_u32_le(&mut file, a_key_len as u32);
        let key_ref = anchors[j].key();
        push_bytes(&mut file, key_ref.as_slice());
        push_u64_le(&mut file, off_file as u64);
        push_u64_le(&mut file, a_len as u64);
        final_index.push(SparseIndex::new(key_ref.as_slice(), off_file, a_len));
        proof {
            lemma_auto_spec_u32_to_from_le_bytes();
            lemma_auto_spec_u64_to_from_le_bytes();
            let e = SpEntry {
                key: anchors@[j as int].spec_key(),
                off: (kb_base + anchors@[j as int].spec_offset()) as u64,
                len: anchors@[j as int].spec_len() as u64,
            };
            assert(file@ =~= pre + sp_entry_bytes(e));
            lemma_sp_enc_push(sp, e);
            assert(dd + spec_u32_to_le_bytes(n_anchors as u32) + sp_enc(sp.push(e)) =~= (dd
                + spec_u32_to_le_bytes(n_anchors as u32) + sp_enc(sp)) + sp_entry_bytes(e));
            sp = sp.push(e);
            assert(anchors@.take(j + 1).drop_last() =~= anchors@.take(j as int));
            assert(anchors@.take(j + 1).last() == anchors@[j as int]);
            assert(sp_entry_bytes(e).len() == 20 + e.key.len());
        }
        j = j + 1;
    }
    proof {
        assert(anchors@.take(n_anchors as int) =~= anchors@);
        assert(file@.len() == kb_base);
        assert(file@.len() == dd.len() + 4 + sp_enc(sp).len());
        assert(ses.len() > 0 ==> filter.spec_bit_size() > 0);
        assert forall|p: int| 0 <= p < sp.len() implies {
            let s = #[trigger] sp[p];
            &&& 0 <= fs[p] < ses.len()
            &&& s.key == ses[fs[p]].key
            &&& s.off == kb_base + kb_enc(ses.take(fs[p])).len()
            &&& s.len == kb_enc(ses.subrange(fs[p], fs[p + 1])).len()
        } by {
            assert(sp[p].key == anchors@[p].spec_key());
            assert(anchors@[p].spec_key() == ses[fs[p]].key);
        }
        assert forall|p: int|
            0 <= p < final_index@.len() - 1 implies (#[trigger] final_index@[p]).spec_len()
            + LEN_SIZE + OFFSET_SIZE >= PAGE_4KB by {
            assert(final_index@[p].spec_len() == anchors@[p].spec_len());
            assert(anchors@[p].spec_len() + LEN_SIZE + OFFSET_SIZE >= PAGE_4KB);
        }
    }
    let (sst, fr) = flush_finish(
        file,
        kb_buf,
        filter,
        final_index,
        sstno,
        max_seqno,
        min_seqno,
        so,
        kb_base,
        Ghost(dd),
        Ghost(kb),
        Ghost(sp),
        Ghost(ses),
        Ghost(fs),
        Ghost(tes),
    );
    Ok((sst, fr))
}

/// Splices the key block, the filter and the footer after the sparse
/// index and assembles the finished table object.
#[verifier::rlimit(100)]
fn flush_finish(
    file0: Vec<u8>,
    kb_buf: Vec<u8>,
    filter: BloomFilter,
    final_index: Vec<SparseIndex>,
    sstno: u64,
    max_seqno: u64,
    min_seqno: u64,
    so: usize,
    kb_base: usize,
    Ghost(dd): Ghost<Seq<u8>>,
    Ghost(kb): Ghost<Seq<u8>>,
    Ghost(sp): Ghost<Seq<SpEntry>>,
    Ghost(ses): Ghost<Seq<SstEntry>>,
    Ghost(fs): Ghost<Seq<int>>,
    Ghost(tes): Ghost<Seq<TableEntry>>,
) -> (r: (SSTable, FlushResult))
    requires
        file0@ == dd + spec_u32_to_le_bytes(sp.len() as u32) + sp_enc(sp),
        file0@.len() == kb_base,
        so == dd.len(),
        kb_buf@ == kb,
        kb == kb_enc(ses),
        sp.len() <= u32::MAX,
        kb_base + kb.len() + 8 + filter.spec_bits().len() + 48 <= usize::MAX,
        filter.wf(),
        filter.spec_bits().len() <= u32::MAX,
        filter.spec_bit_size() <= u32::MAX,
        ses.len() > 0 ==> filter.spec_bit_size() > 0,
        forall|p: int|
            0 <= p < ses.len() ==> spec_bloom_contains(
                filter.spec_bits(),
                filter.spec_bit_size(),
                (#[trigger] ses[p]).key,
            ),
        entries_aligned(tes, ses),
        entries_sorted(tes),
        table_entries_bounded(tes),
        sst_entries_wf(ses),
        sst_values_wf(ses, dd),
        fs.len() == sp.len() + 1,
        fs[0] == 0,
        fs.last() == ses.len(),
        forall|p: int, q: int| 0 <= p < q < fs.len() ==> fs[p] < fs[q],
        forall|p: int|
            0 <= p < sp.len() ==> {
                let s = #[trigger] sp[p];
                &&& 0 <= fs[p] < ses.len()
                &&& s.key == ses[fs[p]].key
                &&& s.off == kb_base + kb_enc(ses.take(fs[p])).len()
                &&& s.len == kb_enc(ses.subrange(fs[p], fs[p + 1])).len()
            },
        final_index@.len() == sp.len(),
        forall|p: int|
            0 <= p < sp.len() ==> {
                let fi = #[trigger] final_index@[p];
                &&& fi.spec_key() == sp[p].key
                &&& fi.spec_offset() == sp[p].off
                &&& fi.spec_len() == sp[p].len
            },
        forall|p: int|
            0 <= p < final_index@.len() - 1 ==> (#[trigger] final_index@[p]).spec_len()
                + LEN_SIZE + OFFSET_SIZE >= PAGE_4KB,
        max_seqno == entries_max_seqno(tes),
        min_seqno == entries_min_seqno(tes),
    ensures
        ({
            let (sst, fr) = r;
            &&& sst.wf()
            &&& sst.spec_id() == sstno
            &&& entries_aligned(tes, sst.spec_entries())
            &&& sst@ == drop_seqnos(as_map(tes))
            &&& sst_file_entries(sst.spec_data()) =~= sst.spec_entries()
            &&& sst_file_map(sst.spec_data()) == sst@
            &&& sst.spec_data().len() >= 48
            &&& footer_magic(sst.spec_data()) == MAGIC
            &&& footer_sstno(sst.spec_data()) == sstno
            &&& footer_max_seqno(sst.spec_data()) == entries_max_seqno(tes)
            &&& footer_min_seqno(sst.spec_data()) == entries_min_seqno(tes)
            &&& ({
                    let d = sst.spec_data();
                    let fbo = footer_bloom_off(d) as int;
                    &&& footer_sparse_off(d) as int <= fbo
                    &&& fbo + 8 + sst.spec_bloom_bits().len() + 48 == d.len()
                    &&& spec_u32_from_le_bytes(d.subrange(fbo, fbo + 4))
                        == sst.spec_bloom_bits().len()
                    &&& spec_u32_from_le_bytes(d.subrange(fbo + 4, fbo + 8))
                        == sst.spec_bloom_bit_size()
                    &&& d.subrange(fbo + 8, fbo + 8 + sst.spec_bloom_bits().len() as int)
                        == sst.spec_bloom_bits()
                })
                &&& forall|j: int|
                    0 <= j < sst.spec_index().len() - 1 ==> (
                    #[trigger] sst.spec_index()[j]).spec_len() + LEN_SIZE + OFFSET_SIZE
                        >= PAGE_4KB
                &&& fr.t == 0
            &&& fr.sstno == sstno
            &&& fr.max_seqno == entries_max_seqno(tes)
            &&& fr.min_seqno == entries_min_seqno(tes)
        }),
{
    let mut file = file0;
    let filter_len = filter.len();
    // splice in the key block, the filter, and the footer
    push_bytes(&mut file, kb_buf.as_slice());
    let bo = file.len();
    let bit_size = filter.bit_size();
    push_u32_le(&mut file, filter_len as u32);
    push_u32_le(&mut file, bit_size as u32);
    push_bytes(&mut file, filter.as_slice());
    let ghost body = file@;
    push_u64_le(&mut file, so as u64);
    push_u64_le(&mut file, bo as u64);
    push_u64_le(&mut file, max_seqno);
    push_u64_le(&mut file, min_seqno);
    push_u64_le(&mut file, sstno);
    push_u64_le(&mut file, MAGIC);
    let ghost ff = file@;
    let total_len: usize = file.len();
    proof {
        lemma_auto_spec_u32_to_from_le_bytes();
        lemma_auto_spec_u64_to_from_le_bytes();
        assert(ff.len() == total_len);
        assert(ff.len() <= usize::MAX);
        assert(body =~= dd + spec_u32_to_le_bytes(sp.len() as u32) + sp_enc(sp) + kb
            + spec_u32_to_le_bytes(filter.spec_bits().len() as u32) + spec_u32_to_le_bytes(
            filter.spec_bit_size() as u32,
        ) + filter.spec_bits());
        assert(ff =~= body + spec_u64_to_le_bytes(so as u64) + spec_u64_to_le_bytes(bo as u64)
            + spec_u64_to_le_bytes(max_seqno) + spec_u64_to_le_bytes(min_seqno)
            + spec_u64_to_le_bytes(sstno) + spec_u64_to_le_bytes(MAGIC));
        assert(kb_base == so + 4 + sp_enc(sp).len());
        assert(bo == kb_base + kb.len());
        flush_image_facts(
            ff,
            body,
            dd,
            kb,
            sp,
            ses,
            fs,
            tes,
            filter.spec_bits(),
            filter.spec_bit_size(),
            so as int,
            kb_base as int,
            bo as int,
            sp.len() as int,
            max_seqno,
            min_seqno,
            sstno,
        );
        assert((footer_bloom_off(ff) as int) == bo as int);
        assert((footer_sparse_off(ff) as int) == so as int);
        assert(so <= bo);
    }
    let sst = SSTable::new(sstno, file, final_index, filter, Ghost(ses), Ghost(fs));
    proof {
        assert(sst.wf()) by {
            assert(sst_sorted(ses)) by {
                assert forall|p: int, q: int| 0 <= p < q < ses.len() implies key_lt(
                    #[trigger] ses[p].key,
                    #[trigger] ses[q].key,
                ) by {
                    assert(ses[p].key == tes[p].key@);
                    assert(ses[q].key == tes[q].key@);
                    assert(key_lt(tes[p].key@, tes[q].key@));
                }
            }
            assert(sst_entries_wf(ses)) by {
                assert forall|p: int| 0 <= p < ses.len() implies (#[trigger] ses[p]).key.len()
                    <= u32::MAX by {
                    assert(ses[p].key == tes[p].key@);
                }
            }
            assert(sst_values_wf(ses, ff)) by {
                assert forall|p: int| 0 <= p < ses.len() implies {
                    let q = #[trigger] ses[p];
                    match q.value {
                        None => q.voff == TOMBSTONE_OFFSET,
                        Some(v) => {
                            &&& q.voff != TOMBSTONE_OFFSET
                            &&& q.voff + 4 + v.len() <= ff.len()
                            &&& v.len() <= u32::MAX
                            &&& spec_u32_from_le_bytes(ff.subrange(q.voff as int, q.voff + 4))
                                == v.len()
                            &&& v == ff.subrange(q.voff + 4, q.voff + 4 + v.len())
                        },
                    }
                } by {
                    let q = ses[p];
                    match q.value {
                        None => {},
                        Some(v) => {
                            assert(ff.subrange(q.voff as int, q.voff + 4) =~= dd.subrange(
                                q.voff as int,
                                q.voff + 4,
                            ));
                            assert(ff.subrange(q.voff + 4, q.voff + 4 + v.len()) =~= dd.subrange(
                                q.voff + 4,
                                q.voff + 4 + v.len(),
                            ));
                        },
                    }
                }
            }
        }
        lemma_aligned_maps(tes, ses);
        assert(sst_file_map(ff) == sst_as_map(sst_file_entries(ff)));
        assert(sst_as_map(sst_file_entries(ff)) == sst_as_map(ses)) by {
            assert(sst_file_entries(ff) =~= ses);
        }
    }
    let fr = FlushResult::new(0, sstno, max_seqno, min_seqno);
    (sst, fr)
}

/// Closes the trailing partial block with the final anchor, so that
/// every key stays reachable through the sparse index.
#[verifier::rlimit(100)]
fn close_trailing(
    table: &TableMap,
    kb_buf: &Vec<u8>,
    anchors: &mut Vec<SparseIndex>,
    closed_upto: usize,
    block_start_byte: usize,
    Ghost(ses): Ghost<Seq<SstEntry>>,
    Ghost(starts0): Ghost<Seq<int>>,
    Ghost(tes): Ghost<Seq<TableEntry>>,
) -> (newstarts: Ghost<Seq<int>>)
    requires
        table.wf(),
        tes == table.spec_entries(),
        ses.len() == tes.len(),
        entries_aligned(tes.take(tes.len() as int), ses),
        kb_buf@ == kb_enc(ses),
        closed_upto <= tes.len(),
        anchors_ok(old(anchors)@, starts0, ses, closed_upto as int),
        starts0.len() == 0 ==> closed_upto == 0,
        starts0.len() > 0 ==> starts0[0] == 0,
        forall|p: int|
            0 <= p < old(anchors)@.len() ==> (#[trigger] old(anchors)@[p]).spec_len() + LEN_SIZE
                + OFFSET_SIZE >= PAGE_4KB,
        block_start_byte <= kb_buf@.len(),
        block_start_byte == kb_enc(ses.take(closed_upto as int)).len(),
    ensures
        anchors_ok(final(anchors)@, newstarts@, ses, ses.len() as int),
        newstarts@.len() == 0 ==> ses.len() == 0,
        newstarts@.len() > 0 ==> newstarts@[0] == 0,
        forall|p: int|
            0 <= p < final(anchors)@.len() - 1 ==> (#[trigger] final(anchors)@[p]).spec_len()
                + LEN_SIZE + OFFSET_SIZE >= PAGE_4KB,
{
    let n = table.len();
    let ghost mut starts: Seq<int> = starts0;
    if closed_upto < n {
        let first = table.entry_at(closed_upto);
        let kb_len_now = kb_buf.len();
        let blen_usize = kb_len_now - block_start_byte;
        let ghost anchors_pre = anchors@;
        let a_ix = SparseIndex::new(first.key.as_slice(), block_start_byte, blen_usize);
        anchors.push(a_ix);
        proof {
            let b = closed_upto as int;
            assert(tes.take(n as int)[b] == tes[b]);
            assert(ses[b].key == tes.take(n as int)[b].key@);
            assert(a_ix.spec_key() == ses[b].key);
            lemma_close_step(anchors_pre, a_ix, starts0, ses, b, kb_buf@.len() as int);
            starts = starts0.push(b);
        }
    } else {
        proof {
            assert(closed_upto == n);
        }
    }
    Ghost(starts)
}

/// Closing the final block covers the entries down to the end.
proof fn lemma_close_step(
    anchors_pre: Seq<SparseIndex>,
    a_ix: SparseIndex,
    starts: Seq<int>,
    ses: Seq<SstEntry>,
    b: int,
    kb_len: int,
)
    requires
        anchors_ok(anchors_pre, starts, ses, b),
        0 <= b < ses.len(),
        a_ix.spec_key() == ses[b].key,
        a_ix.spec_offset() == kb_enc(ses.take(b)).len(),
        a_ix.spec_len() == kb_len - kb_enc(ses.take(b)).len(),
        kb_len == kb_enc(ses).len(),
    ensures
        anchors_ok(anchors_pre.push(a_ix), starts.push(b), ses, ses.len() as int),
{
    assert(ses.take(b) + ses.subrange(b, ses.len() as int) =~= ses);
    lemma_kb_enc_add(ses.take(b), ses.subrange(b, ses.len() as int));
    assert(a_ix.spec_len() == kb_enc(ses.subrange(b, ses.len() as int)).len());
    lemma_anchors_ok_close(anchors_pre, a_ix, starts, ses, b, ses.len() as int);
}

} // verus!
