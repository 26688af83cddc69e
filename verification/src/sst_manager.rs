use vstd::prelude::*;

use crate::error::{KeplerErr, KeplerResult};
use crate::mem_table::{as_map, drop_seqnos, lemma_drop_seqnos_insert, stored_len, TableMap};
use crate::sst_writer::{flush_one, table_entries_bounded};
use crate::sstable::{
    footer_bloom_off, footer_sparse_off, footer_sstno, pair_value, pairs_view, parse_key_block,
    sparse_skip, sst_image_view, SSTable, TOMBSTONE_OFFSET,
};
use crate::types::{TableEntry, Value};
use crate::utils::{read_u32_at, read_u64_at};
use crate::version::{ids_set, SSTInfo};

verus! {

/// The mapping a list of tables serves together: newer tables (later in
/// the list) shadow older ones.
pub open spec fn ssts_merged(ts: Seq<SSTable>) -> Map<Seq<u8>, Option<Seq<u8>>>
    decreases ts.len(),
{
    if ts.len() == 0 {
        Map::empty()
    } else {
        ssts_merged(ts.drop_last()).union_prefer_right(ts.last()@)
    }
}

/// A key no table holds is absent from the merged mapping.
pub proof fn lemma_merged_absent(ts: Seq<SSTable>, key: Seq<u8>)
    requires
        forall|i: int| 0 <= i < ts.len() ==> !(#[trigger] ts[i])@.contains_key(key),
    ensures
        !ssts_merged(ts).contains_key(key),
    decreases ts.len(),
{
    if ts.len() > 0 {
        lemma_merged_absent(ts.drop_last(), key);
        assert(ts[ts.len() - 1]@ == ts.last()@);
    }
}

/// The newest table holding a key decides its merged value.
pub proof fn lemma_merged_found(ts: Seq<SSTable>, i: int, key: Seq<u8>)
    requires
        0 <= i < ts.len(),
        ts[i]@.contains_key(key),
        forall|j: int| i < j < ts.len() ==> !(#[trigger] ts[j])@.contains_key(key),
    ensures
        ssts_merged(ts).contains_key(key),
        ssts_merged(ts)[key] == ts[i]@[key],
    decreases ts.len(),
{
    if i == ts.len() - 1 {
        assert(ts.last()@ == ts[i]@);
    } else {
        assert(ts[ts.len() - 1]@ == ts.last()@);
        assert(!ts.last()@.contains_key(key));
        assert(ts.drop_last()[i] == ts[i]);
        assert forall|j: int| i < j < ts.drop_last().len() implies !(
        #[trigger] ts.drop_last()[j])@.contains_key(key) by {
            assert(ts.drop_last()[j] == ts[j]);
        }
        lemma_merged_found(ts.drop_last(), i, key);
    }
}

/// The live set of on-disk tables, newest last, and the counter that
/// hands out the next table number.
pub struct SSTManager {
    tables: Vec<SSTable>,
    id: u64,
}

impl SSTManager {
    pub closed spec fn spec_tables(&self) -> Seq<SSTable> {
        self.tables@
    }

    /// The merged mapping all live tables serve.
    pub open spec fn view(&self) -> Map<Seq<u8>, Option<Seq<u8>>> {
        ssts_merged(self.spec_tables())
    }

    pub closed spec fn spec_next_id(&self) -> u64 {
        self.id
    }

    /// Tables well formed, numbered in strictly ascending order, all
    /// below the next number to hand out.
    pub open spec fn wf(&self) -> bool {
        &&& forall|i: int| 0 <= i < self.spec_tables().len() ==> (#[trigger] self.spec_tables()[i]).wf()
        &&& forall|i: int, j: int|
            0 <= i < j < self.spec_tables().len() ==> (#[trigger] self.spec_tables()[i]).spec_id()
                < (#[trigger] self.spec_tables()[j]).spec_id()
        &&& forall|i: int|
            0 <= i < self.spec_tables().len() ==> (#[trigger] self.spec_tables()[i]).spec_id()
                < self.spec_next_id()
    }

    /// Takes over an already recovered table list.
    pub fn open(tables: Vec<SSTable>, next_sstno: u64) -> (r: Self)
        requires
            forall|i: int| 0 <= i < tables@.len() ==> (#[trigger] tables@[i]).wf(),
            forall|i: int, j: int|
                0 <= i < j < tables@.len() ==> (#[trigger] tables@[i]).spec_id() < (
                #[trigger] tables@[j]).spec_id(),
            forall|i: int|
                0 <= i < tables@.len() ==> (#[trigger] tables@[i]).spec_id() < next_sstno,
        ensures
            r.wf(),
            r.spec_tables() == tables@,
            r.spec_next_id() == next_sstno,
    {
        SSTManager { tables, id: next_sstno }
    }

    /// Number of live tables.
    pub fn len(&self) -> (r: usize)
        ensures
            r == self.spec_tables().len(),
    {
        self.tables.len()
    }

    /// Borrows table `i`, oldest first.
    pub fn table_at(&self, i: usize) -> (r: &SSTable)
        requires
            i < self.spec_tables().len(),
        ensures
            *r == self.spec_tables()[i as int],
    {
        &self.tables[i]
    }

    /// Hands out the next table number.
    pub fn get_id(&mut self) -> (r: KeplerResult<u64>)
        ensures
            match r {
                Ok(id) => {
                    &&& old(self).spec_next_id() < u64::MAX
                    &&& id == old(self).spec_next_id()
                    &&& final(self).spec_next_id() == old(self).spec_next_id() + 1
                    &&& final(self).spec_tables() == old(self).spec_tables()
                },
                Err(e) => {
                    &&& old(self).spec_next_id() == u64::MAX
                    &&& e == KeplerErr::CorruptedSst(0)
                    &&& *final(self) == *old(self)
                },
            },
    {
        if self.id == u64::MAX {
            return Err(KeplerErr::CorruptedSst(0));
        }
        let id = self.id;
        self.id = self.id + 1;
        Ok(id)
    }

    /// Registers a freshly flushed table as the newest.
    pub fn push(&mut self, table: SSTable) -> (r: KeplerResult<()>)
        requires
            old(self).wf(),
            table.wf(),
            old(self).spec_tables().len() > 0 ==> old(self).spec_tables().last().spec_id()
                < table.spec_id(),
            table.spec_id() < old(self).spec_next_id(),
        ensures
            r == Ok::<(), KeplerErr>(()),
            final(self).wf(),
            final(self).spec_next_id() == old(self).spec_next_id(),
            final(self).spec_tables() == old(self).spec_tables().push(table),
            final(self)@ == old(self)@.union_prefer_right(table@),
    {
        self.tables.push(table);
        proof {
            assert(self.spec_tables().drop_last() =~= old(self).spec_tables());
            assert forall|i: int, j: int|
                0 <= i < j < self.spec_tables().len() implies (
            #[trigger] self.spec_tables()[i]).spec_id() < (
            #[trigger] self.spec_tables()[j]).spec_id() by {
                if j == self.spec_tables().len() - 1 {
                    if i < old(self).spec_tables().len() - 1 {
                        assert(old(self).spec_tables()[i].spec_id() < old(
                            self,
                        ).spec_tables().last().spec_id());
                    }
                }
            }
        }
        Ok(())
    }

    /// Looks up `key` across the tables, newest first, stopping at the
    /// first authoritative answer, a stored tombstone included.
    pub fn get(&self, key: &[u8]) -> (r: KeplerResult<Option<Value>>)
        requires
            self.wf(),
        ensures
            match r {
                Ok(Some(v)) => self@.contains_key(key@) && v.model() == self@[key@],
                Ok(None) => !self@.contains_key(key@),
                Err(_) => false,
            },
    {
        let ghost ts = self.spec_tables();
        let mut idx = self.tables.len();
        while idx > 0
            invariant
                idx <= ts.len(),
                ts == self.spec_tables(),
                self.wf(),
                forall|j: int| idx <= j < ts.len() ==> !(#[trigger] ts[j])@.contains_key(key@),
            decreases idx,
        {
            idx = idx - 1;
            let table = &self.tables[idx];
            if table.contains(key) {
                match table.get(key) {
                    Some(v) => {
                        proof {
                            lemma_merged_found(ts, idx as int, key@);
                        }
                        return Ok(Some(v));
                    },
                    None => {},
                }
            } else {
                proof {
                    assert(!ts[idx as int]@.contains_key(key@));
                }
            }
        }
        proof {
            lemma_merged_absent(ts, key@);
        }
        Ok(None)
    }
}

pub use crate::mem_table::map_bounded;

/// A sorted table whose mapping is bounded has only bounded entries.
pub proof fn lemma_bounded_entries(s: Seq<TableEntry>)
    requires
        crate::mem_table::entries_sorted(s),
        map_bounded(as_map(s)),
    ensures
        table_entries_bounded(s),
{
    assert forall|i: int|
        0 <= i < s.len() implies (#[trigger] s[i]).key@.len() <= u32::MAX
        && s[i].value.spec_len() <= u32::MAX by {
        crate::mem_table::lemma_as_map_index(s, i);
        assert(as_map(s).dom().contains(s[i].key@));
    }
}

/// How many images name a live table: those long enough to carry a
/// footer whose table number the manifest lists.
pub open spec fn live_count(files: Seq<Vec<u8>>, live: Set<u64>) -> int
    decreases files.len(),
{
    if files.len() == 0 {
        0
    } else {
        live_count(files.drop_last(), live) + if files.last()@.len() >= 48 && live.contains(
            footer_sstno(files.last()@),
        ) {
            1int
        } else {
            0int
        }
    }
}

/// Rebuilds the live tables from their file images: an image too short
/// to carry a footer, or whose table number the manifest does not list,
/// is ignored; every live image must pass its structural checks, and its
/// key records are read back into an ordered table and re-serialized
/// through the verified writer, so each recovered table serves exactly
/// the mapping its image stores.
#[verifier::rlimit(100)]
pub fn recovery_sst(files: &Vec<Vec<u8>>, live: &Vec<SSTInfo>, next_sstno: u64) -> (r:
    KeplerResult<Vec<SSTable>>)
    ensures
        match r {
            Ok(ts) => {
                &&& forall|i: int| 0 <= i < ts@.len() ==> (#[trigger] ts@[i]).wf()
                &&& forall|i: int, j: int|
                    0 <= i < j < ts@.len() ==> (#[trigger] ts@[i]).spec_id() < (
                    #[trigger] ts@[j]).spec_id()
                &&& forall|i: int| 0 <= i < ts@.len() ==> (#[trigger] ts@[i]).spec_id() < next_sstno
                &&& ts@.len() == live_count(files@, ids_set(live@))
                &&& forall|j: int|
                    0 <= j < ts@.len() ==> exists|i: int|
                        0 <= i < files@.len() && ids_set(live@).contains(
                            footer_sstno((#[trigger] files@[i])@),
                        ) && (#[trigger] ts@[j]).spec_id() == footer_sstno(files@[i]@)
                            && ts@[j]@ == sst_image_view(files@[i]@)
                &&& files@.len() == 0 ==> ts@.len() == 0
            },
            Err(e) => e is CorruptedSst && files@.len() > 0,
        },
        files@.len() == 0 ==> r is Ok,
{
    let mut tables: Vec<SSTable> = Vec::new();
    let ghost mut srcs: Seq<int> = Seq::empty();
    let mut f: usize = 0;
    let n_files = files.len();
    proof {
        assert(files@.take(0) =~= Seq::<Vec<u8>>::empty());
    }
    while f < n_files
        invariant
            f <= n_files,
            n_files == files@.len(),
            forall|i: int| 0 <= i < tables@.len() ==> (#[trigger] tables@[i]).wf(),
            forall|i: int, j: int|
                0 <= i < j < tables@.len() ==> (#[trigger] tables@[i]).spec_id() < (
                #[trigger] tables@[j]).spec_id(),
            forall|i: int| 0 <= i < tables@.len() ==> (#[trigger] tables@[i]).spec_id() < next_sstno,
            srcs.len() == tables@.len(),
            tables@.len() == live_count(files@.take(f as int), ids_set(live@)),
            forall|j: int|
                0 <= j < srcs.len() ==> 0 <= (#[trigger] srcs[j]) < f,
            forall|j: int|
                0 <= j < srcs.len() ==> files@[#[trigger] srcs[j]]@.len() >= 48,
            forall|j: int|
                0 <= j < srcs.len() ==> ids_set(live@).contains(
                    footer_sstno(files@[#[trigger] srcs[j]]@),
                ),
            forall|j: int|
                0 <= j < tables@.len() ==> (#[trigger] tables@[j]).spec_id() == footer_sstno(
                    files@[srcs[j]]@,
                ),
            forall|j: int|
                0 <= j < tables@.len() ==> (#[trigger] tables@[j])@ == sst_image_view(
                    files@[srcs[j]]@,
                ),
        decreases n_files - f,
    {
        proof {
            assert(files@.take(f + 1).drop_last() =~= files@.take(f as int));
            assert(files@.take(f + 1).last() == files@[f as int]);
        }
        let data = &files[f];
        let dlen = data.len();
        if dlen < 48 {
            // too short to name itself: uncommitted debris, ignored
            f = f + 1;
            continue ;
        }
        let sstno = read_u64_at(data, dlen - 16);
        proof {
            assert(data@.subrange(dlen - 16, dlen - 8) =~= data@.subrange(
                data@.len() - 48 + 8 * 4,
                data@.len() - 48 + 8 * 4 + 8,
            ));
            assert(sstno == footer_sstno(data@));
        }
        let mut is_live = false;
        let mut li: usize = 0;
        let n_live = live.len();
        while li < n_live
            invariant
                li <= n_live,
                n_live == live@.len(),
                files@.len() > 0,
                is_live <==> exists|x: int| 0 <= x < li && (#[trigger] live@[x]).id == sstno,
            decreases n_live - li,
        {
            if live[li].id == sstno {
                is_live = true;
                proof {
                    assert(live@[li as int].id == sstno);
                }
            }
            li = li + 1;
        }
        proof {
            assert(is_live == ids_set(live@).contains(sstno));
        }
        if !is_live {
            // not named by the manifest: ignored
            f = f + 1;
            continue ;
        }
        let magic = read_u64_at(data, dlen - 8);
        proof {
            assert(data@.subrange(dlen - 8, dlen as int) =~= data@.subrange(
                data@.len() - 48 + 8 * 5,
                data@.len() - 48 + 8 * 5 + 8,
            ));
        }
        if magic != crate::sstable::MAGIC {
            return Err(KeplerErr::CorruptedSst(dlen - 8));
        }
        let max_seqno = read_u64_at(data, dlen - 32);
        let sparse_off64 = read_u64_at(data, dlen - 48);
        let bloom_off64 = read_u64_at(data, dlen - 40);
        proof {
            assert(data@.subrange(dlen - 48, dlen - 40) =~= data@.subrange(
                data@.len() - 48,
                data@.len() - 48 + 8,
            ));
            assert(data@.subrange(dlen - 40, dlen - 32) =~= data@.subrange(
                data@.len() - 48 + 8,
                data@.len() - 48 + 8 + 8,
            ));
            assert(sparse_off64 == footer_sparse_off(data@));
            assert(bloom_off64 == footer_bloom_off(data@));
        }
        if sstno >= next_sstno {
            return Err(KeplerErr::CorruptedSst(0));
        }
        let fits = if tables.len() > 0 {
            let last_id = tables[tables.len() - 1].id();
            last_id < sstno
        } else {
            true
        };
        if !fits {
            return Err(KeplerErr::CorruptedSst(0));
        }
        if sparse_off64 > (dlen as u64) || bloom_off64 > (dlen as u64) {
            return Err(KeplerErr::CorruptedSst(0));
        }
        let sparse_off = sparse_off64 as usize;
        let bloom_off = bloom_off64 as usize;
        if sparse_off > dlen - 4 || bloom_off > dlen - 48 {
            return Err(KeplerErr::CorruptedSst(sparse_off));
        }
        // skip over the sparse index to reach the key block
        let count = read_u32_at(data, sparse_off) as usize;
        let mut pos = sparse_off + 4;
        let mut j: usize = 0;
        while j < count
            invariant
                j <= count,
                pos <= dlen,
                dlen == data@.len(),
                files@.len() > 0,
                sparse_skip(data@, sparse_off + 4, count as int) == sparse_skip(
                    data@,
                    pos as int,
                    count - j,
                ),
            decreases count - j,
        {
            if dlen - pos < 20 {
                return Err(KeplerErr::CorruptedSst(pos));
            }
            let klen = read_u32_at(data, pos) as usize;
            if dlen - pos - 20 < klen {
                return Err(KeplerErr::CorruptedSst(pos));
            }
            pos = pos + 20 + klen;
            j = j + 1;
        }
        if pos > bloom_off {
            return Err(KeplerErr::CorruptedSst(pos));
        }
        proof {
            assert(sparse_skip(data@, sparse_off + 4, count as int) == Some(pos as int));
        }
        let ghost ks = pos as int;
        let ghost bo = bloom_off as int;
        let ghost mut pairs_done: Seq<(Seq<u8>, u64)> = Seq::empty();
        // read the key block back into an ordered table
        let mut tmap = TableMap::new();
        proof {
            assert(pairs_done + parse_key_block(data@.subrange(ks, bo)) =~= parse_key_block(
                data@.subrange(ks, bo),
            ));
            assert(drop_seqnos(as_map(tmap.spec_entries())) =~= pairs_view(data@, pairs_done));
        }
        while pos < bloom_off
            invariant
                ks <= pos as int <= bo <= dlen,
                bo == bloom_off as int,
                dlen == data@.len(),
                files@.len() > 0,
                tmap.wf(),
                map_bounded(as_map(tmap.spec_entries())),
                parse_key_block(data@.subrange(ks, bo)) == pairs_done + parse_key_block(
                    data@.subrange(pos as int, bo),
                ),
                drop_seqnos(as_map(tmap.spec_entries())) == pairs_view(data@, pairs_done),
            decreases bloom_off - pos,
        {
            if bloom_off - pos < 12 {
                return Err(KeplerErr::CorruptedSst(pos));
            }
            let klen = read_u32_at(data, pos) as usize;
            if bloom_off - pos - 12 < klen {
                return Err(KeplerErr::CorruptedSst(pos));
            }
            let ghost tail = data@.subrange(pos as int, bo);
            proof {
                assert(tail.subrange(0, 4) =~= data@.subrange(pos as int, pos + 4));
            }
            let key = vstd::slice::slice_subrange(data.as_slice(), pos + 4, pos + 4 + klen);
            let voff = read_u64_at(data, pos + 4 + klen);
            let ghost p = (data@.subrange(pos + 4, pos + 4 + klen), voff);
            proof {
                assert(tail.subrange(4, 4 + klen as int) =~= data@.subrange(
                    pos + 4,
                    pos + 4 + klen,
                ));
                assert(tail.subrange(4 + klen as int, 12 + klen as int) =~= data@.subrange(
                    pos + 4 + klen,
                    pos + 12 + klen,
                ));
                assert(parse_key_block(tail) == seq![p] + parse_key_block(
                    tail.skip(12 + klen as int),
                ));
                assert(tail.skip(12 + klen as int) =~= data@.subrange(pos + 12 + klen, bo));
            }
            let value = if voff == TOMBSTONE_OFFSET {
                Value::Tombstone
            } else {
                if voff >= (dlen as u64) || dlen - (voff as usize) < 4 {
                    return Err(KeplerErr::CorruptedSst(pos));
                }
                let vo = voff as usize;
                let vlen = read_u32_at(data, vo) as usize;
                if dlen - vo - 4 < vlen {
                    return Err(KeplerErr::CorruptedSst(vo));
                }
                let vbytes = vstd::slice::slice_subrange(data.as_slice(), vo + 4, vo + 4 + vlen);
                Value::Data(crate::types::slice_to_vec(vbytes))
            };
            proof {
                assert(value.model() == pair_value(data@, voff));
            }
            let ghost m0 = as_map(tmap.spec_entries());
            let _ = tmap.insert_entry(max_seqno, key, value);
            proof {
                assert forall|k: Seq<u8>| #[trigger] as_map(
                    tmap.spec_entries(),
                ).dom().contains(k) implies k.len() <= u32::MAX && stored_len(
                    as_map(tmap.spec_entries())[k].1,
                ) <= u32::MAX by {
                    if k != key@ {
                        assert(m0.dom().contains(k));
                    }
                }
                lemma_drop_seqnos_insert(m0, key@, max_seqno, value.model());
                let pairs2 = pairs_done.push(p);
                assert(pairs2.drop_last() =~= pairs_done);
                assert(pairs2.last() == p);
                assert(pairs_view(data@, pairs2) == pairs_view(data@, pairs_done).insert(
                    p.0,
                    pair_value(data@, p.1),
                ));
                assert(pairs_done + (seq![p] + parse_key_block(
                    data@.subrange(pos + 12 + klen, bo),
                )) =~= pairs2 + parse_key_block(data@.subrange(pos + 12 + klen, bo)));
                pairs_done = pairs2;
            }
            pos = pos + 12 + klen;
        }
        proof {
            assert(data@.subrange(pos as int, bo).len() == 0);
            assert(parse_key_block(data@.subrange(pos as int, bo)) =~= Seq::<(
                Seq<u8>,
                u64,
            )>::empty());
            assert(pairs_done + Seq::<(Seq<u8>, u64)>::empty() =~= pairs_done);
            assert(parse_key_block(data@.subrange(ks, bo)) == pairs_done);
            assert(sst_image_view(data@) == pairs_view(data@, pairs_done)) by {
                assert((footer_sparse_off(data@) as int) == sparse_off as int);
                assert((footer_bloom_off(data@) as int) == bo);
            }
        }
        // canonical re-serialization through the verified writer
        proof {
            lemma_bounded_entries(tmap.spec_entries());
        }
        let (sst, _fr) = match flush_one(sstno, &tmap) {
            Ok(pr) => pr,
            Err(_) => {
                return Err(KeplerErr::CorruptedSst(0));
            },
        };
        proof {
            assert(sst@ == drop_seqnos(as_map(tmap.spec_entries())));
            assert(sst@ == sst_image_view(data@));
        }
        let ghost tables_pre = tables@;
        let ghost srcs_pre = srcs;
        tables.push(sst);
        proof {
            srcs = srcs.push(f as int);
            assert forall|i: int, j: int|
                0 <= i < j < tables@.len() implies (#[trigger] tables@[i]).spec_id() < (
            #[trigger] tables@[j]).spec_id() by {
                if j == tables@.len() - 1 && i < j {
                    assert(tables@[i] == tables_pre[i]);
                    if i < tables_pre.len() - 1 {
                        assert(tables_pre[i].spec_id() < tables_pre[tables_pre.len()
                            - 1].spec_id());
                    }
                }
            }
            assert forall|j: int|
                0 <= j < tables@.len() implies (#[trigger] tables@[j]).spec_id() == footer_sstno(
                files@[srcs[j]]@,
            ) && (#[trigger] tables@[j])@ == sst_image_view(files@[srcs[j]]@) by {
                if j < tables_pre.len() {
                    assert(tables@[j] == tables_pre[j]);
                    assert(srcs[j] == srcs_pre[j]);
                } else {
                    assert(tables@[j] == sst);
                    assert(srcs[j] == f as int);
                }
            }
        }
        f = f + 1;
    }
    proof {
        assert(files@.take(n_files as int) =~= files@);
        assert forall|j: int|
            0 <= j < tables@.len() implies exists|i: int|
                0 <= i < files@.len() && ids_set(live@).contains(
                    footer_sstno((#[trigger] files@[i])@),
                ) && (#[trigger] tables@[j]).spec_id() == footer_sstno(files@[i]@) && tables@[j]@
                    == sst_image_view(files@[i]@) by {
            let i0 = srcs[j];
            assert(0 <= i0 < files@.len() && ids_set(live@).contains(
                footer_sstno((files@[i0])@),
            ) && tables@[j].spec_id() == footer_sstno(files@[i0]@) && tables@[j]@
                == sst_image_view(files@[i0]@));
        }
    }
    Ok(tables)
}

} // verus!
